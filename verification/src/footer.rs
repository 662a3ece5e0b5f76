//! The footer of a stored posting list and the sections it describes.
use crate::bytes;
use crate::error::PostingError;
use vstd::prelude::*;

verus! {

/// Bytes of a directory entry.
pub const L0_SIZE: usize = 16;

/// Bytes of a group entry.
pub const L1_SIZE: usize = 4;

/// Bytes of the older footer.
pub const FOOTER_SIZE: usize = 24;

/// Bytes of the current footer.
pub const FOOTER_V2_SIZE: usize = 44;

/// Last word of the current footer: "BPL2".
pub const FOOTER_MAGIC: u32 = 0x324C_5042;

/// A position cursor per block.
pub const FLAG_POS_CURSORS: u32 = 1;

/// Packed bounds words.
pub const FLAG_LEN_BOUNDS: u32 = 2;

/// A bounds word per group.
pub const FLAG_L1_BOUNDS: u32 = 4;

/// Length-to-frequency ratios of blocks and groups.
pub const FLAG_RATIO_BOUNDS: u32 = 8;

/// Envelopes of the blocks.
pub const FLAG_IMPACT_BOUNDS: u32 = 16;

/// Envelopes of the groups too.
pub const FLAG_GROUP_IMPACT_BOUNDS: u32 = 32;

/// Block headers in the directory.
pub const FLAG_COMPACT_HEADERS: u32 = 64;

/// Position cursors of four bytes.
pub const FLAG_SHORT_CURSORS: u32 = 128;

/// A parsed footer.
#[derive(Debug, Clone, Copy, PartialEq, Eq, Structural)]
pub struct Footer {
    pub compact_headers: bool,
    pub short_cursors: bool,
    pub stream_len: usize,
    pub l0_count: usize,
    pub l1_count: usize,
    pub doc_count: u32,
    pub max_tf: u32,
    pub total_positions: u64,
    pub has_cursors: bool,
    pub len_bounds: bool,
    pub l1_bounds: bool,
    pub ratio_bounds: bool,
    pub impact_bounds: bool,
    pub group_impact_bounds: bool,
    pub min_len: u32,
}

/// Whether a flag is set.
pub open spec fn has_flag(flags: u32, flag: u32) -> bool {
    (flags / flag) % 2 == 1
}

/// Whether the bytes end with the current footer.
pub open spec fn is_extended(raw: Seq<u8>) -> bool {
    raw.len() >= 44 && bytes::u32_at(raw, raw.len() - 4) == FOOTER_MAGIC
}

/// Size of the footer that the bytes end with.
pub open spec fn footer_size(raw: Seq<u8>) -> int {
    if is_extended(raw) {
        44
    } else {
        24
    }
}

/// The words of the footer that the bytes end with.
pub open spec fn read_footer(raw: Seq<u8>) -> Footer {
    let f = raw.len() - footer_size(raw);
    let flags = if is_extended(raw) {
        bytes::u32_at(raw, f + 32)
    } else {
        0
    };
    Footer {
        compact_headers: has_flag(flags, FLAG_COMPACT_HEADERS),
        short_cursors: has_flag(flags, FLAG_SHORT_CURSORS),
        stream_len: bytes::u64_at(raw, f) as usize,
        l0_count: bytes::u32_at(raw, f + 8) as usize,
        l1_count: bytes::u32_at(raw, f + 12) as usize,
        doc_count: bytes::u32_at(raw, f + 16),
        max_tf: bytes::u32_at(raw, f + 20),
        total_positions: if is_extended(raw) {
            bytes::u64_at(raw, f + 24)
        } else {
            0
        },
        has_cursors: has_flag(flags, FLAG_POS_CURSORS),
        len_bounds: has_flag(flags, FLAG_LEN_BOUNDS),
        l1_bounds: has_flag(flags, FLAG_L1_BOUNDS),
        ratio_bounds: has_flag(flags, FLAG_RATIO_BOUNDS),
        impact_bounds: has_flag(flags, FLAG_IMPACT_BOUNDS),
        group_impact_bounds: has_flag(flags, FLAG_GROUP_IMPACT_BOUNDS),
        min_len: if is_extended(raw) {
            bytes::u32_at(raw, f + 36)
        } else {
            0
        },
    }
}

/// Whether the sections end where a footer at `offset` starts. Envelopes have
/// no fixed size: for them there only has to be room for their directory.
pub open spec fn sections_match(f: Footer, offset: int) -> bool {
    if f.impact_bounds {
        f.len_bounds && f.ratio_bounds && f.ratios_end_spec() + 4 * (f.impact_count() + 1) <= offset
    } else {
        f.ratios_end_spec() == offset
    }
}

/// The footer of a list of `total_len` bytes that ends with `raw`, or why it
/// is refused.
#[verifier::opaque]
pub open spec fn parse_tail_spec(raw: Seq<u8>, total_len: int) -> Result<Footer, PostingError> {
    let f = raw.len() - footer_size(raw);
    let footer = read_footer(raw);
    let offset = if total_len >= footer_size(raw) {
        total_len - footer_size(raw)
    } else {
        0
    };
    if raw.len() < 24 {
        Err(PostingError::TooShort)
    } else if bytes::u64_at(raw, f) > usize::MAX {
        Err(PostingError::StreamAddress)
    } else if is_extended(raw) && bytes::u32_at(raw, f + 32) >= 256 {
        Err(PostingError::UnknownFlags)
    } else if footer.short_cursors && (!footer.has_cursors || footer.total_positions > u32::MAX) {
        Err(PostingError::ShortCursors)
    } else if footer.group_impact_bounds && (!footer.impact_bounds || !footer.l1_bounds) {
        Err(PostingError::GroupImpacts)
    } else if !sections_match(footer, offset) {
        Err(PostingError::Sections)
    } else {
        Ok(footer)
    }
}

impl Footer {
    /// Number of envelopes.
    pub open spec fn impact_count(self) -> int {
        self.l0_count + if self.group_impact_bounds {
            self.l1_count as int
        } else {
            0
        }
    }

    /// End of the directory entries.
    pub open spec fn l0_end_spec(self) -> int {
        self.stream_len + 16 * self.l0_count
    }

    /// Start of the group entries.
    pub open spec fn l1_start_spec(self) -> int {
        self.l0_end_spec() + if self.compact_headers {
            4 * self.l0_count
        } else {
            0
        }
    }

    /// End of the group entries.
    pub open spec fn l1_end_spec(self) -> int {
        self.l1_start_spec() + 4 * self.l1_count
    }

    /// End of the group bounds.
    pub open spec fn l1_bounds_end_spec(self) -> int {
        self.l1_end_spec() + if self.l1_bounds {
            4 * self.l1_count
        } else {
            0
        }
    }

    /// Bytes of a position cursor.
    pub open spec fn cursor_size_spec(self) -> int {
        if self.short_cursors {
            4
        } else {
            8
        }
    }

    /// End of the position cursors.
    pub open spec fn cursors_end_spec(self) -> int {
        self.l1_bounds_end_spec() + if self.has_cursors {
            self.l0_count * self.cursor_size_spec()
        } else {
            0
        }
    }

    /// End of the ratios.
    pub open spec fn ratios_end_spec(self) -> int {
        self.cursors_end_spec() + if self.ratio_bounds {
            4 * (self.l0_count + self.l1_count)
        } else {
            0
        }
    }

    /// Parse the footer of a whole list.
    pub fn parse(raw: &[u8]) -> (r: Result<Footer, PostingError>)
        ensures
            r == parse_tail_spec(raw@, raw@.len() as int),
    {
        Footer::parse_tail(raw, raw.len())
    }

    /// Parse the footer of a list of `total_len` bytes from its last bytes.
    pub fn parse_tail(raw: &[u8], total_len: usize) -> (r: Result<Footer, PostingError>)
        ensures
            r == parse_tail_spec(raw@, total_len as int),
    {
        proof {
            reveal(parse_tail_spec);
        }
        if raw.len() < FOOTER_SIZE {
            return Err(PostingError::TooShort);
        }
        let extended: bool = raw.len() >= FOOTER_V2_SIZE && bytes::get_u32(raw, raw.len() - 4)
            == FOOTER_MAGIC;
        let size: usize = if extended {
            FOOTER_V2_SIZE
        } else {
            FOOTER_SIZE
        };
        let f: usize = raw.len() - size;
        let stream_len: u64 = bytes::get_u64(raw, f);
        if stream_len > usize::MAX as u64 {
            return Err(PostingError::StreamAddress);
        }
        let (total_positions, flags, min_len): (u64, u32, u32) = if extended {
            (
                bytes::get_u64(raw, f + 24),
                bytes::get_u32(raw, f + 32),
                bytes::get_u32(raw, f + 36),
            )
        } else {
            (0, 0, 0)
        };
        if flags >= 256 {
            return Err(PostingError::UnknownFlags);
        }
        let footer = Footer {
            compact_headers: (flags / FLAG_COMPACT_HEADERS) % 2 == 1,
            short_cursors: (flags / FLAG_SHORT_CURSORS) % 2 == 1,
            stream_len: stream_len as usize,
            l0_count: bytes::get_u32(raw, f + 8) as usize,
            l1_count: bytes::get_u32(raw, f + 12) as usize,
            doc_count: bytes::get_u32(raw, f + 16),
            max_tf: bytes::get_u32(raw, f + 20),
            total_positions,
            has_cursors: (flags / FLAG_POS_CURSORS) % 2 == 1,
            len_bounds: (flags / FLAG_LEN_BOUNDS) % 2 == 1,
            l1_bounds: (flags / FLAG_L1_BOUNDS) % 2 == 1,
            ratio_bounds: (flags / FLAG_RATIO_BOUNDS) % 2 == 1,
            impact_bounds: (flags / FLAG_IMPACT_BOUNDS) % 2 == 1,
            group_impact_bounds: (flags / FLAG_GROUP_IMPACT_BOUNDS) % 2 == 1,
            min_len,
        };
        proof {
            assert(footer == read_footer(raw@));
        }
        if footer.short_cursors && (!footer.has_cursors || footer.total_positions > 0xFFFF_FFFF) {
            return Err(PostingError::ShortCursors);
        }
        if footer.group_impact_bounds && (!footer.impact_bounds || !footer.l1_bounds) {
            return Err(PostingError::GroupImpacts);
        }
        let offset: usize = total_len.saturating_sub(size);
        let end: u128 = footer.wide_end();
        let fits: bool = if footer.impact_bounds {
            let records: u128 = footer.l0_count as u128 + if footer.group_impact_bounds {
                footer.l1_count as u128
            } else {
                0
            };
            footer.len_bounds && footer.ratio_bounds && end + 4 * (records + 1) <= offset as u128
        } else {
            end == offset as u128
        };
        if !fits {
            return Err(PostingError::Sections);
        }
        Ok(footer)
    }

    /// End of the ratios, in numbers that cannot overflow.
    fn wide_end(&self) -> (r: u128)
        requires
            self.l0_count <= u32::MAX,
            self.l1_count <= u32::MAX,
        ensures
            r == self.ratios_end_spec(),
            r <= 0x2_0000_0000_0000_0000,
    {
        let l0: u128 = self.l0_count as u128;
        let l1: u128 = self.l1_count as u128;
        let mut end: u128 = self.stream_len as u128 + 16 * l0;
        if self.compact_headers {
            end = end + 4 * l0;
        }
        end = end + 4 * l1;
        if self.l1_bounds {
            end = end + 4 * l1;
        }
        if self.has_cursors {
            end = end + if self.short_cursors {
                4 * l0
            } else {
                8 * l0
            };
        }
        if self.ratio_bounds {
            end = end + 4 * (l0 + l1);
        }
        end
    }

    /// Start of the directory.
    pub fn l0_start(&self) -> (r: usize)
        ensures
            r == self.stream_len,
    {
        self.stream_len
    }

    /// Number of envelopes.
    pub fn impact_record_count(&self) -> (r: usize)
        requires
            self.impact_count() <= usize::MAX,
        ensures
            r == self.impact_count(),
    {
        self.l0_count + if self.group_impact_bounds {
            self.l1_count
        } else {
            0
        }
    }

    /// End of the directory entries.
    pub fn l0_end(&self) -> (r: usize)
        requires
            self.ratios_end_spec() <= usize::MAX,
        ensures
            r == self.l0_end_spec(),
    {
        proof {
            self.sections_in_order();
        }
        self.stream_len + 16 * self.l0_count
    }

    /// Start of the group entries.
    pub fn l1_start(&self) -> (r: usize)
        requires
            self.ratios_end_spec() <= usize::MAX,
        ensures
            r == self.l1_start_spec(),
    {
        proof {
            self.sections_in_order();
        }
        self.l0_end() + if self.compact_headers {
            4 * self.l0_count
        } else {
            0
        }
    }

    /// Bytes of a position cursor.
    pub fn cursor_size(&self) -> (r: usize)
        ensures
            r == self.cursor_size_spec(),
    {
        if self.short_cursors {
            4
        } else {
            8
        }
    }

    /// End of the group entries.
    pub fn l1_end(&self) -> (r: usize)
        requires
            self.ratios_end_spec() <= usize::MAX,
        ensures
            r == self.l1_end_spec(),
    {
        proof {
            self.sections_in_order();
        }
        self.l1_start() + 4 * self.l1_count
    }

    /// End of the group bounds.
    pub fn l1_bounds_end(&self) -> (r: usize)
        requires
            self.ratios_end_spec() <= usize::MAX,
        ensures
            r == self.l1_bounds_end_spec(),
    {
        proof {
            self.sections_in_order();
        }
        self.l1_end() + if self.l1_bounds {
            4 * self.l1_count
        } else {
            0
        }
    }

    /// End of the position cursors.
    pub fn cursors_end(&self) -> (r: usize)
        requires
            self.ratios_end_spec() <= usize::MAX,
        ensures
            r == self.cursors_end_spec(),
    {
        proof {
            self.sections_in_order();
        }
        if self.has_cursors {
            if self.short_cursors {
                self.l1_bounds_end() + 4 * self.l0_count
            } else {
                self.l1_bounds_end() + 8 * self.l0_count
            }
        } else {
            self.l1_bounds_end()
        }
    }

    /// End of the ratios.
    pub fn ratios_end(&self) -> (r: usize)
        requires
            self.ratios_end_spec() <= usize::MAX,
        ensures
            r == self.ratios_end_spec(),
    {
        proof {
            self.sections_in_order();
        }
        if self.ratio_bounds {
            self.cursors_end() + 4 * (self.l0_count + self.l1_count)
        } else {
            self.cursors_end()
        }
    }

    /// The sections follow each other.
    pub proof fn sections_in_order(&self)
        ensures
            self.stream_len <= self.l0_end_spec() <= self.l1_start_spec() <= self.l1_end_spec()
                <= self.l1_bounds_end_spec() <= self.cursors_end_spec() <= self.ratios_end_spec(),
            self.l0_count * self.cursor_size_spec() == (if self.short_cursors {
                4 * self.l0_count
            } else {
                8 * self.l0_count
            }),
    {
    }
}

} // verus!
