//! What storing a posting list and reading it back preserve.
use crate::block;
use crate::block::PostingBlock;
use crate::bounds;
use crate::bytes;
use crate::codec;
use crate::error::PostingError;
use crate::footer;
use crate::footer::Footer;
use crate::footer::FOOTER_MAGIC;
use crate::impacts;
use crate::list;
use crate::list::BlockPostingList;
use crate::list_read;
use crate::list_write;
use crate::ratio;
use vstd::prelude::*;

verus! {

/// Whether two blocks have the same directory entry, header and payload.
pub open spec fn same_block(a: PostingBlock, b: PostingBlock) -> bool {
    &&& a.first == b.first
    &&& a.last == b.last
    &&& a.bounds == b.bounds
    &&& a.count == b.count
    &&& a.doc_bits == b.doc_bits
    &&& a.tf_bits == b.tf_bits
    &&& a.payload@ == b.payload@
}

/// Whether two lists hold the same blocks and metadata; the layout aside.
pub open spec fn same_list(a: BlockPostingList, b: BlockPostingList) -> bool {
    &&& a.blocks@.len() == b.blocks@.len()
    &&& forall|i: int|
        0 <= i < a.blocks@.len() ==> same_block(#[trigger] a.blocks@[i], b.blocks@[i])
    &&& a.l1_docs@ == b.l1_docs@
    &&& a.l1_bounds@ == b.l1_bounds@
    &&& a.doc_count == b.doc_count
    &&& a.max_tf == b.max_tf
    &&& a.total_positions == b.total_positions
    &&& a.len_bounds == b.len_bounds
    &&& a.len_bounds ==> a.min_len == b.min_len
    &&& match (a.cursors, b.cursors) {
        (Some(c), Some(d)) => c@ == d@,
        (None, None) => true,
        _ => false,
    }
    &&& match (a.ratios, b.ratios) {
        (Some(c), Some(d)) => c@ == d@,
        (None, None) => true,
        _ => false,
    }
    &&& match (a.impacts, b.impacts) {
        (Some(c), Some(d)) => c@ == d@,
        (None, None) => true,
        _ => false,
    }
}

/// The footer that storing a list writes.
pub open spec fn written_footer(l: BlockPostingList, compact: bool) -> Footer {
    Footer {
        compact_headers: compact,
        short_cursors: l.stores_short(compact),
        stream_len: list::stream_upto(l.blocks@, l.len(), compact) as usize,
        l0_count: l.len() as usize,
        l1_count: l.groups() as usize,
        doc_count: l.doc_count,
        max_tf: l.max_tf,
        total_positions: l.total_positions,
        has_cursors: l.cursors is Some,
        len_bounds: l.len_bounds,
        l1_bounds: l.l1_bounds@.len() > 0,
        ratio_bounds: l.ratios is Some,
        impact_bounds: l.impacts is Some,
        group_impact_bounds: l.has_group_impacts(),
        min_len: if l.len_bounds {
            l.min_len
        } else {
            0
        },
    }
}

/// What a list must meet to be stored in a layout.
pub open spec fn storable(l: BlockPostingList, compact: bool) -> bool {
    &&& l.wf()
    &&& list::offsets_fit(l.blocks@, compact)
    &&& compact ==> list::no_pfor(l.blocks@)
    &&& !compact ==> list::first_gaps_ok(l.blocks@)
    &&& l.cursors matches Some(c) ==> c@.len() > 0 ==> c@[0] == 0
    &&& l.stored(compact).len() <= usize::MAX
}

/// The lowest bit of a number, and the rest.
proof fn low_bit(w: int, bit: int, rest: int)
    requires
        0 <= bit <= 1,
        w == bit + 2 * rest,
    ensures
        w / 2 == rest,
        w % 2 == bit,
{
}

/// Halving twice is halving by the product.
proof fn halves(w: int, d: int)
    requires
        w >= 0,
        d > 0,
    ensures
        w / (d * 2) == (w / d) / 2,
{
    vstd::arithmetic::div_mod::lemma_div_denominator(w, d, 2);
}

/// A sum of eight weighted bits holds each of them.
#[verifier::spinoff_prover]
proof fn flag_bits(a: int, b: int, c: int, d: int, e: int, f: int, g: int, h: int, w: int)
    requires
        0 <= a <= 1,
        0 <= b <= 1,
        0 <= c <= 1,
        0 <= d <= 1,
        0 <= e <= 1,
        0 <= f <= 1,
        0 <= g <= 1,
        0 <= h <= 1,
        w == a + 2 * b + 4 * c + 8 * d + 16 * e + 32 * f + 64 * g + 128 * h,
    ensures
        w < 256,
        (w / 1) % 2 == a,
        (w / 2) % 2 == b,
        (w / 4) % 2 == c,
        (w / 8) % 2 == d,
        (w / 16) % 2 == e,
        (w / 32) % 2 == f,
        (w / 64) % 2 == g,
        (w / 128) % 2 == h,
{
    let w7 = h;
    let w6 = g + 2 * w7;
    let w5 = f + 2 * w6;
    let w4 = e + 2 * w5;
    let w3 = d + 2 * w4;
    let w2 = c + 2 * w3;
    let w1 = b + 2 * w2;
    low_bit(w, a, w1);
    low_bit(w1, b, w2);
    low_bit(w2, c, w3);
    low_bit(w3, d, w4);
    low_bit(w4, e, w5);
    low_bit(w5, f, w6);
    low_bit(w6, g, w7);
    halves(w, 2);
    halves(w, 4);
    halves(w, 8);
    halves(w, 16);
    halves(w, 32);
    halves(w, 64);
}

/// A word is read where it was written.
proof fn word_read(s: Seq<u8>, k: int, x: u32)
    requires
        0 <= k,
        k + 4 <= s.len(),
        s.subrange(k, k + 4) == bytes::le32(x),
    ensures
        bytes::u32_at(s, k) == x,
{
    broadcast use bytes::group_word_sizes;

    bytes::le32_roundtrip(x);
    bytes::section_u32(s, k, bytes::le32(x), 0);
}

/// A long word is read where it was written.
proof fn long_read(s: Seq<u8>, k: int, x: u64)
    requires
        0 <= k,
        k + 8 <= s.len(),
        s.subrange(k, k + 8) == bytes::le64(x),
    ensures
        bytes::u64_at(s, k) == x,
{
    broadcast use bytes::group_word_sizes;

    bytes::le64_roundtrip(x);
    bytes::section_u64(s, k, bytes::le64(x), 0);
}

/// The words of a written footer.
proof fn footer_words(l: BlockPostingList, compact: bool, flags: u32)
    requires
        l.wf(),
    ensures
        ({
            let s = l.footer_with(compact, flags);
            &&& s.len() == 44
            &&& bytes::u64_at(s, 0) == list::stream_upto(l.blocks@, l.len(), compact) as u64
            &&& bytes::u32_at(s, 8) == l.len() as u32
            &&& bytes::u32_at(s, 12) == l.l1_docs@.len() as u32
            &&& bytes::u32_at(s, 16) == l.doc_count
            &&& bytes::u32_at(s, 20) == l.max_tf
            &&& bytes::u64_at(s, 24) == l.total_positions
            &&& bytes::u32_at(s, 32) == flags
            &&& bytes::u32_at(s, 36) == (if l.len_bounds {
                l.min_len
            } else {
                0
            })
            &&& bytes::u32_at(s, 40) == FOOTER_MAGIC
        }),
{
    broadcast use bytes::group_word_sizes;

    reveal(BlockPostingList::footer_with);
    let a = bytes::le64(list::stream_upto(l.blocks@, l.len(), compact) as u64);
    let b = bytes::le32(l.len() as u32);
    let c = bytes::le32(l.l1_docs@.len() as u32);
    let d = bytes::le32(l.doc_count);
    let e = bytes::le32(l.max_tf);
    let f = bytes::le64(l.total_positions);
    let g = bytes::le32(flags);
    let m: u32 = if l.len_bounds {
        l.min_len
    } else {
        0
    };
    let h = bytes::le32(m);
    let i = bytes::le32(FOOTER_MAGIC);
    let s = a + b + c + d + e + f + g + h + i;
    assert(s == l.footer_with(compact, flags));
    assert(s.subrange(0, 8) =~= a);
    long_read(s, 0, list::stream_upto(l.blocks@, l.len(), compact) as u64);
    assert(s.subrange(8, 12) =~= b);
    word_read(s, 8, l.len() as u32);
    assert(s.subrange(12, 16) =~= c);
    word_read(s, 12, l.l1_docs@.len() as u32);
    assert(s.subrange(16, 20) =~= d);
    word_read(s, 16, l.doc_count);
    assert(s.subrange(20, 24) =~= e);
    word_read(s, 20, l.max_tf);
    assert(s.subrange(24, 32) =~= f);
    long_read(s, 24, l.total_positions);
    assert(s.subrange(32, 36) =~= g);
    word_read(s, 32, flags);
    assert(s.subrange(36, 40) =~= h);
    word_read(s, 36, m);
    assert(s.subrange(40, 44) =~= i);
    word_read(s, 40, FOOTER_MAGIC);
}

/// Places and lengths of nine parts.
proof fn nine_parts(p: Seq<Seq<u8>>)
    requires
        p.len() == 9,
    ensures
        bytes::joined_len(p, 0) == 0,
        bytes::joined_len(p, 1) == p[0].len(),
        bytes::joined_len(p, 2) == p[0].len() + p[1].len(),
        bytes::joined_len(p, 3) == bytes::joined_len(p, 2) + p[2].len(),
        bytes::joined_len(p, 4) == bytes::joined_len(p, 3) + p[3].len(),
        bytes::joined_len(p, 5) == bytes::joined_len(p, 4) + p[4].len(),
        bytes::joined_len(p, 6) == bytes::joined_len(p, 5) + p[5].len(),
        bytes::joined_len(p, 7) == bytes::joined_len(p, 6) + p[6].len(),
        bytes::joined_len(p, 8) == bytes::joined_len(p, 7) + p[7].len(),
        bytes::joined_len(p, 9) == bytes::joined_len(p, 8) + p[8].len(),
        bytes::joined(p).len() == bytes::joined_len(p, 9),
        forall|k: int|
            0 <= k < 9 ==> bytes::joined(p).subrange(
                bytes::joined_len(p, k),
                bytes::joined_len(p, k + 1),
            ) == #[trigger] p[k],
{
    reveal_with_fuel(bytes::joined_len, 2);
    bytes::joined_position(p, 9);
    assert forall|k: int| 0 <= k < 9 implies bytes::joined(p).subrange(
        bytes::joined_len(p, k),
        bytes::joined_len(p, k + 1),
    ) == #[trigger] p[k] by {
        bytes::joined_position(p, k);
    }
}

/// Lengths of the joined blocks are the stream offsets.
proof fn stream_lens(blocks: Seq<PostingBlock>, compact: bool, n: int)
    requires
        0 <= n <= blocks.len(),
    ensures
        bytes::joined_len(list_write::stream_parts(blocks, compact), n) == list::stream_upto(
            blocks,
            n,
            compact,
        ),
    decreases n,
{
    broadcast use bytes::group_word_sizes;

    if n > 0 {
        stream_lens(blocks, compact, n - 1);
        bytes::le16_roundtrip(blocks[n - 1].count);
        bytes::le32_roundtrip(blocks[n - 1].first);
    }
}

/// Where the sections of a stored list stand.
#[verifier::opaque]
spec fn sections_at(l: BlockPostingList, compact: bool) -> bool {
    let raw = l.stored(compact);
    let f = written_footer(l, compact);
    let short = l.stores_short(compact);
    &&& raw.subrange(0, f.stream_len as int) == bytes::joined(
        list_write::stream_parts(l.blocks@, compact),
    )
    &&& raw.subrange(f.stream_len as int, f.l0_end_spec()) == bytes::joined(
        list_write::entry_parts(l.blocks@, compact),
    )
    &&& raw.subrange(f.l0_end_spec(), f.l1_start_spec()) == bytes::joined(
        list_write::descriptor_parts(l.blocks@, compact),
    )
    &&& raw.subrange(f.l1_start_spec(), f.l1_end_spec()) == bytes::le32_all(l.l1_docs@)
    &&& raw.subrange(f.l1_end_spec(), f.l1_bounds_end_spec()) == bytes::le32_all(l.l1_bounds@)
    &&& raw.subrange(f.l1_bounds_end_spec(), f.cursors_end_spec()) == bytes::joined(
        list_write::cursor_parts(l.cursors, short),
    )
    &&& raw.subrange(f.cursors_end_spec(), f.ratios_end_spec()) == list_write::optional_words(
        l.ratios,
    )
    &&& raw.subrange(f.ratios_end_spec(), raw.len() - 44) == l.impact_bytes()
    &&& raw.subrange(raw.len() - 44, raw.len() as int) == l.footer_bytes(compact)
    &&& f.stream_len == list::stream_upto(l.blocks@, l.len(), compact)
    &&& f.ratios_end_spec() + l.impact_bytes().len() == raw.len() - 44
}

/// A list has no more blocks than postings.
proof fn counts_fit(l: BlockPostingList)
    requires
        l.wf(),
    ensures
        l.len() <= l.doc_count,
        l.doc_count <= 128 * l.len(),
        l.groups() <= l.len(),
        l.l1_docs@.len() == l.groups(),
{
    list::total_count_grows(l.blocks@, 0, l.len());
}

proof fn sections_hold(l: BlockPostingList, compact: bool)
    requires
        storable(l, compact),
    ensures
        sections_at(l, compact),
{
    reveal(sections_at);
    reveal(BlockPostingList::stored);
    let p = l.stored_parts(compact);
    let f = written_footer(l, compact);
    counts_fit(l);
    nine_parts(p);
    footer_words(l, compact, l.flags(compact));
    section_lens(l, compact);
    assert(p[0] == bytes::joined(list_write::stream_parts(l.blocks@, compact)));
    assert(p[1] == bytes::joined(list_write::entry_parts(l.blocks@, compact)));
    assert(p[2] == bytes::joined(list_write::descriptor_parts(l.blocks@, compact)));
    assert(p[3] == bytes::le32_all(l.l1_docs@));
    assert(p[4] == bytes::le32_all(l.l1_bounds@));
    assert(p[5] == bytes::joined(
        list_write::cursor_parts(l.cursors, l.stores_short(compact)),
    ));
    assert(p[6] == list_write::optional_words(l.ratios));
    assert(p[7] == l.impact_bytes());
    assert(p[8] == l.footer_bytes(compact));
    assert(f.stream_len == p[0].len());
}

/// Size of a stored list.
pub proof fn stored_size(l: BlockPostingList, compact: bool)
    requires
        l.wf(),
    ensures
        l.stored(compact).len() == list::stream_upto(l.blocks@, l.len(), compact) + 16 * l.len() + (
        if compact {
            4 * l.len()
        } else {
            0
        }) + 4 * l.groups() + 4 * l.l1_bounds@.len() + (if l.cursors is Some {
            l.len() * if l.stores_short(compact) {
                4int
            } else {
                8int
            }
        } else {
            0
        }) + list_write::optional_words(l.ratios).len() + l.impact_bytes().len() + 44,
{
    reveal(BlockPostingList::stored);
    let p = l.stored_parts(compact);
    nine_parts(p);
    footer_words(l, compact, l.flags(compact));
    section_lens(l, compact);
    bytes::le32_all_len(l.l1_bounds@);
    assert(p[0] == bytes::joined(list_write::stream_parts(l.blocks@, compact)));
    assert(p[1] == bytes::joined(list_write::entry_parts(l.blocks@, compact)));
    assert(p[2] == bytes::joined(list_write::descriptor_parts(l.blocks@, compact)));
    assert(p[3] == bytes::le32_all(l.l1_docs@));
    assert(p[4] == bytes::le32_all(l.l1_bounds@));
    assert(p[5] == bytes::joined(
        list_write::cursor_parts(l.cursors, l.stores_short(compact)),
    ));
    assert(p[6] == list_write::optional_words(l.ratios));
    assert(p[7] == l.impact_bytes());
    assert(p[8] == l.footer_bytes(compact));
}

/// Lengths of the sections of a stored list.
proof fn section_lens(l: BlockPostingList, compact: bool)
    requires
        l.wf(),
    ensures
        bytes::joined(list_write::stream_parts(l.blocks@, compact)).len() == list::stream_upto(
            l.blocks@,
            l.len(),
            compact,
        ),
        bytes::joined(list_write::entry_parts(l.blocks@, compact)).len() == 16 * l.len(),
        bytes::joined(list_write::descriptor_parts(l.blocks@, compact)).len() == (if compact {
            4 * l.len()
        } else {
            0
        }),
        bytes::le32_all(l.l1_docs@).len() == 4 * l.groups(),
        bytes::le32_all(l.l1_bounds@).len() == (if l.l1_bounds@.len() > 0 {
            4 * l.groups()
        } else {
            0
        }),
        bytes::joined(list_write::cursor_parts(l.cursors, l.stores_short(compact))).len() == (
        if l.cursors is Some {
            l.len() * if l.stores_short(compact) {
                4int
            } else {
                8int
            }
        } else {
            0
        }),
        list_write::optional_words(l.ratios).len() == (if l.ratios is Some {
            4 * (l.len() + l.groups())
        } else {
            0
        }),
{
    let blocks = l.blocks@;
    let stream = list_write::stream_parts(blocks, compact);
    let entries = list_write::entry_parts(blocks, compact);
    let descriptors = list_write::descriptor_parts(blocks, compact);
    let short = l.stores_short(compact);
    let cursors = list_write::cursor_parts(l.cursors, short);
    stream_lens(blocks, compact, l.len());
    bytes::joined_position(stream, l.len());
    entry_lens(blocks, compact);
    bytes::joined_position(entries, l.len());
    bytes::joined_uniform(entries, 16, l.len());
    descriptor_lens(blocks, compact);
    bytes::joined_position(descriptors, descriptors.len() as int);
    bytes::joined_uniform(descriptors, 4, descriptors.len() as int);
    cursor_lens(l.cursors, short);
    let size: int = if short {
        4
    } else {
        8
    };
    bytes::joined_position(cursors, cursors.len() as int);
    bytes::joined_uniform(cursors, size, cursors.len() as int);
    bytes::le32_all_len(l.l1_docs@);
    bytes::le32_all_len(l.l1_bounds@);
    if l.ratios is Some {
        bytes::le32_all_len(l.ratios->Some_0@);
    }
}

proof fn entry_lens(blocks: Seq<PostingBlock>, compact: bool)
    ensures
        forall|i: int|
            0 <= i < blocks.len() ==> (#[trigger] list_write::entry_parts(blocks, compact)[i]).len()
                == 16,
{
    broadcast use bytes::group_word_sizes;

}

proof fn descriptor_lens(blocks: Seq<PostingBlock>, compact: bool)
    ensures
        list_write::descriptor_parts(blocks, compact).len() == (if compact {
            blocks.len()
        } else {
            0
        }),
        forall|i: int|
            0 <= i < list_write::descriptor_parts(blocks, compact).len() ==> (
            #[trigger] list_write::descriptor_parts(blocks, compact)[i]).len() == 4,
{
    broadcast use bytes::group_word_sizes;

}

proof fn cursor_lens(cursors: Option<Vec<u64>>, short: bool)
    ensures
        list_write::cursor_parts(cursors, short).len() == (match cursors {
            Some(c) => c@.len(),
            None => 0,
        }),
        forall|i: int|
            0 <= i < list_write::cursor_parts(cursors, short).len() ==> (
            #[trigger] list_write::cursor_parts(cursors, short)[i]).len() == (if short {
                4int
            } else {
                8
            }),
{
    broadcast use bytes::group_word_sizes;

}

/// Parsing the footer of a stored list gives what was written.
proof fn footer_parses(l: BlockPostingList, compact: bool)
    requires
        storable(l, compact),
    ensures
        footer::parse_tail_spec(l.stored(compact), l.stored(compact).len() as int) == Ok::<
            Footer,
            PostingError,
        >(written_footer(l, compact)),
{
    sections_hold(l, compact);
    reveal(sections_at);
    reveal(footer::parse_tail_spec);
    let raw = l.stored(compact);
    let foot = l.footer_bytes(compact);
    let at = raw.len() - 44;
    let f = written_footer(l, compact);
    footer_words(l, compact, l.flags(compact));
    counts_fit(l);
    f.sections_in_order();
    bytes::section_u64(raw, at, foot, 0);
    bytes::section_u32(raw, at, foot, 8);
    bytes::section_u32(raw, at, foot, 12);
    bytes::section_u32(raw, at, foot, 16);
    bytes::section_u32(raw, at, foot, 20);
    bytes::section_u64(raw, at, foot, 24);
    bytes::section_u32(raw, at, foot, 32);
    bytes::section_u32(raw, at, foot, 36);
    bytes::section_u32(raw, at, foot, 40);
    assert(footer::is_extended(raw));
    flag_bits(
        list_write::one_if(l.cursors is Some),
        list_write::one_if(l.len_bounds),
        list_write::one_if(l.l1_bounds@.len() > 0),
        list_write::one_if(l.ratios is Some),
        list_write::one_if(l.impacts is Some),
        list_write::one_if(l.has_group_impacts()),
        list_write::one_if(compact),
        list_write::one_if(l.stores_short(compact)),
        l.flags(compact) as int,
    );
    assert(footer::read_footer(raw) == f);
    if l.impacts is Some {
        impacts::table_roundtrip(l.impacts->Some_0@);
    }
    assert(footer::sections_match(f, at));
}

/// Directory words of block `i` of a stored list.
proof fn entry_reads(l: BlockPostingList, compact: bool, i: int)
    requires
        storable(l, compact),
        0 <= i < l.len(),
    ensures
        ({
            let raw = l.stored(compact);
            let f = written_footer(l, compact);
            let b = l.blocks@[i];
            &&& list_read::first_at(raw, f, i) == b.first
            &&& list_read::last_at(raw, f, i) == b.last
            &&& list_read::start_at(raw, f, i) == list::stream_upto(l.blocks@, i, compact)
            &&& bytes::u32_at(raw, f.stream_len + 16 * i + 12) == b.bounds
        }),
{
    let raw = l.stored(compact);
    let f = written_footer(l, compact);
    let dir = bytes::joined(list_write::entry_parts(l.blocks@, compact));
    directory_reads(l, compact);
    entry_words(l.blocks@, compact, i);
    let s = f.stream_len as int;
    bytes::section_u32(raw, s, dir, 16 * i);
    bytes::section_u32(raw, s, dir, 16 * i + 4);
    bytes::section_u32(raw, s, dir, 16 * i + 8);
    bytes::section_u32(raw, s, dir, 16 * i + 12);
}

/// The directory of a stored list follows the stream.
proof fn directory_reads(l: BlockPostingList, compact: bool)
    requires
        storable(l, compact),
    ensures
        ({
            let raw = l.stored(compact);
            let dir = bytes::joined(list_write::entry_parts(l.blocks@, compact));
            let s = written_footer(l, compact).stream_len as int;
            &&& s + dir.len() <= raw.len()
            &&& dir.len() == 16 * l.len()
            &&& raw.subrange(s, s + dir.len()) == dir
        }),
{
    sections_hold(l, compact);
    section_lens(l, compact);
    reveal(sections_at);
    written_footer(l, compact).sections_in_order();
}

/// The words of directory entry `i`.
#[verifier::spinoff_prover]
proof fn entry_words(blocks: Seq<PostingBlock>, compact: bool, i: int)
    requires
        list::offsets_fit(blocks, compact),
        0 <= i < blocks.len(),
    ensures
        ({
            let dir = bytes::joined(list_write::entry_parts(blocks, compact));
            let b = blocks[i];
            &&& dir.len() == 16 * blocks.len()
            &&& bytes::u32_at(dir, 16 * i) == b.first
            &&& bytes::u32_at(dir, 16 * i + 4) == b.last
            &&& bytes::u32_at(dir, 16 * i + 8) == list::stream_upto(blocks, i, compact)
            &&& bytes::u32_at(dir, 16 * i + 12) == b.bounds
        }),
{
    broadcast use bytes::group_word_sizes;

    let b = blocks[i];
    let entries = list_write::entry_parts(blocks, compact);
    entry_lens(blocks, compact);
    bytes::joined_position(entries, i);
    bytes::joined_uniform(entries, 16, i);
    bytes::joined_uniform(entries, 16, i + 1);
    bytes::joined_uniform(entries, 16, blocks.len() as int);
    let dir = bytes::joined(entries);
    let e = list_write::entry_bytes(blocks, i, compact);
    assert(entries[i] == e);
    assert(dir.subrange(16 * i, 16 * i + 16) == e);
    assert(list::stream_upto(blocks, i, compact) <= u32::MAX);
    list::stream_grows(blocks, 0, i, compact);
    assert(e.subrange(0, 4) =~= bytes::le32(b.first));
    assert(e.subrange(4, 8) =~= bytes::le32(b.last));
    assert(e.subrange(8, 12) =~= bytes::le32(list::stream_upto(blocks, i, compact) as u32));
    assert(e.subrange(12, 16) =~= bytes::le32(b.bounds));
    word_read(e, 0, b.first);
    word_read(e, 4, b.last);
    word_read(e, 8, list::stream_upto(blocks, i, compact) as u32);
    word_read(e, 12, b.bounds);
    bytes::section_u32(dir, 16 * i, e, 0);
    bytes::section_u32(dir, 16 * i, e, 4);
    bytes::section_u32(dir, 16 * i, e, 8);
    bytes::section_u32(dir, 16 * i, e, 12);
}

/// A part of a prefix is a part of the whole.
proof fn prefix_part(raw: Seq<u8>, all: Seq<u8>, from: int, to: int)
    requires
        all.len() <= raw.len(),
        raw.subrange(0, all.len() as int) == all,
        0 <= from <= to <= all.len(),
    ensures
        raw.subrange(from, to) == all.subrange(from, to),
{
    assert(raw.subrange(from, to) =~= raw.subrange(0, all.len() as int).subrange(from, to));
}

/// The stream parts of a list, where they lie.
proof fn stream_part(blocks: Seq<PostingBlock>, compact: bool, i: int)
    requires
        0 <= i < blocks.len(),
    ensures
        ({
            let all = bytes::joined(list_write::stream_parts(blocks, compact));
            let from = list::stream_upto(blocks, i, compact);
            let to = list::stream_upto(blocks, i + 1, compact);
            &&& 0 <= from <= to <= all.len()
            &&& all.len() == list::stream_upto(blocks, blocks.len() as int, compact)
            &&& all.subrange(from, to) == list_write::stream_parts(blocks, compact)[i]
        }),
{
    let stream = list_write::stream_parts(blocks, compact);
    list::stream_grows(blocks, i, i + 1, compact);
    list::stream_grows(blocks, i + 1, blocks.len() as int, compact);
    stream_lens(blocks, compact, i);
    stream_lens(blocks, compact, i + 1);
    stream_lens(blocks, compact, blocks.len() as int);
    bytes::joined_position(stream, i);
}

/// The stream part of block `i` of a stored list.
#[verifier::spinoff_prover]
proof fn block_reads(l: BlockPostingList, compact: bool, i: int)
    requires
        storable(l, compact),
        0 <= i < l.len(),
    ensures
        ({
            let raw = l.stored(compact);
            let f = written_footer(l, compact);
            let b = l.blocks@[i];
            &&& list_read::end_at(raw, f, i) == list::stream_upto(l.blocks@, i + 1, compact)
            &&& list_read::end_at(raw, f, i) <= f.stream_len
            &&& list_read::stored_block(raw, f, i) == (if compact {
                b.payload@
            } else {
                b.framed()
            })
            &&& compact ==> list_read::descriptor_at(raw, f, i) == b.descriptor()
        }),
{
    let raw = l.stored(compact);
    let f = written_footer(l, compact);
    let blocks = l.blocks@;
    let all = bytes::joined(list_write::stream_parts(blocks, compact));
    let from = list::stream_upto(blocks, i, compact);
    let to = list::stream_upto(blocks, i + 1, compact);
    stream_part(blocks, compact, i);
    stream_reads(l, compact);
    counts_fit(l);
    list::stream_grows(blocks, 0, i, compact);
    prefix_part(raw, all, from, to);
    entry_reads(l, compact, i);
    if i + 1 < l.len() {
        entry_reads(l, compact, i + 1);
    }
    if compact {
        descriptor_reads(l, i);
    }
}

/// The stream of a stored list comes first.
proof fn stream_reads(l: BlockPostingList, compact: bool)
    requires
        storable(l, compact),
    ensures
        ({
            let raw = l.stored(compact);
            let all = bytes::joined(list_write::stream_parts(l.blocks@, compact));
            &&& all.len() <= raw.len()
            &&& raw.subrange(0, all.len() as int) == all
            &&& written_footer(l, compact).stream_len == list::stream_upto(
                l.blocks@,
                l.len(),
                compact,
            )
            &&& all.len() == written_footer(l, compact).stream_len
        }),
{
    sections_hold(l, compact);
    section_lens(l, compact);
    reveal(sections_at);
    written_footer(l, compact).sections_in_order();
}

/// The descriptor of block `i` of a stored list.
#[verifier::spinoff_prover]
proof fn descriptor_reads(l: BlockPostingList, i: int)
    requires
        storable(l, true),
        0 <= i < l.len(),
    ensures
        list_read::descriptor_at(l.stored(true), written_footer(l, true), i)
            == l.blocks@[i].descriptor(),
{
    sections_hold(l, true);
    section_lens(l, true);
    reveal(sections_at);
    let raw = l.stored(true);
    let f = written_footer(l, true);
    f.sections_in_order();
    let parts = list_write::descriptor_parts(l.blocks@, true);
    descriptor_lens(l.blocks@, true);
    bytes::joined_position(parts, i);
    bytes::joined_uniform(parts, 4, i);
    bytes::joined_uniform(parts, 4, i + 1);
    let d = bytes::joined(parts);
    let at = f.l0_end_spec();
    assert(raw.subrange(at, f.l1_start_spec()) == d);
    assert(raw.subrange(at + 4 * i, at + 4 * i + 4) =~= d.subrange(4 * i, 4 * i + 4));
}

/// The position cursor of block `i` of a stored list.
proof fn cursor_reads(l: BlockPostingList, compact: bool, i: int)
    requires
        storable(l, compact),
        0 <= i < l.len(),
        l.cursors is Some,
    ensures
        list_read::cursor_at(l.stored(compact), written_footer(l, compact), i)
            == l.cursors->Some_0@[i],
{
    sections_hold(l, compact);
    section_lens(l, compact);
    reveal(sections_at);
    let raw = l.stored(compact);
    let f = written_footer(l, compact);
    f.sections_in_order();
    let c = l.cursors->Some_0@;
    let short = l.stores_short(compact);
    let parts = list_write::cursor_parts(l.cursors, short);
    cursor_lens(l.cursors, short);
    let size: int = if short {
        4
    } else {
        8
    };
    bytes::joined_position(parts, i);
    bytes::joined_uniform(parts, size, i);
    bytes::joined_uniform(parts, size, i + 1);
    let d = bytes::joined(parts);
    let at = f.l1_bounds_end_spec();
    assert(c[i] <= l.total_positions);
    if short {
        assert(d.subrange(4 * i, 4 * i + 4) == parts[i]);
        word_read(d, 4 * i, c[i] as u32);
        bytes::section_u32(raw, at, d, 4 * i);
    } else {
        assert(d.subrange(8 * i, 8 * i + 8) == parts[i]);
        long_read(d, 8 * i, c[i]);
        bytes::section_u64(raw, at, d, 8 * i);
    }
}

/// Group word `g` of a stored list.
proof fn group_reads(l: BlockPostingList, compact: bool, g: int)
    requires
        storable(l, compact),
        0 <= g < l.groups(),
    ensures
        bytes::u32_at(
            l.stored(compact),
            written_footer(l, compact).l1_start_spec() + 4 * g,
        ) == l.l1_docs@[g],
{
    sections_hold(l, compact);
    reveal(sections_at);
    let f = written_footer(l, compact);
    f.sections_in_order();
    counts_fit(l);
    bytes::le32_all_index(l.l1_docs@, g);
    bytes::section_u32(l.stored(compact), f.l1_start_spec(), bytes::le32_all(l.l1_docs@), 4 * g);
}

/// Every block of a stored list passes its checks.
proof fn block_checks(l: BlockPostingList, compact: bool, i: int)
    requires
        storable(l, compact),
        0 <= i < l.len(),
    ensures
        list_read::block_check(l.stored(compact), written_footer(l, compact), i) == Ok::<
            int,
            PostingError,
        >(l.blocks@[i].count as int),
{
    let raw = l.stored(compact);
    let f = written_footer(l, compact);
    let blocks = l.blocks@;
    let b = blocks[i];
    counts_fit(l);
    entry_reads(l, compact, i);
    block_reads(l, compact, i);
    assert(b.wf());
    if i > 0 {
        entry_reads(l, compact, i - 1);
        assert(blocks[i - 1].last < blocks[i].first);
    }
    list::stream_grows(blocks, 0, i, compact);
    list::stream_grows(blocks, i, i + 1, compact);
    assert(!list_read::bad_entry(raw, f, i));
    if compact {
        assert(b.codec() != codec::PostingCodec::Pfor);
        block::descriptor_checks(b);
    } else {
        assert(b.first_gap_is_zero());
        block::framed_block_checks(b);
    }
    if (i + 1) % 8 == 0 || i + 1 == l.len() {
        group_reads(l, compact, i / 8);
        assert(bounds::group_end(l.len(), i / 8) == i + 1);
    }
    assert(!list_read::bad_group(raw, f, i));
    if l.cursors is Some {
        let c = l.cursors->Some_0@;
        cursor_reads(l, compact, i);
        if i > 0 {
            cursor_reads(l, compact, i - 1);
            assert(c[i - 1] <= c[i]);
        }
        assert(c[i] <= l.total_positions);
    }
    assert(!list_read::bad_cursor(raw, f, i));
}

proof fn all_blocks_check(l: BlockPostingList, compact: bool, n: int)
    requires
        storable(l, compact),
        0 <= n <= l.len(),
    ensures
        list_read::blocks_check(l.stored(compact), written_footer(l, compact), n) == Ok::<
            int,
            PostingError,
        >(list::total_count(l.blocks@, n)),
    decreases n,
{
    if n > 0 {
        all_blocks_check(l, compact, n - 1);
        block_checks(l, compact, n - 1);
    }
}

/// A stored list is accepted by the reader.
pub proof fn stored_is_accepted(l: BlockPostingList, compact: bool)
    requires
        storable(l, compact),
    ensures
        list_read::bytes_check(l.stored(compact)) == Ok::<Footer, PostingError>(
            written_footer(l, compact),
        ),
{
    let raw = l.stored(compact);
    let f = written_footer(l, compact);
    footer_parses(l, compact);
    all_blocks_check(l, compact, l.len());
    counts_fit(l);
    sections_hold(l, compact);
    reveal(sections_at);
    f.sections_in_order();
    assert(!list_read::bad_counts(f)) by {
        if !compact && l.len() > 0 {
            list::stream_grows(l.blocks@, 0, l.len(), compact);
        }
    }
    if l.ratios is Some {
        let r = l.ratios->Some_0@;
        bytes::le32_all_len(r);
        assert forall|i: int| 0 <= i < f.l0_count + f.l1_count implies ratio::ratio_ok(
            #[trigger] list_read::ratio_at(raw, f, i),
        ) by {
            bytes::le32_all_index(r, i);
            bytes::section_u32(raw, f.cursors_end_spec(), bytes::le32_all(r), 4 * i);
            assert(ratio::ratio_ok(r[i]));
        }
    }
    if l.impacts is Some {
        impacts::table_roundtrip(l.impacts->Some_0@);
    }
}

/// What is read from a stored list is the list that was stored.
pub proof fn store_read_roundtrip(l: BlockPostingList, compact: bool, r: BlockPostingList)
    requires
        storable(l, compact),
        list_read::is_read(r, l.stored(compact), written_footer(l, compact)),
        r.wf(),
    ensures
        list_read::bytes_check(l.stored(compact)) is Ok,
        same_list(l, r),
        r.compact_headers == compact,
        r@ == l@,
        l.sound() ==> r.sound(),
{
    broadcast use bytes::group_word_sizes;

    stored_is_accepted(l, compact);
    let raw = l.stored(compact);
    let f = written_footer(l, compact);
    sections_hold(l, compact);
    reveal(sections_at);
    f.sections_in_order();
    counts_fit(l);
    assert forall|i: int| 0 <= i < l.len() implies same_block(#[trigger] l.blocks@[i], r.blocks@[i]) by {
        entry_reads(l, compact, i);
        block_reads(l, compact, i);
        assert(list_read::is_block_at(r.blocks@[i], raw, f, i));
        let b = l.blocks@[i];
        bytes::le16_roundtrip(b.count);
        if compact {
            let d = b.descriptor();
            assert(bytes::u16_at(d, 0) == b.count);
        } else {
            assert(b.wf() && b.first_gap_is_zero());
            block::framed_block_checks(b);
            let s = b.framed();
            assert(bytes::u16_at(s, 0) == b.count);
            assert(s[6] == b.doc_bits && s[7] == b.tf_bits);
        }
    }
    words_injective(l.l1_docs@, r.l1_docs@);
    words_injective(l.l1_bounds@, r.l1_bounds@);
    if l.ratios is Some {
        words_injective(l.ratios->Some_0@, r.ratios->Some_0@);
    }
    if l.cursors is Some {
        let c = l.cursors->Some_0@;
        let d = r.cursors->Some_0@;
        assert forall|i: int| 0 <= i < c.len() implies c[i] == d[i] by {
            cursor_reads(l, compact, i);
            assert(d[i] == list_read::cursor_at(raw, f, i));
        }
        assert(c =~= d);
    }
    if l.impacts is Some {
        tables_injective(l.impacts->Some_0@, r.impacts->Some_0@);
    }
    same_postings(l.blocks@, r.blocks@, l.len());
    if l.sound() {
        assert forall|i: int| 0 <= i < r.blocks@.len() implies (#[trigger] r.blocks@[i]).sound() by {
            assert(l.blocks@[i].sound());
        }
    }
}

proof fn words_injective(a: Seq<u32>, b: Seq<u32>)
    requires
        bytes::le32_all(a) == bytes::le32_all(b),
    ensures
        a == b,
{
    bytes::le32_all_len(a);
    bytes::le32_all_len(b);
    assert forall|i: int| 0 <= i < a.len() implies a[i] == b[i] by {
        bytes::le32_all_index(a, i);
        bytes::le32_all_index(b, i);
    }
    assert(a =~= b);
}

proof fn tables_injective(a: Seq<Seq<u8>>, b: Seq<Seq<u8>>)
    requires
        a.len() == b.len(),
        impacts::table_ok(a),
        impacts::table_ok(b),
        4 * (a.len() + 1) <= usize::MAX,
        impacts::table_bytes(a) == impacts::table_bytes(b),
    ensures
        a == b,
{
    impacts::table_records(a, b);
    assert(a =~= b);
}

/// Blocks with the same parts hold the same postings.
pub proof fn same_postings(a: Seq<PostingBlock>, b: Seq<PostingBlock>, n: int)
    requires
        0 <= n <= a.len(),
        n <= b.len(),
        forall|i: int| 0 <= i < n ==> same_block(#[trigger] a[i], b[i]),
    ensures
        list::flat(a, n) == list::flat(b, n),
        list::total_count(a, n) == list::total_count(b, n),
        forall|i: int| 0 <= i < n ==> (#[trigger] a[i]).wf() == b[i].wf(),
        forall|i: int| 0 <= i < n ==> (#[trigger] a[i]).sound() == b[i].sound(),
    decreases n,
{
    if n > 0 {
        same_postings(a, b, n - 1);
        same_docs(a[n - 1], b[n - 1]);
        assert(list::block_postings(a[n - 1]) =~= list::block_postings(b[n - 1]));
    }
}

/// Blocks with the same parts decode to the same documents.
pub proof fn same_docs(a: PostingBlock, b: PostingBlock)
    requires
        same_block(a, b),
    ensures
        a.docs() == b.docs(),
        a.tfs() == b.tfs(),
        a.wf() == b.wf(),
        a.sound() == b.sound(),
        a.first_gap_is_zero() == b.first_gap_is_zero(),
        a.codec() == b.codec(),
        list::block_postings(a) == list::block_postings(b),
{
    assert(a.gap_values() == b.gap_values());
    assert forall|i: int| #[trigger] a.doc_sum(i) == b.doc_sum(i) by {
        same_sum(a, b, i);
    }
    assert(a.docs() =~= b.docs());
    assert(list::block_postings(a) =~= list::block_postings(b));
}

proof fn same_sum(a: PostingBlock, b: PostingBlock, i: int)
    requires
        same_block(a, b),
    ensures
        a.doc_sum(i) == b.doc_sum(i),
    decreases i,
{
    if i > 0 {
        same_sum(a, b, i - 1);
        assert(a.gap_values() == b.gap_values());
    }
}

/// The footer of a list that was written block by block.
pub open spec fn streamed_footer(l: BlockPostingList, compact: bool) -> Footer {
    Footer { l1_bounds: true, ..written_footer(l, compact) }
}

/// A list that was written block by block has the sections of the stored
/// list before its own footer.
pub proof fn streamed_sections(l: BlockPostingList, compact: bool)
    requires
        l.wf(),
    ensures
        ({
            let raw = l.streamed(compact);
            let at = l.stored(compact).len() - 44;
            &&& raw.len() == at + 44
            &&& at >= 0
            &&& raw.subrange(0, at) == l.stored(compact).subrange(0, at)
            &&& raw.subrange(at, at + 44) == l.footer_with(compact, l.streamed_flags(compact))
        }),
{
    reveal(BlockPostingList::stored);
    reveal(BlockPostingList::streamed);
    footer_words(l, compact, l.flags(compact));
    footer_words(l, compact, l.streamed_flags(compact));
    let p = l.stored_parts(compact);
    let q = p.update(8, l.footer_with(compact, l.streamed_flags(compact)));
    assert(p.drop_last() =~= q.drop_last());
    let head = bytes::joined(p.drop_last());
    let at = head.len() as int;
    assert(l.stored(compact) == head + p[8]);
    assert(l.streamed(compact) == head + q[8]);
    assert(l.streamed(compact).subrange(0, at) =~= l.stored(compact).subrange(0, at));
    assert(l.streamed(compact).subrange(at, at + 44) =~= q[8]);
}

/// A list with bounds of groups is the same bytes however it is written.
pub proof fn streamed_is_stored(l: BlockPostingList, compact: bool)
    requires
        l.l1_bounds@.len() > 0,
    ensures
        l.streamed(compact) == l.stored(compact),
{
    reveal(BlockPostingList::stored);
    reveal(BlockPostingList::streamed);
    assert(l.stored_parts(compact).update(8, l.footer_bytes(compact)) =~= l.stored_parts(
        compact,
    ));
}

/// A list that was written block by block is accepted where it is read.
pub proof fn streamed_is_accepted(l: BlockPostingList, compact: bool)
    requires
        storable(l, compact),
        l.len() > 0 ==> l.l1_bounds@.len() > 0,
    ensures
        list_read::bytes_check(l.streamed(compact)) == Ok::<Footer, PostingError>(
            streamed_footer(l, compact),
        ),
{
    stored_is_accepted(l, compact);
    if l.l1_bounds@.len() > 0 {
        streamed_is_stored(l, compact);
    } else {
        let raw = l.streamed(compact);
        let f = streamed_footer(l, compact);
        let g = written_footer(l, compact);
        let at = raw.len() - 44;
        let flags = l.streamed_flags(compact);
        let foot = l.footer_with(compact, flags);
        streamed_sections(l, compact);
        sections_hold(l, compact);
        reveal(sections_at);
        reveal(footer::parse_tail_spec);
        footer_words(l, compact, flags);
        counts_fit(l);
        f.sections_in_order();
        g.sections_in_order();
        bytes::section_u64(raw, at, foot, 0);
        bytes::section_u32(raw, at, foot, 8);
        bytes::section_u32(raw, at, foot, 12);
        bytes::section_u32(raw, at, foot, 16);
        bytes::section_u32(raw, at, foot, 20);
        bytes::section_u64(raw, at, foot, 24);
        bytes::section_u32(raw, at, foot, 32);
        bytes::section_u32(raw, at, foot, 36);
        bytes::section_u32(raw, at, foot, 40);
        flag_bits(
            list_write::one_if(l.cursors is Some),
            list_write::one_if(l.len_bounds),
            1,
            list_write::one_if(l.ratios is Some),
            list_write::one_if(l.impacts is Some),
            list_write::one_if(l.has_group_impacts()),
            list_write::one_if(compact),
            list_write::one_if(l.stores_short(compact)),
            flags as int,
        );
        assert(footer::is_extended(raw));
        assert(footer::read_footer(raw) == f);
        if l.impacts is Some {
            impacts::table_roundtrip(l.impacts->Some_0@);
        }
        assert(footer::sections_match(f, at));
        assert(list_read::impact_section(raw, f) =~= raw.subrange(0, at).subrange(
            f.ratios_end_spec(),
            at,
        ));
        assert(list_read::impact_section(l.stored(compact), g) =~= l.stored(compact).subrange(
            0,
            at,
        ).subrange(g.ratios_end_spec(), at));
    }
}

/// What is read from a list that was written block by block is that list.
pub proof fn streamed_read_roundtrip(l: BlockPostingList, compact: bool, r: BlockPostingList)
    requires
        storable(l, compact),
        l.len() > 0 ==> l.l1_bounds@.len() > 0,
        list_read::is_read(r, l.streamed(compact), streamed_footer(l, compact)),
        r.wf(),
    ensures
        list_read::bytes_check(l.streamed(compact)) is Ok,
        same_list(l, r),
        r.compact_headers == compact,
        r@ == l@,
        l.sound() ==> r.sound(),
{
    streamed_is_accepted(l, compact);
    if l.l1_bounds@.len() > 0 {
        streamed_is_stored(l, compact);
    } else {
        let raw = l.streamed(compact);
        let kept = l.stored(compact);
        let f = streamed_footer(l, compact);
        let g = written_footer(l, compact);
        let at = raw.len() - 44;
        streamed_sections(l, compact);
        sections_hold(l, compact);
        reveal(sections_at);
        counts_fit(l);
        f.sections_in_order();
        g.sections_in_order();
        assert(kept.subrange(g.l1_start_spec(), g.l1_end_spec()) =~= raw.subrange(
            f.l1_start_spec(),
            f.l1_end_spec(),
        ));
        assert(kept.subrange(g.l1_end_spec(), g.l1_bounds_end_spec()) =~= raw.subrange(
            f.l1_end_spec(),
            f.l1_bounds_end_spec(),
        ));
        assert(kept.subrange(g.cursors_end_spec(), g.ratios_end_spec()) =~= raw.subrange(
            f.cursors_end_spec(),
            f.ratios_end_spec(),
        ));
        assert(list_read::impact_section(raw, f) =~= raw.subrange(0, at).subrange(
            f.ratios_end_spec(),
            at,
        ));
        assert(list_read::impact_section(kept, g) =~= kept.subrange(0, at).subrange(
            g.ratios_end_spec(),
            at,
        ));
        assert(list_read::is_read(r, kept, g));
    }
    store_read_roundtrip(l, compact, r);
}

} // verus!
