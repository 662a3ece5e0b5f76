//! A stored list with its footer, from which a list is made only when it is
//! used; and the first block that turned out corrupt.
use crate::bytes;
use crate::error::PostingError;
use crate::footer;
use crate::footer::Footer;
use crate::list_read;
use crate::query_list::QueryPostingList;
use vstd::prelude::*;

verus! {

/// Why a list cannot be opened or is not to be trusted.
#[derive(Debug, Clone, Copy, PartialEq, Eq, Structural)]
pub enum ReaderError {
    /// A range that leaves the file.
    Range,
    /// A read that came back with another length than asked for.
    ShortRead,
    /// No position file.
    NoPositions,
    /// A footer that is refused.
    Footer(PostingError),
    /// A block that turned out corrupt.
    Corrupt(usize),
}

/// The first block that turned out corrupt.
#[derive(Debug, Clone, Copy, PartialEq, Eq, Structural)]
pub struct PostingIntegrity {
    pub first_error: Option<usize>,
}

impl Default for PostingIntegrity {
    fn default() -> (r: Self)
        ensures
            r.first_error is None,
    {
        PostingIntegrity { first_error: None }
    }
}

impl PostingIntegrity {
    /// Remember a corrupt block, if it is the first.
    pub fn record(&mut self, block: usize)
        ensures
            final(self).first_error == Some(
                match old(self).first_error {
                    Some(first) => first,
                    None => block,
                },
            ),
    {
        if self.first_error.is_none() {
            self.first_error = Some(block);
        }
    }

    /// Whether no block turned out corrupt.
    pub fn check_integrity(&self) -> (r: Result<(), ReaderError>)
        ensures
            r == (match self.first_error {
                Some(block) => Err(ReaderError::Corrupt(block)),
                None => Ok(()),
            }),
    {
        match self.first_error {
            Some(block) => Err(ReaderError::Corrupt(block)),
            None => Ok(()),
        }
    }
}

/// Whether a range lies in a file of `len` bytes.
pub fn check_range(len: u64, start: u64, end: u64) -> (r: Result<(), ReaderError>)
    ensures
        r == (if start <= end && end <= len {
            Ok(())
        } else {
            Err(ReaderError::Range)
        }),
{
    if start > end || end > len {
        return Err(ReaderError::Range);
    }
    Ok(())
}

/// Whether a read came back with what was asked for.
pub fn check_length(start: u64, end: u64, len: usize) -> (r: Result<(), ReaderError>)
    requires
        start <= end,
    ensures
        r == (if len == end - start {
            Ok(())
        } else {
            Err(ReaderError::ShortRead)
        }),
{
    if len as u64 != end - start {
        return Err(ReaderError::ShortRead);
    }
    Ok(())
}

/// A stored list with its footer.
#[derive(Debug)]
pub struct DeferredPosting {
    bytes: Vec<u8>,
    footer: Footer,
}

impl DeferredPosting {
    /// The stored list.
    pub closed spec fn raw(&self) -> Seq<u8> {
        self.bytes@
    }

    /// Its footer.
    pub closed spec fn tail(&self) -> Footer {
        self.footer
    }

    /// Whether the footer is that of the list.
    pub closed spec fn wf(&self) -> bool {
        footer::parse_tail_spec(self.bytes@, self.bytes@.len() as int) == Ok::<
            Footer,
            PostingError,
        >(self.footer)
    }

    /// Open the list that was read from a range.
    pub fn open(start: u64, end: u64, bytes: Vec<u8>) -> (r: Result<Self, ReaderError>)
        requires
            start <= end,
        ensures
            match r {
                Ok(d) => {
                    &&& bytes@.len() == end - start
                    &&& d.wf()
                    &&& d.raw() == bytes@
                    &&& footer::parse_tail_spec(bytes@, bytes@.len() as int) == Ok::<
                        Footer,
                        PostingError,
                    >(d.tail())
                },
                Err(e) => if bytes@.len() != end - start {
                    e == ReaderError::ShortRead
                } else {
                    footer::parse_tail_spec(bytes@, bytes@.len() as int) matches Err(refused) && e
                        == ReaderError::Footer(refused)
                },
            },
    {
        match check_length(start, end, bytes.len()) {
            Ok(_) => {},
            Err(e) => {
                return Err(e);
            },
        }
        match Footer::parse(bytes.as_slice()) {
            Ok(footer) => Ok(DeferredPosting { bytes, footer }),
            Err(refused) => Err(ReaderError::Footer(refused)),
        }
    }

    /// Number of postings.
    pub fn doc_count(&self) -> (r: u32)
        ensures
            r == self.tail().doc_count,
    {
        self.footer.doc_count
    }

    /// Number of blocks.
    pub fn num_blocks(&self) -> (r: usize)
        ensures
            r == self.tail().l0_count,
    {
        self.footer.l0_count
    }

    /// The first document, if there is one.
    pub fn first_doc(&self) -> (r: Option<u32>)
        requires
            self.wf(),
        ensures
            r == (if self.tail().l0_count == 0 {
                None
            } else {
                Some(list_read::first_at(self.raw(), self.tail(), 0))
            }),
    {
        if self.footer.l0_count == 0 {
            return None;
        }
        proof {
            list_read::parsed_extent(self.bytes@);
            self.footer.sections_in_order();
        }
        Some(bytes::get_u32(self.bytes.as_slice(), self.footer.stream_len))
    }

    /// The list, with what is inside its sections trusted.
    pub fn into_list(self) -> (r: QueryPostingList)
        requires
            self.wf(),
        ensures
            r.wf(),
            r.raw() == self.raw(),
            r.tail() == self.tail(),
            !r.verify_content,
    {
        QueryPostingList::new(self.bytes, self.footer)
    }
}

} // verus!
