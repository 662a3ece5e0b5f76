//! A sparse block with some documents dropped and the others renumbered.
use crate::bytes;
use crate::gaps;
use crate::sparse_block;
use crate::sparse_block::SparseBlock;
use crate::sparse_config::WeightQuantization;
use crate::sparse_weights;
use vstd::prelude::*;

verus! {

/// Whether a mapping gives each document its new number, or none.
pub open spec fn maps<F: Fn(u32) -> Option<u32>>(
    remap: F,
    docs: Seq<u32>,
    news: Seq<Option<u32>>,
) -> bool {
    &&& news.len() == docs.len()
    &&& forall|i: int| 0 <= i < docs.len() ==> remap.ensures((docs[i],), #[trigger] news[i])
}

/// Which of the first `n` documents have a new number.
pub open spec fn kept(news: Seq<Option<u32>>, n: int) -> Seq<int>
    decreases n,
{
    if n <= 0 {
        Seq::empty()
    } else if news[n - 1] is Some {
        kept(news, n - 1).push(n - 1)
    } else {
        kept(news, n - 1)
    }
}

/// The new numbers of the kept documents.
pub open spec fn new_docs(news: Seq<Option<u32>>) -> Seq<u32> {
    let k = kept(news, news.len() as int);
    Seq::new(k.len(), |j: int| news[k[j]]->Some_0)
}

/// The kept rows under their new numbers, without weights.
pub open spec fn new_rows(block: &SparseBlock, news: Seq<Option<u32>>) -> Seq<(u32, u16, u32)> {
    let k = kept(news, news.len() as int);
    Seq::new(k.len(), |j: int| (news[k[j]]->Some_0, block.ordinals()[k[j]], 0u32))
}

/// Whether `out` is `block` with only the documents kept that have a new
/// number. Documents and ordinals are encoded anew. Weights keep their codes,
/// scale and offset, and the block its largest weight.
pub open spec fn is_remapped(
    out: &SparseBlock,
    block: &SparseBlock,
    news: Seq<Option<u32>>,
) -> bool {
    let k = kept(news, news.len() as int);
    &&& sparse_block::addresses(out, new_rows(block, news))
    &&& out.header.weight_quant == block.header.weight_quant
    &&& out.header.max_weight == block.header.max_weight
    &&& out.weights() == Seq::new(k.len(), |j: int| block.weights()[k[j]])
    &&& out.weights_data@.len() == sparse_weights::weight_bytes(
        block.header.weight_quant,
        k.len() as int,
    )
    &&& block.header.weight_quant == WeightQuantization::UInt4 && k.len() % 2 == 1
        ==> out.weights_data@.last() < 16
    &&& gaps::ascending(new_docs(news)) ==> {
        &&& out.wf()
        &&& out.docs() == new_docs(news)
        &&& out.ordinals() == Seq::new(k.len(), |j: int| block.ordinals()[k[j]])
    }
}

/// Whether encoded weights are those of a selection of others.
spec fn selected(
    quant: WeightQuantization,
    source: Seq<u8>,
    keep: Seq<usize>,
    out: Seq<u8>,
    n: int,
) -> bool {
    &&& out.len() == sparse_weights::weight_bytes(quant, n)
    &&& quant == WeightQuantization::UInt4 && n % 2 == 1 ==> out.last() < 16
    &&& forall|j: int|
        0 <= j < n ==> #[trigger] sparse_weights::weight_at(quant, out, j)
            == sparse_weights::weight_at(quant, source, keep[j] as int)
}

fn select_words(source: &[u8], keep: &[usize]) -> (out: Vec<u8>)
    requires
        forall|j: int| 0 <= j < keep@.len() ==> 4 * #[trigger] keep@[j] + 4 <= source.len(),
    ensures
        selected(WeightQuantization::Float32, source@, keep@, out@, keep@.len() as int),
{
    broadcast use bytes::group_word_sizes;

    let mut words: Vec<u32> = Vec::new();
    let mut out: Vec<u8> = Vec::new();
    let mut i: usize = 0;
    while i < keep.len()
        invariant
            i <= keep@.len(),
            forall|j: int| 0 <= j < keep@.len() ==> 4 * #[trigger] keep@[j] + 4 <= source.len(),
            words@.len() == i,
            forall|j: int|
                0 <= j < i ==> #[trigger] words@[j] == bytes::u32_at(source@, 4 * keep@[j]),
        decreases keep@.len() - i,
    {
        words.push(bytes::get_u32(source, 4 * keep[i]));
        i = i + 1;
    }
    bytes::put_u32_all(&mut out, words.as_slice());
    proof {
        assert(out@ =~= bytes::le32_all(words@));
        bytes::le32_all_len(words@);
        assert forall|j: int| 0 <= j < keep@.len() implies #[trigger] sparse_weights::weight_at(
            WeightQuantization::Float32,
            out@,
            j,
        ) == sparse_weights::weight_at(
            WeightQuantization::Float32,
            source@,
            keep@[j] as int,
        ) by {
            bytes::le32_all_index(words@, j);
            assert(words@[j] == bytes::u32_at(source@, 4 * keep@[j]));
        }
    }
    out
}

fn select_halves(source: &[u8], keep: &[usize]) -> (out: Vec<u8>)
    requires
        forall|j: int| 0 <= j < keep@.len() ==> 2 * #[trigger] keep@[j] + 2 <= source.len(),
    ensures
        selected(WeightQuantization::Float16, source@, keep@, out@, keep@.len() as int),
{
    let mut out: Vec<u8> = Vec::new();
    let mut i: usize = 0;
    while i < keep.len()
        invariant
            i <= keep@.len(),
            forall|j: int| 0 <= j < keep@.len() ==> 2 * #[trigger] keep@[j] + 2 <= source.len(),
            out@.len() == 2 * i,
            forall|j: int|
                0 <= j < i ==> out@[2 * j] == source@[2 * #[trigger] keep@[j]] && out@[2 * j + 1]
                    == source@[2 * keep@[j] + 1],
        decreases keep@.len() - i,
    {
        let at: usize = 2 * keep[i];
        out.push(source[at]);
        out.push(source[at + 1]);
        i = i + 1;
    }
    proof {
        assert forall|j: int| 0 <= j < keep@.len() implies #[trigger] sparse_weights::weight_at(
            WeightQuantization::Float16,
            out@,
            j,
        ) == sparse_weights::weight_at(
            WeightQuantization::Float16,
            source@,
            keep@[j] as int,
        ) by {}
    }
    out
}

fn select_codes(source: &[u8], keep: &[usize]) -> (out: Vec<u8>)
    requires
        source.len() >= 8,
        forall|j: int| 0 <= j < keep@.len() ==> 8 + #[trigger] keep@[j] < source.len(),
    ensures
        selected(WeightQuantization::UInt8, source@, keep@, out@, keep@.len() as int),
{
    let mut out: Vec<u8> = bytes::copy_range(source, 0, 8);
    let mut i: usize = 0;
    while i < keep.len()
        invariant
            i <= keep@.len(),
            source.len() >= 8,
            forall|j: int| 0 <= j < keep@.len() ==> 8 + #[trigger] keep@[j] < source.len(),
            out@.len() == 8 + i,
            out@.subrange(0, 8) == source@.subrange(0, 8),
            forall|j: int| 0 <= j < i ==> out@[8 + j] == source@[8 + #[trigger] keep@[j]],
        decreases keep@.len() - i,
    {
        let ghost before = out@;
        out.push(source[8 + keep[i]]);
        proof {
            assert(out@.subrange(0, 8) =~= before.subrange(0, 8));
        }
        i = i + 1;
    }
    proof {
        same_head(source@, out@);
        assert forall|j: int| 0 <= j < keep@.len() implies #[trigger] sparse_weights::weight_at(
            WeightQuantization::UInt8,
            out@,
            j,
        ) == sparse_weights::weight_at(
            WeightQuantization::UInt8,
            source@,
            keep@[j] as int,
        ) by {
            assert(out@[8 + j] == source@[8 + keep@[j]]);
        }
    }
    out
}

proof fn same_head(a: Seq<u8>, b: Seq<u8>)
    requires
        a.len() >= 8,
        b.len() >= 8,
        b.subrange(0, 8) == a.subrange(0, 8),
    ensures
        bytes::u32_at(a, 0) == bytes::u32_at(b, 0),
        bytes::u32_at(a, 4) == bytes::u32_at(b, 4),
{
    let head = a.subrange(0, 8);
    bytes::section_u32(a, 0, head, 0);
    bytes::section_u32(a, 0, head, 4);
    bytes::section_u32(b, 0, head, 0);
    bytes::section_u32(b, 0, head, 4);
}

/// The code of four bits at a place.
spec fn nibble_at(data: Seq<u8>, i: int) -> u8 {
    if i % 2 == 0 {
        data[8 + i / 2] % 16
    } else {
        data[8 + i / 2] / 16
    }
}

fn select_pairs(source: &[u8], keep: &[usize]) -> (out: Vec<u8>)
    requires
        source.len() >= 8,
        forall|j: int| 0 <= j < keep@.len() ==> 8 + #[trigger] keep@[j] / 2 < source.len(),
    ensures
        selected(WeightQuantization::UInt4, source@, keep@, out@, keep@.len() as int),
{
    let mut out: Vec<u8> = bytes::copy_range(source, 0, 8);
    let mut i: usize = 0;
    while i < keep.len()
        invariant
            i <= keep@.len(),
            source.len() >= 8,
            forall|j: int| 0 <= j < keep@.len() ==> 8 + #[trigger] keep@[j] / 2 < source.len(),
            out@.len() == 8 + (i + 1) / 2,
            out@.subrange(0, 8) == source@.subrange(0, 8),
            i % 2 == 1 ==> out@.last() < 16,
            forall|j: int|
                0 <= j < i ==> nibble_at(out@, j) == nibble_at(
                    source@,
                    #[trigger] keep@[j] as int,
                ),
        decreases keep@.len() - i,
    {
        let old: usize = keep[i];
        let byte: u8 = source[8 + old / 2];
        let nibble: u8 = if old % 2 == 0 {
            byte % 16
        } else {
            byte / 16
        };
        let ghost before = out@;
        if i % 2 == 0 {
            out.push(nibble);
        } else {
            let last: usize = out.len() - 1;
            let low: u8 = out[last];
            out.set(last, low + 16 * nibble);
            proof {
                assert((low + 16 * nibble) % 16 == low);
                assert((low + 16 * nibble) / 16 == nibble);
            }
        }
        proof {
            assert(out@.subrange(0, 8) =~= before.subrange(0, 8));
            assert forall|j: int| 0 <= j < i + 1 implies nibble_at(out@, j) == nibble_at(
                source@,
                #[trigger] keep@[j] as int,
            ) by {
                if j < i {
                    assert(nibble_at(before, j) == nibble_at(source@, keep@[j] as int));
                }
            }
        }
        i = i + 1;
    }
    proof {
        same_head(source@, out@);
        assert forall|j: int| 0 <= j < keep@.len() implies #[trigger] sparse_weights::weight_at(
            WeightQuantization::UInt4,
            out@,
            j,
        ) == sparse_weights::weight_at(
            WeightQuantization::UInt4,
            source@,
            keep@[j] as int,
        ) by {
            assert(nibble_at(out@, j) == nibble_at(source@, keep@[j] as int));
        }
    }
    out
}

fn select_weights(quant: WeightQuantization, source: &[u8], keep: &[usize], n: usize) -> (out: Vec<
    u8,
>)
    requires
        n > 0,
        sparse_weights::weight_bytes(quant, n as int) <= source.len(),
        forall|j: int| 0 <= j < keep@.len() ==> #[trigger] keep@[j] < n,
    ensures
        selected(quant, source@, keep@, out@, keep@.len() as int),
{
    match quant {
        WeightQuantization::Float32 => select_words(source, keep),
        WeightQuantization::Float16 => select_halves(source, keep),
        WeightQuantization::UInt8 => select_codes(source, keep),
        WeightQuantization::UInt4 => select_pairs(source, keep),
    }
}

impl SparseBlock {
    /// Renumber the documents and drop those without a new number. Nothing
    /// if none is left.
    pub fn remap_documents<F: Fn(u32) -> Option<u32>>(&self, remap: &F) -> (r: Option<Self>)
        requires
            self.wf(),
            forall|doc: u32| #[trigger] remap.requires((doc,)),
        ensures
            exists|news: Seq<Option<u32>>| #[trigger]
                maps(*remap, self.docs(), news) && match r {
                    None => kept(news, news.len() as int).len() == 0,
                    Some(out) => kept(news, news.len() as int).len() > 0 && is_remapped(
                        &out,
                        self,
                        news,
                    ),
                },
    {
        let docs: Vec<u32> = self.decode_doc_ids();
        let ordinals: Vec<u16> = self.decode_ordinals();
        let n: usize = docs.len();
        let mut keep: Vec<usize> = Vec::new();
        let mut postings: Vec<(u32, u16, u32)> = Vec::new();
        let ghost mut news: Seq<Option<u32>> = Seq::empty();
        let mut i: usize = 0;
        while i < n
            invariant
                i <= n,
                n == docs@.len(),
                self.wf(),
                docs@ == self.docs(),
                ordinals@ == self.ordinals(),
                forall|doc: u32| #[trigger] remap.requires((doc,)),
                news.len() == i,
                forall|k: int| 0 <= k < i ==> remap.ensures((docs@[k],), #[trigger] news[k]),
                keep@.len() == kept(news, i as int).len(),
                keep@.len() <= i,
                postings@.len() == keep@.len(),
                forall|j: int| 0 <= j < keep@.len() ==> #[trigger] keep@[j] < i,
                forall|j: int|
                    0 <= j < keep@.len() ==> #[trigger] keep@[j] == kept(news, i as int)[j],
                forall|j: int|
                    0 <= j < keep@.len() ==> news[#[trigger] keep@[j] as int] == Some(
                        postings@[j].0,
                    ) && postings@[j].1 == self.ordinals()[keep@[j] as int] && postings@[j].2 == 0,
            decreases n - i,
        {
            let new: Option<u32> = remap(docs[i]);
            let ghost before = news;
            proof {
                news = news.push(new);
                kept_prefix(before, new, i as int);
            }
            if let Some(doc) = new {
                keep.push(i);
                postings.push((doc, ordinals[i], 0));
            }
            i = i + 1;
        }
        proof {
            assert(maps(*remap, self.docs(), news));
            assert(self.docs().len() == self.count());
        }
        if keep.len() == 0 {
            return None;
        }
        proof {
            assert(self.weights_data.len() == self.weights_data@.len());
        }
        let weights_data: Vec<u8> = select_weights(
            self.header.weight_quant,
            self.weights_data.as_slice(),
            keep.as_slice(),
            n,
        );
        let ghost chosen = weights_data@;
        let out = SparseBlock::assemble(
            postings.as_slice(),
            self.header.weight_quant,
            self.header.max_weight,
            weights_data,
        );
        proof {
            remap_reads(self, &out, postings@, keep@, news, chosen);
        }
        Some(out)
    }
}

proof fn kept_prefix(news: Seq<Option<u32>>, new: Option<u32>, n: int)
    requires
        0 <= n <= news.len(),
    ensures
        kept(news.push(new), n) == kept(news, n),
    decreases n,
{
    if n > 0 {
        kept_prefix(news, new, n - 1);
    }
}

proof fn remap_reads(
    block: &SparseBlock,
    out: &SparseBlock,
    postings: Seq<(u32, u16, u32)>,
    keep: Seq<usize>,
    news: Seq<Option<u32>>,
    chosen: Seq<u8>,
)
    requires
        block.wf(),
        news.len() == block.count(),
        keep.len() == kept(news, news.len() as int).len(),
        0 < keep.len() <= news.len(),
        postings.len() == keep.len(),
        forall|j: int|
            0 <= j < keep.len() ==> #[trigger] keep[j] == kept(news, news.len() as int)[j],
        forall|j: int| 0 <= j < keep.len() ==> #[trigger] keep[j] < news.len(),
        forall|j: int|
            0 <= j < keep.len() ==> news[#[trigger] keep[j] as int] == Some(postings[j].0)
                && postings[j].1 == block.ordinals()[keep[j] as int] && postings[j].2 == 0,
        sparse_block::addresses(out, postings),
        out.header.weight_quant == block.header.weight_quant,
        out.header.max_weight == block.header.max_weight,
        out.weights_data@ == chosen,
        selected(
            block.header.weight_quant,
            block.weights_data@,
            keep,
            chosen,
            keep.len() as int,
        ),
    ensures
        is_remapped(out, block, news),
{
    let k = kept(news, news.len() as int);
    let quant = block.header.weight_quant;
    assert(sparse_block::row_docs(postings) =~= new_docs(news)) by {
        assert forall|j: int| 0 <= j < keep.len() implies postings[j].0 == new_docs(news)[j] by {
            assert(news[keep[j] as int] == Some(postings[j].0));
        }
    }
    assert(postings =~= new_rows(block, news)) by {
        assert forall|j: int| 0 <= j < keep.len() implies postings[j] == new_rows(
            block,
            news,
        )[j] by {
            assert(keep[j] == k[j]);
            assert(news[keep[j] as int] == Some(postings[j].0));
        }
    }
    assert forall|j: int| 0 <= j < k.len() implies #[trigger] out.weights()[j]
        == block.weights()[k[j]] by {
        assert(keep[j] == k[j]);
        assert(sparse_weights::weight_at(quant, chosen, j) == sparse_weights::weight_at(
            quant,
            block.weights_data@,
            keep[j] as int,
        ));
    }
    assert(out.weights() =~= Seq::new(k.len(), |j: int| block.weights()[k[j]]));
    if gaps::ascending(new_docs(news)) {
        sparse_block::addresses_read(out, postings);
        assert forall|j: int| 0 <= j < k.len() implies #[trigger] out.ordinals()[j]
            == block.ordinals()[k[j]] by {
            assert(keep[j] == k[j]);
        }
        assert(out.ordinals() =~= Seq::new(k.len(), |j: int| block.ordinals()[k[j]]));
    }
}

} // verus!
