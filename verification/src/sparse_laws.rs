//! A list built from postings holds those postings.
use crate::gaps;
use crate::sparse_block;
use crate::sparse_block::SparseBlock;
use crate::sparse_config::WeightQuantization;
use crate::sparse_list;
use crate::sparse_list::BlockSparsePostingList;
use crate::sparse_weights;
use crate::sparse_weights::QuantizedWeights;
use crate::sparse_weights::Weight;
use vstd::prelude::*;

verus! {

/// Whether a list holds postings: the documents and ordinals as they were,
/// and at full precision the weights.
pub open spec fn holds(
    list: &BlockSparsePostingList,
    rows: Seq<(u32, u16, u32)>,
    quant: WeightQuantization,
) -> bool {
    &&& list.wf()
    &&& list.ordered()
    &&& list.rows().len() == rows.len()
    &&& forall|i: int|
        0 <= i < rows.len() ==> {
            &&& (#[trigger] list.rows()[i]).0 == rows[i].0
            &&& list.rows()[i].1 == rows[i].1
            &&& quant is Float32 ==> list.rows()[i].2 == Weight::Single(rows[i].2)
        }
}

/// Whether block `k` starts at one cut and ends at the next.
spec fn cut_ok(cuts: Seq<int>, n: int, k: int) -> bool {
    0 <= cuts[k] < cuts[k + 1] <= n && cuts[k + 1] - cuts[k] <= 256
}

/// The postings between cuts `k` and `k + 1`.
spec fn cut_rows(rows: Seq<(u32, u16, u32)>, cuts: Seq<int>, k: int) -> Seq<(u32, u16, u32)> {
    rows.subrange(cuts[k], cuts[k + 1])
}

/// Postings in order that are encoded in blocks of one size are held by the
/// list.
pub proof fn built_list_holds<F: Fn(&[u32], WeightQuantization) -> QuantizedWeights>(
    list: &BlockSparsePostingList,
    rows: Seq<(u32, u16, u32)>,
    quant: WeightQuantization,
    size: int,
    quantize: F,
)
    requires
        gaps::ascending(sparse_block::row_docs(rows)),
        sparse_weights::quantizes(quantize),
        16 <= size <= 256,
        (list.blocks@.len() - 1) * size < rows.len() || list.blocks@.len() == 0,
        rows.len() <= list.blocks@.len() * size,
        forall|k: int|
            0 <= k < list.blocks@.len() ==> sparse_block::encodes(
                #[trigger] &list.blocks@[k],
                rows.subrange(k * size, sparse_list::chunk_end(size, rows.len() as int, k)),
                quant,
                quantize,
            ),
    ensures
        holds(list, rows, quant),
{
    let cuts = size_cuts(list, rows, quant, size, quantize);
    cut_list_holds(list, rows, quant, quantize, cuts);
}

/// Where blocks of one size are cut.
proof fn size_cuts<F: Fn(&[u32], WeightQuantization) -> QuantizedWeights>(
    list: &BlockSparsePostingList,
    rows: Seq<(u32, u16, u32)>,
    quant: WeightQuantization,
    size: int,
    quantize: F,
) -> (cuts: Seq<int>)
    requires
        16 <= size <= 256,
        (list.blocks@.len() - 1) * size < rows.len() || list.blocks@.len() == 0,
        rows.len() <= list.blocks@.len() * size,
        forall|k: int|
            0 <= k < list.blocks@.len() ==> sparse_block::encodes(
                #[trigger] &list.blocks@[k],
                rows.subrange(k * size, sparse_list::chunk_end(size, rows.len() as int, k)),
                quant,
                quantize,
            ),
    ensures
        cuts.len() == list.blocks@.len() + 1,
        cuts[0] == 0,
        cuts.last() == rows.len(),
        forall|k: int| 0 <= k < list.blocks@.len() ==> #[trigger] cuts[k] == k * size,
        forall|k: int|
            0 <= k < list.blocks@.len() ==> #[trigger] cut_ok(cuts, rows.len() as int, k)
                && sparse_block::encodes(
                &list.blocks@[k],
                cut_rows(rows, cuts, k),
                quant,
                quantize,
            ),
{
    let m = list.blocks@.len() as int;
    let n = rows.len() as int;
    let cuts = Seq::new(
        (m + 1) as nat,
        |k: int|
            if k * size < n {
                k * size
            } else {
                n
            },
    );
    assert(0 * size == 0) by (nonlinear_arith);
    assert forall|k: int| 0 <= k < m implies #[trigger] cut_ok(cuts, n, k)
        && sparse_block::encodes(&list.blocks@[k], cut_rows(rows, cuts, k), quant, quantize) by {
        assert(k * size <= (m - 1) * size) by (nonlinear_arith)
            requires
                k <= m - 1,
                size > 0,
        ;
        assert((k + 1) * size == k * size + size) by (nonlinear_arith);
        assert(0 <= k * size) by (nonlinear_arith)
            requires
                k >= 0,
                size > 0,
        ;
        assert(sparse_block::encodes(
            &list.blocks@[k],
            rows.subrange(k * size, sparse_list::chunk_end(size, n, k)),
            quant,
            quantize,
        ));
    }
    assert forall|k: int| 0 <= k < m implies #[trigger] cuts[k] == k * size by {
        assert(cut_ok(cuts, n, k));
        assert(k * size <= (m - 1) * size) by (nonlinear_arith)
            requires
                k <= m - 1,
                size > 0,
        ;
    }
    cuts
}

/// Postings in order that are encoded in blocks of given sizes, which
/// together take them all, are held by the list.
pub proof fn partitioned_list_holds<F: Fn(&[u32], WeightQuantization) -> QuantizedWeights>(
    list: &BlockSparsePostingList,
    rows: Seq<(u32, u16, u32)>,
    quant: WeightQuantization,
    partition: Seq<usize>,
    quantize: F,
)
    requires
        gaps::ascending(sparse_block::row_docs(rows)),
        sparse_weights::quantizes(quantize),
        rows.len() > 0,
        sparse_list::parts_ok(partition, rows.len() as int),
        sparse_list::part_start(partition, partition.len() as int) >= rows.len(),
        list.blocks@.len() == partition.len(),
        forall|k: int|
            0 <= k < list.blocks@.len() ==> sparse_block::encodes(
                #[trigger] &list.blocks@[k],
                rows.subrange(
                    sparse_list::part_start(partition, k),
                    sparse_list::part_end(partition, rows.len() as int, k),
                ),
                quant,
                quantize,
            ),
    ensures
        holds(list, rows, quant),
{
    let cuts = part_cuts(list, rows, quant, partition, quantize);
    cut_list_holds(list, rows, quant, quantize, cuts);
}

/// Where blocks of given sizes are cut.
proof fn part_cuts<F: Fn(&[u32], WeightQuantization) -> QuantizedWeights>(
    list: &BlockSparsePostingList,
    rows: Seq<(u32, u16, u32)>,
    quant: WeightQuantization,
    partition: Seq<usize>,
    quantize: F,
) -> (cuts: Seq<int>)
    requires
        rows.len() > 0,
        sparse_list::parts_ok(partition, rows.len() as int),
        sparse_list::part_start(partition, partition.len() as int) >= rows.len(),
        list.blocks@.len() == partition.len(),
        forall|k: int|
            0 <= k < list.blocks@.len() ==> sparse_block::encodes(
                #[trigger] &list.blocks@[k],
                rows.subrange(
                    sparse_list::part_start(partition, k),
                    sparse_list::part_end(partition, rows.len() as int, k),
                ),
                quant,
                quantize,
            ),
    ensures
        cuts.len() == list.blocks@.len() + 1,
        cuts[0] == 0,
        cuts.last() == rows.len(),
        forall|k: int|
            0 <= k < list.blocks@.len() ==> #[trigger] cuts[k] == sparse_list::part_start(
                partition,
                k,
            ),
        forall|k: int|
            0 <= k < list.blocks@.len() ==> #[trigger] cut_ok(cuts, rows.len() as int, k)
                && sparse_block::encodes(
                &list.blocks@[k],
                cut_rows(rows, cuts, k),
                quant,
                quantize,
            ),
{
    let m = list.blocks@.len() as int;
    let n = rows.len() as int;
    let cuts = Seq::new(
        (m + 1) as nat,
        |k: int|
            if sparse_list::part_start(partition, k) < n {
                sparse_list::part_start(partition, k)
            } else {
                n
            },
    );
    assert forall|k: int| 0 <= k < m implies #[trigger] cut_ok(cuts, n, k)
        && sparse_block::encodes(&list.blocks@[k], cut_rows(rows, cuts, k), quant, quantize) by {
        assert(sparse_list::part_start(partition, k) < n);
        assert(sparse_block::encodes(
            &list.blocks@[k],
            rows.subrange(
                sparse_list::part_start(partition, k),
                sparse_list::part_end(partition, n, k),
            ),
            quant,
            quantize,
        ));
    }
    cuts
}

/// The documents of the first `n` postings.
pub open spec fn distinct_docs(rows: Seq<(u32, u16, u32)>, n: int) -> Set<u32> {
    Set::new(|doc: u32| exists|i: int| 0 <= i < n && (#[trigger] rows[i]).0 == doc)
}

/// Of postings in order, the number of documents that a list counts is that
/// of different ones, however many ordinals each of them has.
pub proof fn doc_count_is_distinct(rows: Seq<(u32, u16, u32)>, n: int)
    requires
        gaps::ascending(sparse_block::row_docs(rows)),
        0 <= n <= rows.len(),
    ensures
        distinct_docs(rows, n).finite(),
        distinct_docs(rows, n).len() == sparse_list::doc_changes(rows, n),
    decreases n,
{
    if n == 0 {
        assert(distinct_docs(rows, 0) =~= Set::empty());
    } else {
        doc_count_is_distinct(rows, n - 1);
        let before = distinct_docs(rows, n - 1);
        let doc = rows[n - 1].0;
        assert(distinct_docs(rows, n) =~= before.insert(doc)) by {
            assert forall|d: u32| before.insert(doc).contains(d) implies distinct_docs(
                rows,
                n,
            ).contains(d) by {
                if d == doc {
                    assert(rows[n - 1].0 == d);
                }
            }
        }
        if n > 1 && rows[n - 2].0 == doc {
            assert(before.contains(doc));
            assert(before.insert(doc) =~= before);
        } else {
            let docs = sparse_block::row_docs(rows);
            assert forall|i: int| 0 <= i < n - 1 implies (#[trigger] rows[i]).0 != doc by {
                assert(docs[i] <= docs[n - 2]);
                assert(docs[n - 2] <= docs[n - 1]);
            }
            assert(!before.contains(doc));
        }
    }
}

proof fn cut_list_holds<F: Fn(&[u32], WeightQuantization) -> QuantizedWeights>(
    list: &BlockSparsePostingList,
    rows: Seq<(u32, u16, u32)>,
    quant: WeightQuantization,
    quantize: F,
    cuts: Seq<int>,
)
    requires
        gaps::ascending(sparse_block::row_docs(rows)),
        sparse_weights::quantizes(quantize),
        cuts.len() == list.blocks@.len() + 1,
        cuts[0] == 0,
        cuts.last() == rows.len(),
        forall|k: int|
            0 <= k < list.blocks@.len() ==> #[trigger] cut_ok(cuts, rows.len() as int, k)
                && sparse_block::encodes(
                &list.blocks@[k],
                cut_rows(rows, cuts, k),
                quant,
                quantize,
            ),
    ensures
        holds(list, rows, quant),
{
    let m = list.blocks@.len() as int;
    let n = rows.len() as int;
    let docs = sparse_block::row_docs(rows);
    assert forall|k: int| 0 <= k < m implies #[trigger] cut_reads(
        &list.blocks@[k],
        cut_rows(rows, cuts, k),
        quant,
    ) by {
        assert(cut_ok(cuts, n, k));
        cut_block_reads(
            &list.blocks@[k],
            cut_rows(rows, cuts, k),
            docs,
            cuts[k],
            quant,
            quantize,
        );
    }
    assert forall|k: int| 0 <= k < m implies #[trigger] cut_ok(cuts, n, k) by {}
    rows_match(list.blocks@, rows, quant, cuts, m);
    cuts_ordered(list, rows, quant, cuts);
}

proof fn cuts_ordered(
    list: &BlockSparsePostingList,
    rows: Seq<(u32, u16, u32)>,
    quant: WeightQuantization,
    cuts: Seq<int>,
)
    requires
        gaps::ascending(sparse_block::row_docs(rows)),
        cuts.len() == list.blocks@.len() + 1,
        forall|k: int|
            0 <= k < list.blocks@.len() ==> #[trigger] cut_ok(cuts, rows.len() as int, k),
        forall|k: int|
            0 <= k < list.blocks@.len() ==> #[trigger] cut_reads(
                &list.blocks@[k],
                cut_rows(rows, cuts, k),
                quant,
            ),
    ensures
        list.wf(),
        list.ordered(),
{
    let n = rows.len() as int;
    let m = list.blocks@.len() as int;
    let docs = sparse_block::row_docs(rows);
    assert forall|k: int| 0 <= k < m implies (#[trigger] list.blocks@[k]).wf() by {
        assert(cut_reads(&list.blocks@[k], cut_rows(rows, cuts, k), quant));
    }
    assert forall|i: int, j: int| 0 <= i < j < m implies (
    #[trigger] list.blocks@[i]).last_doc_id <= (#[trigger] list.blocks@[j]).header.first_doc_id by {
        cuts_grow(cuts, n, i + 1, j);
        assert(cut_ok(cuts, n, i) && cut_ok(cuts, n, j));
        assert(cut_reads(&list.blocks@[i], cut_rows(rows, cuts, i), quant));
        assert(cut_reads(&list.blocks@[j], cut_rows(rows, cuts, j), quant));
        assert(docs[cuts[i + 1] - 1] <= docs[cuts[j]]);
    }
}

proof fn cuts_grow(cuts: Seq<int>, n: int, i: int, j: int)
    requires
        0 <= i <= j < cuts.len(),
        forall|k: int| 0 <= k < cuts.len() - 1 ==> #[trigger] cut_ok(cuts, n, k),
    ensures
        cuts[i] <= cuts[j],
    decreases j,
{
    if i < j {
        cuts_grow(cuts, n, i, j - 1);
        assert(cut_ok(cuts, n, j - 1));
    }
}

/// Whether a block holds postings.
spec fn cut_reads(
    b: &SparseBlock,
    rows: Seq<(u32, u16, u32)>,
    quant: WeightQuantization,
) -> bool {
    &&& b.wf()
    &&& b.rows().len() == rows.len()
    &&& b.last_doc_id == rows.last().0
    &&& b.header.first_doc_id == rows[0].0
    &&& forall|i: int|
        0 <= i < rows.len() ==> {
            &&& (#[trigger] b.rows()[i]).0 == rows[i].0
            &&& b.rows()[i].1 == rows[i].1
            &&& quant is Float32 ==> b.rows()[i].2 == Weight::Single(rows[i].2)
        }
}

proof fn cut_block_reads<F: Fn(&[u32], WeightQuantization) -> QuantizedWeights>(
    b: &SparseBlock,
    rows: Seq<(u32, u16, u32)>,
    docs: Seq<u32>,
    at: int,
    quant: WeightQuantization,
    quantize: F,
)
    requires
        1 <= rows.len() <= 256,
        0 <= at,
        at + rows.len() <= docs.len(),
        gaps::ascending(docs),
        forall|i: int| 0 <= i < rows.len() ==> (#[trigger] rows[i]).0 == docs[at + i],
        sparse_weights::quantizes(quantize),
        sparse_block::encodes(b, rows, quant, quantize),
    ensures
        cut_reads(b, rows, quant),
{
    let part = sparse_block::row_docs(rows);
    assert forall|i: int, j: int| 0 <= i <= j < part.len() implies part[i] <= part[j] by {
        assert(rows[i].0 == docs[at + i] && rows[j].0 == docs[at + j]);
        assert(docs[at + i] <= docs[at + j]);
    }
    sparse_block::encoded_block_reads(b, rows, quant, quantize);
    sparse_block::encoded_weights_read(b, rows, quant, quantize);
}

proof fn rows_match(
    blocks: Seq<SparseBlock>,
    rows: Seq<(u32, u16, u32)>,
    quant: WeightQuantization,
    cuts: Seq<int>,
    n: int,
)
    requires
        0 <= n <= blocks.len(),
        cuts.len() == blocks.len() + 1,
        cuts[0] == 0,
        forall|k: int| 0 <= k < blocks.len() ==> #[trigger] cut_ok(cuts, rows.len() as int, k),
        forall|k: int|
            0 <= k < blocks.len() ==> #[trigger] cut_reads(
                &blocks[k],
                cut_rows(rows, cuts, k),
                quant,
            ),
    ensures
        ({
            let all = sparse_list::rows_of(blocks, n);
            &&& all.len() == cuts[n]
            &&& forall|i: int|
                0 <= i < cuts[n] ==> {
                    &&& (#[trigger] all[i]).0 == rows[i].0
                    &&& all[i].1 == rows[i].1
                    &&& quant is Float32 ==> all[i].2 == Weight::Single(rows[i].2)
                }
        }),
    decreases n,
{
    if n > 0 {
        rows_match(blocks, rows, quant, cuts, n - 1);
        let all = sparse_list::rows_of(blocks, n);
        let from = cuts[n - 1];
        let part = cut_rows(rows, cuts, n - 1);
        assert(cut_ok(cuts, rows.len() as int, n - 1));
        let b = &blocks[n - 1];
        assert(cut_reads(b, part, quant));
        assert forall|i: int| 0 <= i < cuts[n] implies {
            &&& (#[trigger] all[i]).0 == rows[i].0
            &&& all[i].1 == rows[i].1
            &&& quant is Float32 ==> all[i].2 == Weight::Single(rows[i].2)
        } by {
            if i < from {
                assert(all[i] == sparse_list::rows_of(blocks, n - 1)[i]);
            } else {
                assert(all[i] == b.rows()[i - from]);
                assert(part[i - from] == rows[i]);
            }
        }
    }
}

/// Whether a weight is what the code at a place of a quantizer's answer says:
/// a half, or the code within its bits under the scale and the offset.
pub open spec fn is_code(w: Weight, quant: WeightQuantization, q: QuantizedWeights, i: int) -> bool {
    let code = q.codes@[i];
    &&& quant is Float16 ==> w == Weight::Half(code)
    &&& quant is UInt8 && code < 256 || quant is UInt4 && code < 16 ==> w == (Weight::Code {
        code: code as u8,
        scale: q.scale,
        min: q.min,
    })
}

/// Whether the weights of the postings from one place to another were given
/// to a quantizer together, and one of a list's weights is the code that it
/// gave for posting `i`.
pub open spec fn is_coded<F: Fn(&[u32], WeightQuantization) -> QuantizedWeights>(
    w: Weight,
    rows: Seq<(u32, u16, u32)>,
    from: int,
    to: int,
    i: int,
    quant: WeightQuantization,
    quantize: F,
) -> bool {
    exists|weights: &[u32], q: QuantizedWeights|
        {
            &&& weights@ == sparse_block::row_weights(rows.subrange(from, to))
            &&& #[trigger] quantize.ensures((weights, quant), q)
            &&& q.codes@.len() == to - from
            &&& is_code(w, quant, q, i - from)
        }
}

/// Of postings in order that are encoded in blocks of one size, each weight
/// is read as the code that a quantizer gave it among the weights of its
/// block.
pub proof fn built_codes_hold<F: Fn(&[u32], WeightQuantization) -> QuantizedWeights>(
    list: &BlockSparsePostingList,
    rows: Seq<(u32, u16, u32)>,
    quant: WeightQuantization,
    size: int,
    quantize: F,
    i: int,
)
    requires
        gaps::ascending(sparse_block::row_docs(rows)),
        sparse_weights::quantizes(quantize),
        !(quant is Float32),
        16 <= size <= 256,
        (list.blocks@.len() - 1) * size < rows.len() || list.blocks@.len() == 0,
        rows.len() <= list.blocks@.len() * size,
        forall|k: int|
            0 <= k < list.blocks@.len() ==> sparse_block::encodes(
                #[trigger] &list.blocks@[k],
                rows.subrange(k * size, sparse_list::chunk_end(size, rows.len() as int, k)),
                quant,
                quantize,
            ),
        0 <= i < rows.len(),
    ensures
        list.rows().len() == rows.len(),
        is_coded(
            list.rows()[i].2,
            rows,
            i - i % size,
            if i - i % size + size < rows.len() {
                i - i % size + size
            } else {
                rows.len() as int
            },
            i,
            quant,
            quantize,
        ),
{
    let m = list.blocks@.len() as int;
    let n = rows.len() as int;
    let cuts = size_cuts(list, rows, quant, size, quantize);
    let k = i / size;
    assert(k * size == i - i % size && 0 <= i % size < size && 0 <= k) by (nonlinear_arith)
        requires
            k == i / size,
            size > 0,
            i >= 0,
    ;
    assert(k < m) by (nonlinear_arith)
        requires
            k * size <= i,
            i < n,
            n <= m * size,
            size > 0,
    ;
    if k + 1 < m {
        assert(cuts[k + 1] == (k + 1) * size);
        assert(cut_ok(cuts, n, k + 1));
        assert((k + 1) * size == k * size + size) by (nonlinear_arith);
    } else {
        assert(cuts[k + 1] == cuts.last());
        assert(k * size + size >= n) by (nonlinear_arith)
            requires
                k + 1 == m,
                n <= m * size,
        ;
    }
    cut_codes_hold(list, rows, quant, quantize, cuts, k, i);
}

/// Of postings in order that are encoded in blocks of given sizes, which
/// together take them all, each weight is read as the code that a quantizer
/// gave it among the weights of its block.
pub proof fn partitioned_codes_hold<F: Fn(&[u32], WeightQuantization) -> QuantizedWeights>(
    list: &BlockSparsePostingList,
    rows: Seq<(u32, u16, u32)>,
    quant: WeightQuantization,
    partition: Seq<usize>,
    quantize: F,
    k: int,
    i: int,
)
    requires
        gaps::ascending(sparse_block::row_docs(rows)),
        sparse_weights::quantizes(quantize),
        !(quant is Float32),
        rows.len() > 0,
        sparse_list::parts_ok(partition, rows.len() as int),
        sparse_list::part_start(partition, partition.len() as int) >= rows.len(),
        list.blocks@.len() == partition.len(),
        forall|k: int|
            0 <= k < list.blocks@.len() ==> sparse_block::encodes(
                #[trigger] &list.blocks@[k],
                rows.subrange(
                    sparse_list::part_start(partition, k),
                    sparse_list::part_end(partition, rows.len() as int, k),
                ),
                quant,
                quantize,
            ),
        0 <= k < partition.len(),
        sparse_list::part_start(partition, k) <= i < sparse_list::part_end(
            partition,
            rows.len() as int,
            k,
        ),
    ensures
        list.rows().len() == rows.len(),
        is_coded(
            list.rows()[i].2,
            rows,
            sparse_list::part_start(partition, k),
            sparse_list::part_end(partition, rows.len() as int, k),
            i,
            quant,
            quantize,
        ),
{
    let m = list.blocks@.len() as int;
    let n = rows.len() as int;
    let cuts = part_cuts(list, rows, quant, partition, quantize);
    if k + 1 < m {
        assert(cuts[k + 1] == sparse_list::part_start(partition, k + 1));
        assert(cut_ok(cuts, n, k + 1));
    } else {
        assert(cuts[k + 1] == cuts.last());
    }
    cut_codes_hold(list, rows, quant, quantize, cuts, k, i);
}

proof fn cut_codes_hold<F: Fn(&[u32], WeightQuantization) -> QuantizedWeights>(
    list: &BlockSparsePostingList,
    rows: Seq<(u32, u16, u32)>,
    quant: WeightQuantization,
    quantize: F,
    cuts: Seq<int>,
    k: int,
    i: int,
)
    requires
        gaps::ascending(sparse_block::row_docs(rows)),
        sparse_weights::quantizes(quantize),
        !(quant is Float32),
        cuts.len() == list.blocks@.len() + 1,
        cuts[0] == 0,
        cuts.last() == rows.len(),
        forall|k: int|
            0 <= k < list.blocks@.len() ==> #[trigger] cut_ok(cuts, rows.len() as int, k)
                && sparse_block::encodes(
                &list.blocks@[k],
                cut_rows(rows, cuts, k),
                quant,
                quantize,
            ),
        0 <= k < list.blocks@.len(),
        cuts[k] <= i < cuts[k + 1],
    ensures
        list.rows().len() == rows.len(),
        is_coded(list.rows()[i].2, rows, cuts[k], cuts[k + 1], i, quant, quantize),
{
    let b = &list.blocks@[k];
    let part = cut_rows(rows, cuts, k);
    assert(cut_ok(cuts, rows.len() as int, k));
    cut_list_holds(list, rows, quant, quantize, cuts);
    sparse_block::encoded_weights_read(b, part, quant, quantize);
    let (weights, q) = choose|weights: &[u32], q: QuantizedWeights|
        {
            &&& weights@ == sparse_block::row_weights(part)
            &&& #[trigger] quantize.ensures((weights, quant), q)
            &&& b.weights() == Seq::new(
                part.len(),
                |i: int| sparse_weights::coded(quant, q.scale, q.min, q.codes@[i]),
            )
        };
    let j = i - cuts[k];
    sparse_weights::coded_is_whole(quant, q.scale, q.min, q.codes@[j]);
    assert forall|k: int| 0 <= k < list.blocks@.len() implies (
    #[trigger] list.blocks@[k]).count() == cuts[k + 1] - cuts[k] by {
        assert(cut_ok(cuts, rows.len() as int, k));
    }
    assert forall|k: int| 0 <= k < list.blocks@.len() implies #[trigger] cut_ok(
        cuts,
        rows.len() as int,
        k,
    ) by {}
    row_of_block(list.blocks@, cuts, rows.len() as int, list.blocks@.len() as int, k, j);
    assert(list.rows()[i] == b.rows()[j]);
    assert(b.rows()[j].2 == b.weights()[j]);
}

/// A row of a block stands behind those of the blocks before.
proof fn row_of_block(
    blocks: Seq<SparseBlock>,
    cuts: Seq<int>,
    all: int,
    n: int,
    k: int,
    j: int,
)
    requires
        cuts.len() == blocks.len() + 1,
        cuts[0] == 0,
        forall|k: int| 0 <= k < blocks.len() ==> #[trigger] cut_ok(cuts, all, k),
        forall|k: int|
            0 <= k < blocks.len() ==> (#[trigger] blocks[k]).count() == cuts[k + 1] - cuts[k],
        0 <= n <= blocks.len(),
    ensures
        sparse_list::rows_of(blocks, n).len() == cuts[n],
        0 <= k < n && 0 <= j < cuts[k + 1] - cuts[k] ==> sparse_list::rows_of(blocks, n)[cuts[k]
            + j] == blocks[k].rows()[j],
    decreases n,
{
    if n > 0 {
        row_of_block(blocks, cuts, all, n - 1, k, j);
        assert(cut_ok(cuts, all, n - 1));
        if 0 <= k < n - 1 && 0 <= j < cuts[k + 1] - cuts[k] {
            cuts_grow(cuts, all, k + 1, n - 1);
            assert(cut_ok(cuts, all, k));
        }
    }
}

} // verus!
