//! Names and codes of choices tell them apart, and names are read in any
//! case.
use crate::codec;
use crate::codec::PostingCodec;
use crate::format::IndexOptimization;
use crate::sparse_config;
use crate::sparse_config::INFINITY;
use crate::sparse_config::IndexSize;
use crate::sparse_config::ONE;
use crate::sparse_config::SIGN;
use crate::sparse_config::SeismicConfig;
use crate::sparse_config::WeightQuantization;
use vstd::prelude::*;

verus! {

/// Whether a text is a word in small letters but for capitals among the
/// letters.
pub open spec fn spells(s: Seq<char>, word: Seq<char>) -> bool {
    &&& s.len() == word.len()
    &&& forall|i: int|
        0 <= i < s.len() ==> {
            let c = #[trigger] s[i];
            ||| c == word[i]
            ||| 'A' <= c && c <= 'Z' && c as int + 32 == word[i] as int
        }
}

/// Whether a text has no capitals.
pub open spec fn is_small(word: Seq<char>) -> bool {
    forall|i: int| 0 <= i < word.len() ==> !('A' <= #[trigger] word[i] && word[i] <= 'Z')
}

/// A text names a word in small letters just where it spells it.
pub proof fn names_in_any_case(s: Seq<char>, word: Seq<char>)
    requires
        is_small(word),
    ensures
        codec::names(s, word) <==> spells(s, word),
{
    if spells(s, word) {
        assert forall|i: int| 0 <= i < s.len() implies codec::lower(#[trigger] s[i]) == word[i] by {
            assert(!('A' <= word[i] && word[i] <= 'Z'));
        }
    }
    if codec::names(s, word) {
        assert forall|i: int| 0 <= i < s.len() implies {
            let c = #[trigger] s[i];
            ||| c == word[i]
            ||| 'A' <= c && c <= 'Z' && c as int + 32 == word[i] as int
        } by {
            assert(codec::lower(s[i]) == word[i]);
        }
    }
}

/// A text that names a word has its length and its first letters.
proof fn letters_tell_apart(s: Seq<char>, word: Seq<char>)
    requires
        word.len() > 1,
    ensures
        codec::names(s, word) ==> {
            &&& s.len() == word.len()
            &&& codec::lower(s[0]) == word[0]
            &&& codec::lower(s[1]) == word[1]
        },
{
}

/// A codec is named in any case by its own name and its other names, and by
/// nothing else.
pub proof fn codec_names(s: Seq<char>)
    ensures
        PostingCodec::named(s) == Some(PostingCodec::Rounded) <==> spells(s, "rounded"@) || spells(
            s,
            "default"@,
        ),
        PostingCodec::named(s) == Some(PostingCodec::Packed) <==> spells(s, "packed"@) || spells(
            s,
            "bp128"@,
        ) || spells(s, "exact"@),
        PostingCodec::named(s) == Some(PostingCodec::Pfor) <==> spells(s, "pfor"@) || spells(
            s,
            "optp4d"@,
        ) || spells(s, "patched"@),
        PostingCodec::named(s) == Some(PostingCodec::Simd4x) <==> spells(s, "simd4x"@),
{
    reveal_strlit("rounded");
    reveal_strlit("default");
    reveal_strlit("packed");
    reveal_strlit("bp128");
    reveal_strlit("exact");
    reveal_strlit("pfor");
    reveal_strlit("optp4d");
    reveal_strlit("patched");
    reveal_strlit("simd4x");
    names_in_any_case(s, "rounded"@);
    names_in_any_case(s, "default"@);
    names_in_any_case(s, "packed"@);
    names_in_any_case(s, "bp128"@);
    names_in_any_case(s, "exact"@);
    names_in_any_case(s, "pfor"@);
    names_in_any_case(s, "optp4d"@);
    names_in_any_case(s, "patched"@);
    names_in_any_case(s, "simd4x"@);
    letters_tell_apart(s, "rounded"@);
    letters_tell_apart(s, "default"@);
    letters_tell_apart(s, "packed"@);
    letters_tell_apart(s, "bp128"@);
    letters_tell_apart(s, "exact"@);
    letters_tell_apart(s, "pfor"@);
    letters_tell_apart(s, "optp4d"@);
    letters_tell_apart(s, "patched"@);
    letters_tell_apart(s, "simd4x"@);
}

/// A mode is named in any case by its names, and by nothing else.
pub proof fn mode_names(s: Seq<char>)
    ensures
        IndexOptimization::named(s) == Some(IndexOptimization::Adaptive) <==> spells(s, "adaptive"@)
            || spells(s, "balanced"@) || spells(s, "default"@),
        IndexOptimization::named(s) == Some(IndexOptimization::SizeOptimized) <==> spells(
            s,
            "size"@,
        ) || spells(s, "size-optimized"@) || spells(s, "small"@) || spells(s, "compact"@),
        IndexOptimization::named(s) == Some(IndexOptimization::PerformanceOptimized) <==> spells(
            s,
            "performance"@,
        ) || spells(s, "perf"@) || spells(s, "fast"@) || spells(s, "speed"@),
{
    reveal_strlit("adaptive");
    reveal_strlit("balanced");
    reveal_strlit("default");
    reveal_strlit("size");
    reveal_strlit("size-optimized");
    reveal_strlit("small");
    reveal_strlit("compact");
    reveal_strlit("performance");
    reveal_strlit("perf");
    reveal_strlit("fast");
    reveal_strlit("speed");
    names_in_any_case(s, "adaptive"@);
    names_in_any_case(s, "balanced"@);
    names_in_any_case(s, "default"@);
    names_in_any_case(s, "size"@);
    names_in_any_case(s, "size-optimized"@);
    names_in_any_case(s, "small"@);
    names_in_any_case(s, "compact"@);
    names_in_any_case(s, "performance"@);
    names_in_any_case(s, "perf"@);
    names_in_any_case(s, "fast"@);
    names_in_any_case(s, "speed"@);
    letters_tell_apart(s, "adaptive"@);
    letters_tell_apart(s, "balanced"@);
    letters_tell_apart(s, "default"@);
    letters_tell_apart(s, "size"@);
    letters_tell_apart(s, "size-optimized"@);
    letters_tell_apart(s, "small"@);
    letters_tell_apart(s, "compact"@);
    letters_tell_apart(s, "performance"@);
    letters_tell_apart(s, "perf"@);
    letters_tell_apart(s, "fast"@);
    letters_tell_apart(s, "speed"@);
}

/// Codes of precisions, sizes and codecs tell them apart.
pub proof fn codes_tell_apart(
    p: WeightQuantization,
    q: WeightQuantization,
    a: IndexSize,
    b: IndexSize,
    c: PostingCodec,
    d: PostingCodec,
)
    ensures
        p.code() == q.code() ==> p == q,
        p.nibbles() == q.nibbles() ==> p == q,
        a.code() == b.code() ==> a == b,
        c.code() == d.code() ==> c == d,
        PostingCodec::of_byte((64 * c.code()) as u8) == c,
{
}

/// A codec stays as it is for a whole block, and every codec but the one for
/// whole blocks for any number of postings.
pub proof fn codec_for_blocks(c: PostingCodec, count: int)
    ensures
        count >= 128 ==> c.for_count_spec(count) == c,
        c != PostingCodec::Simd4x ==> c.for_count_spec(count) == c,
        count < 128 ==> c.for_count_spec(count) != PostingCodec::Simd4x,
{
}

/// A fraction between zero and one is kept. A larger number counts as one,
/// a smaller one as zero, and what is no number stays so.
pub proof fn fractions_are_clamped(bits: u32)
    ensures
        bits <= ONE ==> sparse_config::clamped(bits) == bits,
        ONE <= bits <= INFINITY ==> sparse_config::clamped(bits) == ONE,
        SIGN < bits <= SIGN + INFINITY ==> sparse_config::clamped(bits) == 0,
        bits % SIGN > INFINITY ==> sparse_config::clamped(bits) == bits,
{
}

/// Settings for clusters are accepted just where the postings are from one
/// to the most that a list keeps, a cluster has at least one and no more
/// than those, and the energy is above zero and at most one.
pub proof fn cluster_settings_accepted(c: SeismicConfig)
    ensures
        c.refusal() is None <==> {
            &&& 0 < c.cluster_size <= c.postings <= 65536
            &&& 0 < c.summary_energy <= ONE
        },
{
}

} // verus!
