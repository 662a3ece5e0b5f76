//! Encoded dimensions are read back as they were.
use crate::bytes;
use crate::dimensions;
use crate::gaps;
use vstd::prelude::*;

verus! {

/// Encoded dimensions take exactly the bytes that reading them needs, never
/// more than four each, and give back every dimension.
pub proof fn dimensions_roundtrip(d: Seq<u32>, compact: bool)
    requires
        compact ==> gaps::ascending(d),
    ensures
        ({
            let (kind, b) = dimensions::encoded(d, compact);
            &&& dimensions::extent(b, d.len() as int, kind) == b.len()
            &&& b.len() <= 4 * d.len()
            &&& dimensions::dims_from(b, d.len() as int, kind, 0) == d
        }),
{
    let (kind, b) = dimensions::encoded(d, compact);
    let n = d.len() as int;
    let width = if compact && n > 0 {
        dimensions::raw_width(d.last())
    } else {
        4
    };
    if kind == dimensions::DOT {
        assert(n * width <= 4 * n) by (nonlinear_arith)
            requires
                width <= 4,
                n >= 0,
        ;
        dot_reads(d);
    } else {
        if width < 4 {
            assert forall|i: int| 0 <= i < n implies #[trigger] d[i] <= d.last() by {
                assert(d[i] <= d[n - 1]);
            }
        }
        raw_reads(d, width);
    }
    assert(dimensions::dims_from(b, n, kind, 0) =~= d);
}

/// Dimensions that need not be compact take four bytes each. Compact ones
/// take no more than two each where two bytes hold the last of them, and no
/// more than three each where three do.
pub proof fn compact_dimensions_are_short(d: Seq<u32>, compact: bool)
    requires
        compact ==> gaps::ascending(d),
    ensures
        ({
            let (kind, b) = dimensions::encoded(d, compact);
            &&& !compact ==> kind == dimensions::RAW && b.len() == 4 * d.len()
            &&& compact && d.len() > 0 && d.last() < 0x1_0000 ==> b.len() <= 2 * d.len()
            &&& compact && d.len() > 0 && d.last() < 0x100_0000 ==> b.len() <= 3 * d.len()
        }),
{
    dimensions_roundtrip(d, compact);
    let (kind, b) = dimensions::encoded(d, compact);
    let n = d.len() as int;
    let width = if compact && n > 0 {
        dimensions::raw_width(d.last())
    } else {
        4
    };
    assert(n * 2 == 2 * n && n * 3 == 3 * n && n * 4 == 4 * n);
    if kind != dimensions::DOT {
        if width < 4 {
            assert forall|i: int| 0 <= i < n implies #[trigger] d[i] <= d.last() by {
                assert(d[i] <= d[n - 1]);
            }
        }
        raw_reads(d, width);
    }
}

/// A reader of encoded dimensions, wherever it has come to, has the rest of
/// the dimensions ahead, and a fold from there goes over just those.
pub proof fn readers_have_the_rest<const RAW_ONLY: bool>(
    reader: dimensions::Dimensions<'_, RAW_ONLY>,
    d: Seq<u32>,
    compact: bool,
)
    requires
        compact ==> gaps::ascending(d),
        reader.source() == dimensions::encoded(d, compact).1,
        reader.kind() == dimensions::encoded(d, compact).0,
        reader.total() == d.len(),
        0 <= reader.at() <= d.len(),
    ensures
        reader.rest() == d.skip(reader.at()),
        reader.folded() == d.skip(reader.at()),
{
    dimensions_roundtrip(d, compact);
    let (kind, b) = dimensions::encoded(d, compact);
    let n = d.len() as int;
    let all = dimensions::dims_from(b, n, kind, 0);
    let rest = reader.rest();
    assert forall|i: int| 0 <= i < rest.len() implies rest[i] == #[trigger] d.skip(
        reader.at(),
    )[i] by {
        assert(all[reader.at() + i] == d[reader.at() + i]);
    }
    assert(rest =~= d.skip(reader.at()));
}

proof fn raw_reads(d: Seq<u32>, width: int)
    requires
        2 <= width <= 4,
        width == 2 ==> forall|i: int| 0 <= i < d.len() ==> #[trigger] d[i] <= 0xFFFF,
        width == 3 ==> forall|i: int| 0 <= i < d.len() ==> #[trigger] d[i] < 0x100_0000,
    ensures
        ({
            let b = bytes::joined(dimensions::raw_parts(d, width));
            let kind = dimensions::raw_kind(width);
            &&& b.len() == width * d.len()
            &&& forall|i: int|
                0 <= i < d.len() ==> #[trigger] dimensions::dim_at(b, d.len() as int, kind, i)
                    == d[i]
        }),
{
    broadcast use bytes::group_word_sizes;

    let parts = dimensions::raw_parts(d, width);
    let b = bytes::joined(parts);
    let kind = dimensions::raw_kind(width);
    assert forall|i: int| 0 <= i < parts.len() implies (#[trigger] parts[i]).len() == width by {}
    bytes::joined_uniform(parts, width, parts.len() as int);
    bytes::joined_position(parts, parts.len() as int);
    assert(parts.len() * width == width * d.len()) by (nonlinear_arith)
        requires
            parts.len() == d.len(),
    ;
    assert forall|i: int| 0 <= i < d.len() implies #[trigger] dimensions::dim_at(
        b,
        d.len() as int,
        kind,
        i,
    ) == d[i] by {
        bytes::joined_uniform(parts, width, i);
        bytes::joined_uniform(parts, width, i + 1);
        bytes::joined_position(parts, i);
        let s = parts[i];
        let v = d[i];
        if width == 2 {
            assert(i * width == 2 * i && (i + 1) * width == 2 * i + 2) by (nonlinear_arith)
                requires
                    width == 2,
            ;
            assert(b.subrange(2 * i, 2 * i + 2) == s);
            assert(b[2 * i] == s[0] && b[2 * i + 1] == s[1]);
            bytes::le16_roundtrip(v as u16);
        } else if width == 3 {
            assert(i * width == 3 * i && (i + 1) * width == 3 * i + 3) by (nonlinear_arith)
                requires
                    width == 3,
            ;
            assert(b.subrange(3 * i, 3 * i + 3) == s);
            assert(b[3 * i] == s[0] && b[3 * i + 1] == s[1] && b[3 * i + 2] == s[2]);
        } else {
            assert(i * width == 4 * i && (i + 1) * width == 4 * i + 4) by (nonlinear_arith)
                requires
                    width == 4,
            ;
            assert(b.subrange(4 * i, 4 * i + 4) == s);
            bytes::le32_roundtrip(v);
            bytes::section_u32(b, 4 * i, s, 0);
        }
    }
}

/// What the lanes from `k` on add to a control byte, in units of lane `k`.
spec fn control_rest(d: Seq<u32>, g: int, k: int) -> int
    decreases 8 - k,
{
    if k >= 8 {
        0
    } else {
        (if dimensions::step(d, 8 * g + k) > 255 {
            1int
        } else {
            0
        }) + 2 * control_rest(d, g, k + 1)
    }
}

proof fn control_splits(d: Seq<u32>, g: int, k: int)
    requires
        0 <= k <= 8,
    ensures
        control_rest(d, g, k) >= 0,
        0 <= dimensions::control_part(d, g, k) < dimensions::lane_weight(k),
        dimensions::control_part(d, g, 8) == dimensions::control_part(d, g, k)
            + dimensions::lane_weight(k) * control_rest(d, g, k),
        0 <= dimensions::control_part(d, g, 8) < 256,
    decreases 8 - k,
{
    if k < 8 {
        control_splits(d, g, k + 1);
        let w = dimensions::lane_weight(k);
        let bit = if dimensions::step(d, 8 * g + k) > 255 {
            1int
        } else {
            0
        };
        let rest = control_rest(d, g, k + 1);
        assert(dimensions::control_part(d, g, k + 1) == dimensions::control_part(d, g, k) + w * bit)
            by {
            assert(w * 1 == w && w * 0 == 0) by (nonlinear_arith);
        }
        assert(2 * w * rest + w * bit == w * (bit + 2 * rest)) by (nonlinear_arith);
        control_below(d, g, k);
    } else {
        control_below(d, g, 8);
        assert(dimensions::lane_weight(8) * 0 == 0) by (nonlinear_arith);
    }
}

proof fn control_below(d: Seq<u32>, g: int, k: int)
    requires
        0 <= k <= 8,
    ensures
        0 <= dimensions::control_part(d, g, k) < dimensions::lane_weight(k),
    decreases k,
{
    if k > 0 {
        control_below(d, g, k - 1);
    }
}

/// A control byte holds one bit for each lane.
proof fn control_bits(d: Seq<u32>, g: int, k: int)
    requires
        0 <= k < 8,
    ensures
        0 <= dimensions::control_part(d, g, 8) < 256,
        dimensions::lane_bit(dimensions::control_part(d, g, 8) as u8, k) == (if dimensions::step(
            d,
            8 * g + k,
        ) > 255 {
            1int
        } else {
            0
        }),
{
    control_splits(d, g, k);
    control_splits(d, g, k + 1);
    let c = dimensions::control_part(d, g, 8);
    let w = dimensions::lane_weight(k);
    let q = control_rest(d, g, k);
    assert(w * q == q * w) by (nonlinear_arith);
    vstd::arithmetic::div_mod::lemma_fundamental_div_mod_converse(
        c,
        w,
        q,
        dimensions::control_part(d, g, k),
    );
}

/// Lane `k` of group `g`.
proof fn lanes_read(d: Seq<u32>, b: Seq<u8>, at: int, g: int, k: int)
    requires
        gaps::ascending(d),
        dimensions::steps_fit(d),
        0 <= g < d.len() as int / 8,
        0 <= k <= 8,
        at >= 0,
        at + bytes::joined(dimensions::steps(d)).len() <= b.len(),
        b.subrange(at, at + bytes::joined(dimensions::steps(d)).len()) == bytes::joined(
            dimensions::steps(d),
        ),
    ensures
        ({
            let control = dimensions::controls(d)[g];
            let parts = dimensions::steps(d);
            let start = at + bytes::joined_len(parts, 8 * g);
            &&& dimensions::lane_pos(control, k) == bytes::joined_len(parts, 8 * g + k)
                - bytes::joined_len(parts, 8 * g)
            &&& dimensions::lane_sum(control, b, start, k) == (if k == 0 {
                0
            } else {
                d[8 * g + k - 1] - d[if g == 0 {
                    0
                } else {
                    8 * g - 1
                }]
            })
        }),
    decreases k,
{
    let control = dimensions::controls(d)[g];
    let parts = dimensions::steps(d);
    let start = at + bytes::joined_len(parts, 8 * g);
    if k > 0 {
        lanes_read(d, b, at, g, k - 1);
        control_bits(d, g, k - 1);
        let i = 8 * g + k - 1;
        let s = parts[i];
        let body = bytes::joined(parts);
        assert(dimensions::step(d, i) <= 0xFFFF);
        if i > 0 {
            assert(d[i - 1] <= d[i]);
        }
        bytes::joined_position(parts, i);
        bytes::joined_position(parts, parts.len() as int);
        bytes::joined_len_monotone(parts, 0, i);
        bytes::joined_len_monotone(parts, i + 1, parts.len() as int);
        let p = bytes::joined_len(parts, i);
        assert(s.len() == (if dimensions::step(d, i) > 255 {
            2int
        } else {
            1
        }));
        assert(bytes::joined_len(parts, i + 1) == p + s.len());
        assert(body.subrange(p, p + s.len()) == s);
        assert forall|j: int| 0 <= j < s.len() implies #[trigger] s[j] == b[at + p + j] by {
            assert(s[j] == body.subrange(p, p + s.len())[j]);
            assert(body[p + j] == b.subrange(at, at + body.len())[p + j]);
        }
        if dimensions::step(d, i) > 255 {
            bytes::le16_roundtrip(dimensions::step(d, i) as u16);
            assert(s[0] == b[at + p] && s[1] == b[at + p + 1]);
        } else {
            assert(s[0] == b[at + p]);
        }
        assert(dimensions::lane_gap(control, b, start, k - 1) == dimensions::step(d, i));
    }
}

proof fn groups_read(d: Seq<u32>, g: int)
    requires
        gaps::ascending(d),
        dimensions::steps_fit(d),
        d.len() >= 8,
        0 <= g <= d.len() as int / 8,
    ensures
        ({
            let b = dimensions::dot_bytes(d);
            let groups = d.len() as int / 8;
            &&& dimensions::group_at(b, groups, g) == 4 + groups + bytes::joined_len(
                dimensions::steps(d),
                8 * g,
            )
            &&& dimensions::group_base(b, dimensions::DOT, groups, g) == d[if g == 0 {
                0
            } else {
                8 * g - 1
            }]
        }),
    decreases g,
{
    broadcast use bytes::group_word_sizes;

    let b = dimensions::dot_bytes(d);
    let groups = d.len() as int / 8;
    let parts = dimensions::steps(d);
    let head = bytes::le32(d[0]);
    if g == 0 {
        assert(b.subrange(0, 4) =~= head);
        bytes::le32_roundtrip(d[0]);
        bytes::section_u32(b, 0, head, 0);
    } else {
        groups_read(d, g - 1);
        let body = bytes::joined(parts);
        assert(b.subrange(4 + groups, 4 + groups + body.len()) =~= body);
        assert(b[4 + g - 1] == dimensions::controls(d)[g - 1]);
        lanes_read(d, b, 4 + groups, g - 1, 8);
        if g > 1 {
            assert(d[8 * (g - 1) - 1] <= d[8 * g - 1]);
        }
    }
}

proof fn dot_reads(d: Seq<u32>)
    requires
        gaps::ascending(d),
        dimensions::steps_fit(d),
        d.len() >= 8,
    ensures
        ({
            let b = dimensions::dot_bytes(d);
            &&& dimensions::extent(b, d.len() as int, dimensions::DOT) == b.len()
            &&& forall|i: int|
                0 <= i < d.len() ==> #[trigger] dimensions::dim_at(
                    b,
                    d.len() as int,
                    dimensions::DOT,
                    i,
                ) == d[i]
        }),
{
    broadcast use bytes::group_word_sizes;

    let b = dimensions::dot_bytes(d);
    let n = d.len() as int;
    let groups = n / 8;
    let parts = dimensions::steps(d);
    let body = bytes::joined(parts);
    let rest = d.skip(8 * groups);
    let tail = bytes::le32_all(rest);
    groups_read(d, groups);
    bytes::joined_position(parts, parts.len() as int);
    bytes::le32_all_len(rest);
    assert(b.subrange(4 + groups, 4 + groups + body.len()) =~= body);
    assert forall|i: int| 0 <= i < n implies #[trigger] dimensions::dim_at(
        b,
        n,
        dimensions::DOT,
        i,
    ) == d[i] by {
        if i < 8 * groups {
            let g = i / 8;
            groups_read(d, g);
            lanes_read(d, b, 4 + groups, g, i % 8 + 1);
            assert(b[4 + g] == dimensions::controls(d)[g]);
            assert(8 * g + i % 8 == i);
        } else {
            let k = i - 8 * groups;
            let at = 4 + groups + body.len();
            bytes::le32_all_index(rest, k);
            assert(b.subrange(at as int, at + tail.len()) =~= tail);
            bytes::section_u32(b, at as int, tail, 4 * k);
        }
    }
}

} // verus!
