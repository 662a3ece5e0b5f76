//! The dimension numbers of one sparse vector: at a fixed width, or as gaps
//! of one or two bytes in groups of eight under a control byte.
use crate::bytes;
use crate::gaps;
use vstd::prelude::*;

verus! {

/// Four bytes a dimension.
pub const RAW: u8 = 0;

/// Two bytes a dimension.
pub const U16: u8 = 1;

/// Gaps under control bytes.
pub const DOT: u8 = 2;

/// Three bytes a dimension.
pub const U24: u8 = 3;

/// The dimensions of weighted entries.
pub open spec fn dims<T>(values: Seq<(u32, T)>) -> Seq<u32> {
    Seq::new(values.len(), |i: int| values[i].0)
}

/// The value of bit `k` of a control byte.
pub open spec fn lane_weight(k: int) -> int {
    if k <= 0 {
        1
    } else if k == 1 {
        2
    } else if k == 2 {
        4
    } else if k == 3 {
        8
    } else if k == 4 {
        16
    } else if k == 5 {
        32
    } else if k == 6 {
        64
    } else if k == 7 {
        128
    } else {
        256
    }
}

/// Bit `k` of a control byte.
pub open spec fn lane_bit(control: u8, k: int) -> int {
    (control as int / lane_weight(k)) % 2
}

/// Where the gap of lane `k` starts in the bytes of its group.
pub open spec fn lane_pos(control: u8, k: int) -> int
    decreases k,
{
    if k <= 0 {
        0
    } else {
        lane_pos(control, k - 1) + 1 + lane_bit(control, k - 1)
    }
}

/// The gap of lane `k` of a group whose gaps start at byte `at`.
pub open spec fn lane_gap(control: u8, b: Seq<u8>, at: int, k: int) -> int {
    let p = at + lane_pos(control, k);
    if lane_bit(control, k) == 0 {
        b[p] as int
    } else {
        bytes::u16_at(b, p) as int
    }
}

/// The gaps of the first `k` lanes together.
pub open spec fn lane_sum(control: u8, b: Seq<u8>, at: int, k: int) -> int
    decreases k,
{
    if k <= 0 {
        0
    } else {
        lane_sum(control, b, at, k - 1) + lane_gap(control, b, at, k - 1)
    }
}

/// Where the gaps of group `g` start.
pub open spec fn group_at(b: Seq<u8>, groups: int, g: int) -> int
    decreases g,
{
    if g <= 0 {
        4 + groups
    } else {
        group_at(b, groups, g - 1) + lane_pos(b[4 + g - 1], 8)
    }
}

/// The number that the gaps of group `g` are counted from.
pub open spec fn group_base(b: Seq<u8>, encoding: u8, groups: int, g: int) -> int
    decreases g,
{
    if g <= 0 {
        if encoding == DOT {
            bytes::u32_at(b, 0) as int
        } else {
            0
        }
    } else {
        group_base(b, encoding, groups, g - 1) + lane_sum(
            b[4 + g - 1],
            b,
            group_at(b, groups, g - 1),
            8,
        )
    }
}

/// Three bytes as a number, the low one first.
pub open spec fn u24_at(b: Seq<u8>, at: int) -> u32 {
    (b[at] + 0x100 * b[at + 1] + 0x1_0000 * b[at + 2]) as u32
}

/// Dimension `i` of `count` encoded ones.
pub open spec fn dim_at(b: Seq<u8>, count: int, encoding: u8, i: int) -> u32 {
    let groups = count / 8;
    if encoding == RAW {
        bytes::u32_at(b, 4 * i)
    } else if encoding == U16 {
        bytes::u16_at(b, 2 * i) as u32
    } else if encoding == U24 {
        u24_at(b, 3 * i)
    } else if i < 8 * groups {
        let g = i / 8;
        ((group_base(b, encoding, groups, g) + lane_sum(
            b[4 + g],
            b,
            group_at(b, groups, g),
            i % 8 + 1,
        )) % 0x1_0000_0000) as u32
    } else {
        bytes::u32_at(b, group_at(b, groups, groups) + 4 * (i - 8 * groups))
    }
}

/// The dimensions from number `from` on.
pub open spec fn dims_from(b: Seq<u8>, count: int, encoding: u8, from: int) -> Seq<u32> {
    Seq::new((count - from) as nat, |i: int| dim_at(b, count, encoding, from + i))
}

/// The bytes that `count` encoded dimensions take.
pub open spec fn extent(b: Seq<u8>, count: int, encoding: u8) -> int {
    if encoding == RAW {
        4 * count
    } else if encoding == U16 {
        2 * count
    } else if encoding == U24 {
        3 * count
    } else {
        group_at(b, count / 8, count / 8) + 4 * (count % 8)
    }
}

/// A lane takes one or two bytes.
pub proof fn lane_pos_bounds(control: u8, k: int)
    requires
        0 <= k <= 8,
    ensures
        k <= lane_pos(control, k) <= 2 * k,
    decreases k,
{
    if k > 0 {
        lane_pos_bounds(control, k - 1);
    }
}

/// Lanes follow each other.
pub proof fn lane_pos_monotone(control: u8, i: int, j: int)
    requires
        0 <= i <= j <= 8,
    ensures
        lane_pos(control, i) + (j - i) <= lane_pos(control, j),
    decreases j,
{
    if i < j {
        lane_pos_monotone(control, i, j - 1);
    }
}

/// Groups follow each other.
pub proof fn group_at_monotone(b: Seq<u8>, groups: int, i: int, j: int)
    requires
        0 <= i <= j,
    ensures
        group_at(b, groups, i) <= group_at(b, groups, j),
        group_at(b, groups, i) >= 4 + groups,
    decreases j,
{
    if i < j {
        lane_pos_bounds(b[4 + j - 1], 8);
        group_at_monotone(b, groups, i, j - 1);
    } else if i > 0 {
        lane_pos_bounds(b[4 + i - 1], 8);
        group_at_monotone(b, groups, i - 1, i - 1);
    }
}

proof fn halve(control: u8, k: int)
    requires
        0 <= k < 8,
    ensures
        (control as int / lane_weight(k)) / 2 == control as int / lane_weight(k + 1),
{
    let c = control as int;
    if k == 0 {
        assert((c / 1) / 2 == c / 2);
    } else if k == 1 {
        assert((c / 2) / 2 == c / 4);
    } else if k == 2 {
        assert((c / 4) / 2 == c / 8);
    } else if k == 3 {
        assert((c / 8) / 2 == c / 16);
    } else if k == 4 {
        assert((c / 16) / 2 == c / 32);
    } else if k == 5 {
        assert((c / 32) / 2 == c / 64);
    } else if k == 6 {
        assert((c / 64) / 2 == c / 128);
    } else {
        assert((c / 128) / 2 == c / 256);
    }
}

/// Sum up the eight gaps of a group that starts at byte `at`.
fn decode_at(control: u8, b: &[u8], at: usize, previous: u32) -> (r: ([u32; 8], usize))
    requires
        at + lane_pos(control, 8) <= b.len(),
    ensures
        forall|k: int|
            0 <= k < 8 ==> #[trigger] r.0@[k] == (previous + lane_sum(
                control,
                b@,
                at as int,
                k + 1,
            )) % 0x1_0000_0000,
        r.1 == at + lane_pos(control, 8),
{
    let mut out: [u32; 8] = [0;8];
    let mut rest: u8 = control;
    let mut offset: usize = at;
    let mut sum: u32 = previous;
    let mut k: usize = 0;
    while k < 8
        invariant
            k <= 8,
            at + lane_pos(control, 8) <= b.len(),
            offset == at + lane_pos(control, k as int),
            rest as int == control as int / lane_weight(k as int),
            sum == (previous + lane_sum(control, b@, at as int, k as int)) % 0x1_0000_0000,
            lane_sum(control, b@, at as int, k as int) >= 0,
            forall|j: int|
                0 <= j < k ==> #[trigger] out@[j] == (previous + lane_sum(
                    control,
                    b@,
                    at as int,
                    j + 1,
                )) % 0x1_0000_0000,
        decreases 8 - k,
    {
        proof {
            halve(control, k as int);
            lane_pos_monotone(control, k as int + 1, 8);
        }
        let (gap, width): (u16, usize) = if rest % 2 == 0 {
            (b[offset] as u16, 1)
        } else {
            (bytes::get_u16(b, offset), 2)
        };
        let ghost before = previous + lane_sum(control, b@, at as int, k as int);
        sum = sum.wrapping_add(gap as u32);
        proof {
            assert(gap == lane_gap(control, b@, at as int, k as int));
            assert(sum == (before % 0x1_0000_0000 + gap) % 0x1_0000_0000);
            assert(sum == (before + gap) % 0x1_0000_0000);
        }
        out[k] = sum;
        rest = rest / 2;
        offset = offset + width;
        k = k + 1;
    }
    (out, offset)
}

/// Decode one group of gaps, lane by lane.
pub fn decode_scalar(control: u8, b: &[u8], previous: u32) -> (r: [u32; 8])
    requires
        lane_pos(control, 8) <= b.len(),
    ensures
        forall|k: int|
            0 <= k < 8 ==> #[trigger] r@[k] == (previous + lane_sum(control, b@, 0, k + 1))
                % 0x1_0000_0000,
{
    decode_at(control, b, 0, previous).0
}

/// Decode one group of gaps.
pub fn decode(control: u8, b: &[u8], previous: u32) -> (r: [u32; 8])
    requires
        lane_pos(control, 8) <= b.len(),
    ensures
        forall|k: int|
            0 <= k < 8 ==> #[trigger] r@[k] == (previous + lane_sum(control, b@, 0, k + 1))
                % 0x1_0000_0000,
{
    decode_scalar(control, b, previous)
}

/// A cursor over encoded dimensions.
pub struct Dimensions<'a, const RAW_ONLY: bool> {
    bytes: &'a [u8],
    encoding: u8,
    count: usize,
    index: usize,
    offset: usize,
    decoded: [u32; 8],
    previous: u32,
}

impl<'a, const RAW_ONLY: bool> Dimensions<'a, RAW_ONLY> {
    /// The encoded bytes.
    pub closed spec fn source(&self) -> Seq<u8> {
        self.bytes@
    }

    /// How they are encoded.
    pub closed spec fn kind(&self) -> u8 {
        self.encoding
    }

    /// How many dimensions there are.
    pub closed spec fn total(&self) -> int {
        self.count as int
    }

    /// How many dimensions have been given out.
    pub closed spec fn at(&self) -> int {
        self.index as int
    }

    /// The dimensions still to come.
    pub open spec fn rest(&self) -> Seq<u32> {
        dims_from(self.source(), self.total(), self.kind(), self.at())
    }

    /// Whether the encoded bytes go by groups.
    pub closed spec fn grouped(&self) -> bool {
        self.encoding != RAW && self.encoding != U16 && self.encoding != U24
    }

    /// The groups that have been opened.
    closed spec fn opened(&self) -> int {
        let groups = self.count as int / 8;
        if self.index >= 8 * groups {
            groups
        } else {
            (self.index + 7) / 8
        }
    }

    /// Whether the cursor agrees with its bytes.
    pub closed spec fn wf(&self) -> bool {
        let b = self.bytes@;
        let groups = self.count as int / 8;
        let g = self.opened();
        &&& self.index <= self.count
        &&& extent(b, self.count as int, self.encoding) <= self.bytes.len()
        &&& self.grouped() ==> {
            &&& self.offset == group_at(b, groups, g) + 4 * (if self.index > 8 * groups {
                self.index - 8 * groups
            } else {
                0
            })
            &&& self.previous == group_base(b, self.encoding, groups, g) % 0x1_0000_0000
            &&& self.index % 8 != 0 && self.index < 8 * groups ==> forall|k: int|
                0 <= k < 8 ==> #[trigger] self.decoded@[k] == (group_base(
                    b,
                    self.encoding,
                    groups,
                    g - 1,
                ) + lane_sum(b[4 + g - 1], b, group_at(b, groups, g - 1), k + 1)) % 0x1_0000_0000
        }
    }

    /// A cursor over `count` dimensions.
    pub fn new(bytes: &'a [u8], count: usize, encoding: u8) -> (r: Self)
        requires
            extent(
                bytes@,
                count as int,
                if RAW_ONLY {
                    RAW
                } else {
                    encoding
                },
            ) <= bytes.len(),
        ensures
            r.wf(),
            r.source() == bytes@,
            r.total() == count,
            r.kind() == (if RAW_ONLY {
                RAW
            } else {
                encoding
            }),
            r.at() == 0,
    {
        let encoding: u8 = if RAW_ONLY {
            RAW
        } else {
            encoding
        };
        let grouped: bool = encoding != RAW && encoding != U16 && encoding != U24;
        proof {
            group_at_monotone(bytes@, count as int / 8, 0, count as int / 8);
        }
        let offset: usize = if grouped {
            4 + count / 8
        } else {
            0
        };
        let previous: u32 = if encoding == DOT {
            bytes::get_u32(bytes, 0)
        } else {
            0
        };
        Dimensions { bytes, encoding, count, index: 0, offset, decoded: [0;8], previous }
    }

    /// How many dimensions have been given out.
    pub fn position(&self) -> (r: usize)
        ensures
            r == self.at(),
    {
        self.index
    }

    /// How many dimensions are still to come, as a range of one number.
    pub fn size_hint(&self) -> (r: (usize, Option<usize>))
        requires
            self.wf(),
        ensures
            r == (self.rest().len() as usize, Some(self.rest().len() as usize)),
            r.0 == self.rest().len(),
    {
        let remaining: usize = self.count - self.index;
        (remaining, Some(remaining))
    }

    fn open_group(&mut self, g: usize)
        requires
            old(self).wf(),
            old(self).grouped(),
            old(self).index == 8 * g,
            g < old(self).count / 8,
        ensures
            final(self).bytes@ == old(self).bytes@,
            final(self).bytes.len() == old(self).bytes.len(),
            final(self).count == old(self).count,
            final(self).encoding == old(self).encoding,
            final(self).index == old(self).index,
            final(self).offset == group_at(old(self).bytes@, old(self).count as int / 8, g + 1),
            final(self).previous == group_base(
                old(self).bytes@,
                old(self).encoding,
                old(self).count as int / 8,
                g + 1,
            ) % 0x1_0000_0000,
            forall|k: int|
                0 <= k < 8 ==> #[trigger] final(self).decoded@[k] == (group_base(
                    old(self).bytes@,
                    old(self).encoding,
                    old(self).count as int / 8,
                    g as int,
                ) + lane_sum(
                    old(self).bytes@[4 + g],
                    old(self).bytes@,
                    group_at(old(self).bytes@, old(self).count as int / 8, g as int),
                    k + 1,
                )) % 0x1_0000_0000,
    {
        let ghost b = self.bytes@;
        let ghost groups = self.count as int / 8;
        let ghost base = group_base(b, self.encoding, groups, g as int);
        proof {
            assert(self.opened() == g);
            group_at_monotone(b, groups, 0, g as int);
            group_at_monotone(b, groups, g + 1, groups);
            lane_pos_bounds(b[4 + g as int], 8);
        }
        let control: u8 = self.bytes[4 + g];
        let (decoded, offset): ([u32; 8], usize) = decode_at(
            control,
            self.bytes,
            self.offset,
            self.previous,
        );
        proof {
            assert forall|k: int| 0 <= k < 8 implies #[trigger] decoded@[k] == (base + lane_sum(
                control,
                b,
                self.offset as int,
                k + 1,
            )) % 0x1_0000_0000 by {
                let s = lane_sum(control, b, self.offset as int, k + 1);
                assert((base % 0x1_0000_0000 + s) % 0x1_0000_0000 == (base + s) % 0x1_0000_0000);
            }
        }
        self.decoded = decoded;
        self.offset = offset;
        self.previous = self.decoded[7];
        proof {
            assert(decoded@[7] == (base + lane_sum(control, b, group_at(b, groups, g as int), 8))
                % 0x1_0000_0000);
        }
    }

    /// The next dimension.
    pub fn next(&mut self) -> (r: Option<u32>)
        requires
            old(self).wf(),
        ensures
            final(self).wf(),
            final(self).source() == old(self).source(),
            final(self).total() == old(self).total(),
            final(self).kind() == old(self).kind(),
            r is None <==> old(self).at() == old(self).total(),
            r is None ==> final(self).at() == old(self).at(),
            r matches Some(d) ==> d == dim_at(
                old(self).source(),
                old(self).total(),
                old(self).kind(),
                old(self).at(),
            ) && final(self).at() == old(self).at() + 1,
    {
        if self.index == self.count {
            return None;
        }
        let i: usize = self.index;
        let ghost b = self.bytes@;
        let ghost groups = self.count as int / 8;
        let ghost was = *self;
        proof {
            group_at_monotone(b, groups, 0, groups);
        }
        if self.encoding == RAW {
            let d: u32 = bytes::get_u32(self.bytes, 4 * i);
            self.index = i + 1;
            return Some(d);
        }
        if self.encoding == U16 {
            let d: u32 = bytes::get_u16(self.bytes, 2 * i) as u32;
            self.index = i + 1;
            return Some(d);
        }
        if self.encoding == U24 {
            let at: usize = 3 * i;
            let d: u32 = self.bytes[at] as u32 + 0x100 * (self.bytes[at + 1] as u32) + 0x1_0000 * (
            self.bytes[at + 2] as u32);
            self.index = i + 1;
            return Some(d);
        }
        if i < self.count / 8 * 8 {
            if i % 8 == 0 {
                self.open_group(i / 8);
            }
            let d: u32 = self.decoded[i % 8];
            self.index = i + 1;
            proof {
                assert(self.opened() == i / 8 + 1);
            }
            return Some(d);
        }
        proof {
            assert(was.opened() == groups);
        }
        let d: u32 = bytes::get_u32(self.bytes, self.offset);
        self.offset = self.offset + 4;
        self.index = i + 1;
        Some(d)
    }

    /// What a fold goes over: the dimensions still to come. At two or three
    /// bytes each it goes on to the end of the bytes.
    pub open spec fn folded(&self) -> Seq<u32> {
        let whole = if self.kind() == U16 {
            self.source().len() / 2
        } else if self.kind() == U24 {
            self.source().len() / 3
        } else {
            self.total() as nat
        };
        dims_from(self.source(), whole as int, self.kind(), self.at())
    }

    /// Fold the dimensions, each with its number.
    pub fn fold_indexed<B, F: Fn(B, usize, u32) -> B>(self, value: B, f: F) -> (r: B)
        requires
            self.wf(),
            forall|v: B, i: usize, d: u32| #[trigger] f.requires((v, i, d)),
        ensures
            exists|steps: Seq<B>|
                #![trigger steps.len()]
                {
                    &&& steps.len() == self.folded().len() + 1
                    &&& steps[0] == value
                    &&& steps.last() == r
                    &&& forall|i: int|
                        0 <= i < self.folded().len() ==> #[trigger] f.ensures(
                            (steps[i], (self.at() + i) as usize, self.folded()[i]),
                            steps[i + 1],
                        )
                },
    {
        let ghost start = value;
        let mut value: B = value;
        let ghost mut steps: Seq<B> = seq![value];
        if self.encoding == U16 || self.encoding == U24 {
            let width: usize = if self.encoding == U16 {
                2
            } else {
                3
            };
            let whole: usize = self.bytes.len() / width;
            let mut i: usize = self.index;
            while i < whole
                invariant
                    self.wf(),
                    self.encoding == U16 && width == 2 || self.encoding == U24 && width == 3,
                    whole == self.bytes@.len() / width as nat,
                    self.index <= i <= whole,
                    forall|v: B, i: usize, d: u32| #[trigger] f.requires((v, i, d)),
                    steps.len() == i - self.at() + 1,
                    steps[0] == start,
                    steps.last() == value,
                    forall|k: int|
                        0 <= k < steps.len() - 1 ==> #[trigger] f.ensures(
                            (steps[k], (self.at() + k) as usize, self.folded()[k]),
                            steps[k + 1],
                        ),
                decreases whole - i,
            {
                let d: u32 = if self.encoding == U16 {
                    bytes::get_u16(self.bytes, 2 * i) as u32
                } else {
                    let at: usize = 3 * i;
                    self.bytes[at] as u32 + 0x100 * (self.bytes[at + 1] as u32) + 0x1_0000 * (
                    self.bytes[at + 2] as u32)
                };
                value = f(value, i, d);
                proof {
                    steps = steps.push(value);
                }
                i = i + 1;
            }
            return value;
        }
        let mut cursor = self;
        while cursor.index < cursor.count
            invariant
                cursor.wf(),
                self.wf(),
                cursor.source() == self.source(),
                cursor.total() == self.total(),
                cursor.kind() == self.kind(),
                self.at() <= cursor.at(),
                forall|v: B, i: usize, d: u32| #[trigger] f.requires((v, i, d)),
                steps.len() == cursor.at() - self.at() + 1,
                steps[0] == start,
                steps.last() == value,
                forall|i: int|
                    0 <= i < steps.len() - 1 ==> #[trigger] f.ensures(
                        (steps[i], (self.at() + i) as usize, self.rest()[i]),
                        steps[i + 1],
                    ),
            decreases cursor.count - cursor.index,
        {
            let i: usize = cursor.index;
            let dim: u32 = cursor.next().unwrap();
            value = f(value, i, dim);
            proof {
                steps = steps.push(value);
            }
        }
        proof {
            assert(self.folded() =~= self.rest());
        }
        value
    }
}

/// The gap before dimension `i`; the first is counted from itself.
pub open spec fn step(d: Seq<u32>, i: int) -> int {
    if i <= 0 {
        0
    } else {
        d[i] - d[i - 1]
    }
}

/// Control byte `g` of dimensions, of its first `k` lanes: a bit is set
/// where the gap takes two bytes.
pub open spec fn control_part(d: Seq<u32>, g: int, k: int) -> int
    decreases k,
{
    if k <= 0 {
        0
    } else {
        control_part(d, g, k - 1) + if step(d, 8 * g + k - 1) > 255 {
            lane_weight(k - 1)
        } else {
            0
        }
    }
}

/// The control bytes of dimensions.
pub open spec fn controls(d: Seq<u32>) -> Seq<u8> {
    Seq::new((d.len() / 8) as nat, |g: int| control_part(d, g, 8) as u8)
}

/// The bytes of one gap.
pub open spec fn step_bytes(gap: int) -> Seq<u8> {
    if gap > 255 {
        bytes::le16(gap as u16)
    } else {
        seq![gap as u8]
    }
}

/// The bytes of the gaps of all full groups.
pub open spec fn steps(d: Seq<u32>) -> Seq<Seq<u8>> {
    Seq::new((8 * (d.len() / 8)) as nat, |i: int| step_bytes(step(d, i)))
}

/// Dimensions as gaps: where they start, the control bytes, the gaps, and
/// the dimensions of the last, unfilled group as they are.
pub open spec fn dot_bytes(d: Seq<u32>) -> Seq<u8> {
    bytes::le32(d[0]) + controls(d) + bytes::joined(steps(d)) + bytes::le32_all(
        d.skip(8 * (d.len() as int / 8)),
    )
}

/// Whether every gap of a full group fits two bytes.
pub open spec fn steps_fit(d: Seq<u32>) -> bool {
    forall|i: int| 0 <= i < 8 * (d.len() as int / 8) ==> #[trigger] step(d, i) <= 0xFFFF
}

/// The low bytes of a number.
pub open spec fn low_bytes(v: u32, width: int) -> Seq<u8> {
    if width == 2 {
        bytes::le16(v as u16)
    } else if width == 3 {
        seq![(v % 0x100) as u8, (v / 0x100 % 0x100) as u8, (v / 0x1_0000 % 0x100) as u8]
    } else {
        bytes::le32(v)
    }
}

/// The dimensions at a fixed width.
pub open spec fn raw_parts(d: Seq<u32>, width: int) -> Seq<Seq<u8>> {
    Seq::new(d.len(), |i: int| low_bytes(d[i], width))
}

/// The narrowest fixed width of dimensions up to `max`.
pub open spec fn raw_width(max: u32) -> int {
    if max <= 0xFFFF {
        2
    } else if max < 0x100_0000 {
        3
    } else {
        4
    }
}

/// The mark of a fixed width.
pub open spec fn raw_kind(width: int) -> u8 {
    if width == 2 {
        U16
    } else if width == 3 {
        U24
    } else {
        RAW
    }
}

/// Dimensions as they are stored: gaps where those are shorter than the
/// narrowest fixed width.
pub open spec fn encoded(d: Seq<u32>, compact: bool) -> (u8, Seq<u8>) {
    let width = if compact && d.len() > 0 {
        raw_width(d.last())
    } else {
        4
    };
    if compact && d.len() >= 8 && steps_fit(d) && dot_bytes(d).len() < d.len() * width {
        (DOT, dot_bytes(d))
    } else {
        (raw_kind(width), bytes::joined(raw_parts(d, width)))
    }
}

fn raw<T>(values: &[(u32, T)], width: usize) -> (r: (u8, Vec<u8>))
    requires
        2 <= width <= 4,
        width == 2 ==> forall|i: int|
            0 <= i < values@.len() ==> #[trigger] dims(values@)[i] <= 0xFFFF,
    ensures
        r.0 == raw_kind(width as int),
        r.1@ == bytes::joined(raw_parts(dims(values@), width as int)),
{
    let ghost d = dims(values@);
    let ghost parts = raw_parts(d, width as int);
    let mut out: Vec<u8> = Vec::new();
    let mut i: usize = 0;
    proof {
        assert(out@ =~= bytes::joined(parts.take(0)));
    }
    while i < values.len()
        invariant
            i <= values@.len(),
            2 <= width <= 4,
            d == dims(values@),
            width == 2 ==> forall|i: int| 0 <= i < values@.len() ==> #[trigger] d[i] <= 0xFFFF,
            parts == raw_parts(d, width as int),
            out@ == bytes::joined(parts.take(i as int)),
        decreases values@.len() - i,
    {
        let v: u32 = values[i].0;
        let ghost before = out@;
        proof {
            assert(v == d[i as int]);
        }
        if width == 2 {
            bytes::put_u16(&mut out, v as u16);
        } else if width == 3 {
            out.push((v % 0x100) as u8);
            out.push((v / 0x100 % 0x100) as u8);
            out.push((v / 0x1_0000 % 0x100) as u8);
        } else {
            bytes::put_u32(&mut out, v);
        }
        proof {
            assert(out@ =~= before + parts[i as int]);
            assert(parts.take(i + 1).drop_last() =~= parts.take(i as int));
            assert(out@ =~= bytes::joined(parts.take(i + 1)));
        }
        i = i + 1;
    }
    proof {
        assert(parts.take(parts.len() as int) =~= parts);
    }
    let kind: u8 = if width == 2 {
        U16
    } else if width == 3 {
        U24
    } else {
        RAW
    };
    (kind, out)
}

proof fn control_bound(d: Seq<u32>, g: int, k: int)
    requires
        0 <= k <= 8,
    ensures
        0 <= control_part(d, g, k) < lane_weight(k),
    decreases k,
{
    if k > 0 {
        control_bound(d, g, k - 1);
    }
}

fn control_byte<T>(values: &[(u32, T)], g: usize) -> (r: u8)
    requires
        8 * g + 8 <= values.len(),
        gaps::ascending(dims(values@)),
    ensures
        r == control_part(dims(values@), g as int, 8),
{
    let ghost d = dims(values@);
    let mut control: u8 = 0;
    let mut weight: u8 = 1;
    let mut k: usize = 0;
    while k < 8
        invariant
            k <= 8,
            8 * g + 8 <= values.len(),
            d == dims(values@),
            gaps::ascending(d),
            control == control_part(d, g as int, k as int),
            k < 8 ==> weight == lane_weight(k as int),
        decreases 8 - k,
    {
        let i: usize = 8 * g + k;
        proof {
            control_bound(d, g as int, k + 1);
            assert(values@[i as int].0 == d[i as int]);
            if i > 0 {
                assert(values@[i - 1].0 == d[i - 1]);
                assert(d[i - 1] <= d[i as int]);
            }
        }
        if i > 0 && values[i].0 - values[i - 1].0 > 255 {
            control = control + weight;
        }
        k = k + 1;
        if k < 8 {
            weight = weight * 2;
        }
    }
    control
}

fn steps_small<T>(values: &[(u32, T)]) -> (r: bool)
    requires
        gaps::ascending(dims(values@)),
    ensures
        r == steps_fit(dims(values@)),
{
    let ghost d = dims(values@);
    let n: usize = values.len() / 8 * 8;
    let mut i: usize = 1;
    while i < n
        invariant
            1 <= i,
            n == 8 * (d.len() as int / 8),
            n <= values.len(),
            d == dims(values@),
            gaps::ascending(d),
            forall|k: int| 0 <= k < i ==> #[trigger] step(d, k) <= 0xFFFF,
        decreases n - i,
    {
        proof {
            assert(values@[i as int].0 == d[i as int]);
            assert(values@[i - 1].0 == d[i - 1]);
            assert(d[i - 1] <= d[i as int]);
        }
        if values[i].0 - values[i - 1].0 > 0xFFFF {
            proof {
                assert(step(d, i as int) > 0xFFFF);
            }
            return false;
        }
        i = i + 1;
    }
    true
}

fn dot<T>(values: &[(u32, T)]) -> (out: Vec<u8>)
    requires
        values@.len() > 0,
        gaps::ascending(dims(values@)),
        steps_fit(dims(values@)),
    ensures
        out@ == dot_bytes(dims(values@)),
{
    let ghost d = dims(values@);
    let groups: usize = values.len() / 8;
    let mut out: Vec<u8> = Vec::new();
    proof {
        assert(values@[0].0 == d[0]);
    }
    bytes::put_u32(&mut out, values[0].0);
    let ghost head = out@;
    let mut g: usize = 0;
    while g < groups
        invariant
            g <= groups,
            groups == d.len() / 8,
            groups <= values.len() / 8,
            d == dims(values@),
            gaps::ascending(d),
            out@ == head + controls(d).take(g as int),
        decreases groups - g,
    {
        let control: u8 = control_byte(values, g);
        out.push(control);
        proof {
            assert(controls(d).take(g + 1) =~= controls(d).take(g as int).push(control));
        }
        g = g + 1;
    }
    let ghost mid = out@;
    let n: usize = groups * 8;
    let mut i: usize = 0;
    proof {
        assert(mid =~= head + controls(d));
        assert(mid + bytes::joined(steps(d).take(0)) =~= mid);
    }
    while i < n
        invariant
            i <= n,
            n == 8 * (d.len() as int / 8),
            n <= values.len(),
            d == dims(values@),
            gaps::ascending(d),
            steps_fit(d),
            out@ == mid + bytes::joined(steps(d).take(i as int)),
        decreases n - i,
    {
        proof {
            assert(values@[i as int].0 == d[i as int]);
            if i > 0 {
                assert(values@[i - 1].0 == d[i - 1]);
                assert(d[i - 1] <= d[i as int]);
            }
            assert(step(d, i as int) <= 0xFFFF);
        }
        let gap: u32 = if i == 0 {
            0
        } else {
            values[i].0 - values[i - 1].0
        };
        let ghost before = out@;
        if gap > 255 {
            bytes::put_u16(&mut out, gap as u16);
        } else {
            out.push(gap as u8);
        }
        proof {
            assert(out@ =~= before + steps(d)[i as int]);
            assert(steps(d).take(i + 1).drop_last() =~= steps(d).take(i as int));
            assert(out@ =~= mid + bytes::joined(steps(d).take(i + 1)));
        }
        i = i + 1;
    }
    let ghost body = out@;
    let mut tail: Vec<u32> = Vec::new();
    proof {
        assert(steps(d).take(steps(d).len() as int) =~= steps(d));
    }
    while i < values.len()
        invariant
            n <= i <= values@.len(),
            d == dims(values@),
            tail@ == d.subrange(n as int, i as int),
        decreases values@.len() - i,
    {
        tail.push(values[i].0);
        proof {
            assert(d.subrange(n as int, i + 1) =~= d.subrange(n as int, i as int).push(
                d[i as int],
            ));
        }
        i = i + 1;
    }
    bytes::put_u32_all(&mut out, tail.as_slice());
    proof {
        assert(tail@ =~= d.skip(n as int));
        assert(out@ =~= dot_bytes(d));
    }
    out
}

/// Encode dimensions. Compact ones come in order.
pub fn encode<T>(values: &[(u32, T)], compact: bool) -> (r: (u8, Vec<u8>))
    requires
        compact ==> gaps::ascending(dims(values@)),
    ensures
        (r.0, r.1@) == encoded(dims(values@), compact),
{
    let ghost d = dims(values@);
    if !compact || values.len() == 0 {
        return raw(values, 4);
    }
    let last: usize = values.len() - 1;
    let maximum: u32 = values[last].0;
    proof {
        assert(maximum == d.last());
        assert forall|i: int| 0 <= i < values@.len() implies #[trigger] d[i] <= maximum by {
            assert(d[i] <= d[last as int]);
        }
    }
    let width: usize = if maximum <= 0xFFFF {
        2
    } else if maximum < 0x100_0000 {
        3
    } else {
        4
    };
    if values.len() >= 8 && steps_small(values) {
        let out: Vec<u8> = dot(values);
        if shorter(out.len(), values.len(), width) {
            return (DOT, out);
        }
    }
    raw(values, width)
}

fn shorter(len: usize, count: usize, width: usize) -> (r: bool)
    requires
        2 <= width <= 4,
    ensures
        r == (len < count * width),
{
    let total: u128 = if width == 2 {
        2 * (count as u128)
    } else if width == 3 {
        3 * (count as u128)
    } else {
        4 * (count as u128)
    };
    (len as u128) < total
}

} // verus!
