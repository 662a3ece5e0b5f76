//! Variable-length integers: seven bits a byte, least significant first.
use vstd::prelude::*;

verus! {

/// The bytes of `x`.
pub open spec fn vint(x: nat) -> Seq<u8>
    decreases x,
{
    if x < 128 {
        seq![x as u8]
    } else {
        seq![(x % 128 + 128) as u8] + vint(x / 128)
    }
}

/// One above the largest value that bytes `k` to 9 can add.
pub open spec fn vint_limit(k: int) -> int
    decreases 10 - k,
{
    if k >= 9 {
        2
    } else {
        128 * vint_limit(k + 1)
    }
}

/// Value and end of the integer whose byte `k` stands at `at`; nothing if it
/// is cut off or does not fit in 64 bits.
pub open spec fn vint_from(b: Seq<u8>, at: int, k: int) -> Option<(nat, int)>
    decreases 10 - k,
{
    if at >= b.len() || k > 9 || (k == 9 && b[at] > 1) {
        None
    } else if b[at] < 128 {
        Some((b[at] as nat, at + 1))
    } else {
        match vint_from(b, at + 1, k + 1) {
            Some((v, end)) => Some(((b[at] - 128 + 128 * v) as nat, end)),
            None => None,
        }
    }
}

/// Value and end of the integer at `at`.
pub open spec fn vint_at(b: Seq<u8>, at: int) -> Option<(nat, int)> {
    vint_from(b, at, 0)
}

proof fn vint_limits()
    ensures
        vint_limit(0) == 0x1_0000_0000_0000_0000,
{
    reveal_with_fuel(vint_limit, 11);
}

/// What was read stays within its limits.
pub proof fn vint_from_bound(b: Seq<u8>, at: int, k: int)
    requires
        0 <= k <= 9,
        vint_from(b, at, k) is Some,
    ensures
        vint_from(b, at, k)->Some_0.0 < vint_limit(k),
        at < vint_from(b, at, k)->Some_0.1 <= b.len(),
    decreases 10 - k,
{
    if k < 9 {
        limit_floor(k);
        if b[at] >= 128 {
            vint_from_bound(b, at + 1, k + 1);
        }
    }
}

proof fn limit_floor(k: int)
    requires
        0 <= k < 9,
    ensures
        vint_limit(k) >= 128,
    decreases 9 - k,
{
    reveal_with_fuel(vint_limit, 2);
    if k < 8 {
        limit_floor(k + 1);
    }
}

/// An integer is read back from wherever its bytes were written.
pub proof fn vint_roundtrip_from(b: Seq<u8>, at: int, k: int, x: nat)
    requires
        0 <= at,
        0 <= k <= 9,
        x < vint_limit(k),
        at + vint(x).len() <= b.len(),
        b.subrange(at, at + vint(x).len()) == vint(x),
    ensures
        vint_from(b, at, k) == Some((x, at + vint(x).len())),
    decreases 10 - k,
{
    let s = vint(x);
    assert(b[at] == b.subrange(at, at + s.len())[0]);
    if x >= 128 {
        assert(s.len() == 1 + vint(x / 128).len());
        let tail = vint(x / 128);
        assert forall|i: int| 0 <= i < tail.len() implies b[at + 1 + i] == #[trigger] tail[i] by {
            assert(b.subrange(at, at + s.len())[i + 1] == s[i + 1]);
        }
        assert(b.subrange(at + 1, at + 1 + tail.len()) =~= tail);
        vint_roundtrip_from(b, at + 1, k + 1, x / 128);
    }
}

/// A written 64-bit integer is read back whatever follows it.
pub proof fn vint_roundtrip(before: Seq<u8>, x: u64, after: Seq<u8>)
    ensures
        vint_at(before + vint(x as nat) + after, before.len() as int) == Some(
            (x as nat, (before.len() + vint(x as nat).len()) as int),
        ),
{
    let b = before + vint(x as nat) + after;
    vint_limits();
    assert(b.subrange(before.len() as int, (before.len() + vint(x as nat).len()) as int) =~= vint(x as nat));
    vint_roundtrip_from(b, before.len() as int, 0, x as nat);
}

/// A 32-bit integer takes at most five bytes.
pub proof fn vint_len32(x: nat)
    requires
        x <= u32::MAX,
    ensures
        1 <= vint(x).len() <= 5,
{
    reveal_with_fuel(vint, 6);
    assert(x / 128 / 128 / 128 / 128 < 128);
}

/// Append an integer.
pub fn write_vint(out: &mut Vec<u8>, x: u64)
    ensures
        final(out)@ == old(out)@ + vint(x as nat),
{
    let ghost before = out@;
    let mut rest: u64 = x;
    while rest >= 128
        invariant
            out@ + vint(rest as nat) == before + vint(x as nat),
        decreases rest,
    {
        let ghost now = out@;
        out.push((rest % 128 + 128) as u8);
        proof {
            assert(now + vint(rest as nat) =~= out@ + vint((rest / 128) as nat));
        }
        rest = rest / 128;
    }
    out.push(rest as u8);
    proof {
        assert(out@ =~= before + vint(x as nat));
    }
}

fn read_from(b: &[u8], at: usize, k: usize) -> (r: Option<(u64, usize)>)
    requires
        k <= 9,
        at <= b.len(),
    ensures
        match (r, vint_from(b@, at as int, k as int)) {
            (Some((v, end)), Some((w, stop))) => v == w && end == stop && v < vint_limit(k as int)
                && at < end <= b.len(),
            (None, None) => true,
            _ => false,
        },
    decreases 10 - k,
{
    proof {
        vint_limits();
        if vint_from(b@, at as int, k as int) is Some {
            vint_from_bound(b@, at as int, k as int);
        }
    }
    if at >= b.len() || (k == 9 && b[at] > 1) {
        return None;
    }
    if b[at] < 128 {
        return Some((b[at] as u64, at + 1));
    }
    match read_from(b, at + 1, k + 1) {
        Some((v, end)) => {
            proof {
                limit_below(k as int);
            }
            Some(((b[at] - 128) as u64 + 128 * v, end))
        },
        None => None,
    }
}

proof fn limit_below(k: int)
    requires
        0 <= k < 9,
    ensures
        128 * vint_limit(k + 1) == vint_limit(k) <= 0x1_0000_0000_0000_0000,
    decreases k,
{
    vint_limits();
    limit_floor(k);
    if k > 0 {
        limit_below(k - 1);
    }
}

/// Value and end of the integer at `at`; nothing if it is cut off or does not
/// fit in 64 bits.
pub fn read_vint(b: &[u8], at: usize) -> (r: Option<(u64, usize)>)
    requires
        at <= b.len(),
    ensures
        match (r, vint_at(b@, at as int)) {
            (Some((v, end)), Some((w, stop))) => v == w && end == stop && at < end <= b.len(),
            (None, None) => true,
            _ => false,
        },
{
    read_from(b, at, 0)
}

} // verus!
