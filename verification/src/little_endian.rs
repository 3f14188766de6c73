//! Numbers as little-endian bytes.

use vstd::arithmetic::power::pow;
use vstd::prelude::*;

verus! {

/// The lowest `width` bytes of a number, the lowest first.
pub open spec fn le_bytes(x: nat, width: nat) -> Seq<u8>
    decreases width,
{
    if width == 0 {
        Seq::empty()
    } else {
        seq![(x % 256) as u8] + le_bytes(x / 256, (width - 1) as nat)
    }
}

/// The number that little-endian bytes stand for.
pub open spec fn le_value(s: Seq<u8>) -> nat
    decreases s.len(),
{
    if s.len() == 0 {
        0
    } else {
        s[0] as nat + 256 * le_value(s.drop_first())
    }
}

/// As many bytes are written as were asked for.
pub proof fn le_bytes_len(x: nat, width: nat)
    ensures
        le_bytes(x, width).len() == width,
    decreases width,
{
    if width > 0 {
        le_bytes_len(x / 256, (width - 1) as nat);
    }
}

/// Reading the bytes of a number that fits gives the number back.
pub proof fn le_reads_back(x: nat, width: nat)
    requires
        x < pow(256, width),
    ensures
        le_value(le_bytes(x, width)) == x,
        le_bytes(x, width).len() == width,
    decreases width,
{
    reveal(pow);
    if width > 0 {
        let rest = le_bytes(x / 256, (width - 1) as nat);
        le_reads_back(x / 256, (width - 1) as nat);
        assert(le_bytes(x, width).drop_first() == rest);
    } else {
        assert(pow(256, 0) == 1);
    }
}

/// Bytes stand for a number that fits into them.
pub proof fn le_value_bound(s: Seq<u8>)
    ensures
        le_value(s) < pow(256, s.len()),
    decreases s.len(),
{
    reveal(pow);
    if s.len() > 0 {
        le_value_bound(s.drop_first());
    } else {
        assert(pow(256, 0) == 1);
    }
}

/// The ranges of four and of eight bytes.
pub proof fn pow256_values()
    ensures
        pow(256, 2) == 0x1_0000,
        pow(256, 4) == 0x1_0000_0000,
        pow(256, 8) == 0x1_0000_0000_0000_0000,
{
    reveal_with_fuel(pow, 9);
}

/// Appends the lowest `width` bytes of a number.
pub fn push_le(out: &mut Vec<u8>, x: u64, width: usize)
    ensures
        final(out)@ == old(out)@ + le_bytes(x as nat, width as nat),
{
    let ghost start = out@;
    let mut rest: u64 = x;
    for i in 0..width
        invariant
            out@ + le_bytes(rest as nat, (width - i) as nat) == start + le_bytes(
                x as nat,
                width as nat,
            ),
    {
        let ghost before = out@;
        let low: u8 = (rest % 256) as u8;
        out.push(low);
        assert(before + (seq![low] + le_bytes(rest as nat / 256, (width - i - 1) as nat)) == out@
            + le_bytes(rest as nat / 256, (width - i - 1) as nat));
        rest = rest / 256;
    }
}

/// Reads the number in `width` bytes that begin at `at`.
pub fn read_le(data: &[u8], at: usize, width: usize) -> (r: u64)
    requires
        width <= 8,
        at + width <= data@.len(),
    ensures
        r == le_value(data@.subrange(at as int, at + width)),
        r < pow(256, width as nat),
{
    let n: usize = data.len();
    let mut value: u64 = 0;
    let mut left: usize = width;
    assert(data@.subrange(at + width, at + width) == Seq::<u8>::empty());
    while left > 0
        invariant
            left <= width <= 8,
            at + width <= n == data@.len(),
            value == le_value(data@.subrange(at + left, at + width)),
        decreases left,
    {
        let ghost tail = data@.subrange(at + left, at + width);
        left -= 1;
        let b: u8 = data[at + left];
        let ghost s = data@.subrange(at + left, at + width);
        assert(s.drop_first() == tail);
        proof {
            le_value_bound(s);
            pow256_values();
            vstd::arithmetic::power::lemma_pow_increases(256, s.len(), 8);
        }
        value = b as u64 + 256 * value;
    }
    proof {
        le_value_bound(data@.subrange(at as int, at + width));
    }
    value
}

/// The lowest byte comes first: a number is its first byte and 256 times what the other bytes say.
pub proof fn lowest_byte_comes_first(x: nat, width: nat, low: u8, high: Seq<u8>)
    ensures
        le_value(seq![low] + high) == low as nat + 256 * le_value(high),
        le_value(Seq::<u8>::empty()) == 0,
        width > 0 ==> le_bytes(x, width)[0] as nat == x % 256 && le_bytes(x, width).skip(1)
            == le_bytes(x / 256, (width - 1) as nat),
{
    assert((seq![low] + high).drop_first() =~= high);
    le_bytes_len(x, width);
    if width > 0 {
        le_bytes_len(x / 256, (width - 1) as nat);
        assert(le_bytes(x, width).skip(1) =~= le_bytes(x / 256, (width - 1) as nat));
    }
}

}
