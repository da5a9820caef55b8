//! Numbers as little-endian bytes.

use vstd::prelude::*;

verus! {

/// The `width` low bytes of a number, least significant first.
pub open spec fn le_bytes(n: nat, width: nat) -> Seq<u8>
    decreases width,
{
    if width == 0 {
        Seq::empty()
    } else {
        seq![(n % 256) as u8] + le_bytes(n / 256, (width - 1) as nat)
    }
}

/// The number that little-endian bytes stand for.
pub open spec fn le_value(bytes: Seq<u8>) -> nat
    decreases bytes.len(),
{
    if bytes.len() == 0 {
        0
    } else {
        bytes[0] as nat + 256 * le_value(bytes.drop_first())
    }
}

/// How many numbers `width` bytes can hold.
pub open spec fn le_range(width: nat) -> nat
    decreases width,
{
    if width == 0 {
        1
    } else {
        256 * le_range((width - 1) as nat)
    }
}

/// A number of `width` bytes is below the range of that width.
pub proof fn lemma_le_value_bound(bytes: Seq<u8>)
    ensures
        le_value(bytes) < le_range(bytes.len()),
    decreases bytes.len(),
{
    if bytes.len() > 0 {
        lemma_le_value_bound(bytes.drop_first());
    }
}

/// Reading gives back the number that was written, where the width holds it.
pub proof fn law_le_roundtrip(n: nat, width: nat)
    requires
        n < le_range(width),
    ensures
        le_bytes(n, width).len() == width,
        le_value(le_bytes(n, width)) == n,
    decreases width,
{
    if width > 0 {
        law_le_roundtrip(n / 256, (width - 1) as nat);
        assert(le_bytes(n, width).drop_first() =~= le_bytes(n / 256, (width - 1) as nat));
    }
}

/// The bytes of a number have the width that was asked for.
pub proof fn lemma_le_bytes_len(n: nat, width: nat)
    ensures
        le_bytes(n, width).len() == width,
    decreases width,
{
    if width > 0 {
        lemma_le_bytes_len(n / 256, (width - 1) as nat);
    }
}

/// The ranges of four and eight bytes.
pub proof fn lemma_le_ranges()
    ensures
        le_range(4) == 0x1_0000_0000,
        le_range(8) == 0x1_0000_0000_0000_0000,
{
    reveal_with_fuel(le_range, 9);
}

/// Appends the `width` low bytes of a number, least significant first.
pub fn push_le(out: &mut Vec<u8>, n: u64, width: usize)
    ensures
        final(out)@ == old(out)@ + le_bytes(n as nat, width as nat),
{
    let mut rest: u64 = n;
    let mut done: usize = 0;
    assert(out@ + le_bytes(rest as nat, (width - done) as nat) =~= out@ + le_bytes(
        n as nat,
        width as nat,
    ));
    while done < width
        invariant
            done <= width,
            out@ + le_bytes(rest as nat, (width - done) as nat) == old(out)@ + le_bytes(
                n as nat,
                width as nat,
            ),
        decreases width - done,
    {
        let ghost before = out@;
        let low: u8 = (rest % 256) as u8;
        out.push(low);
        assert(out@ + le_bytes((rest / 256) as nat, (width - done - 1) as nat) =~= before
            + le_bytes(rest as nat, (width - done) as nat));
        rest = rest / 256;
        done += 1;
    }
    assert(out@ + le_bytes(rest as nat, 0) =~= out@);
}

/// Reads a number of at most eight little-endian bytes.
pub fn read_le(bytes: &[u8], at: usize, width: usize) -> (n: u64)
    requires
        at + width <= bytes@.len(),
        width <= 8,
    ensures
        n == le_value(bytes@.subrange(at as int, at + width)),
    decreases width,
{
    if width == 0 || bytes.len() == 0 {
        return 0;
    }
    let ghost part = bytes@.subrange(at as int, at + width);
    let high: u64 = read_le(bytes, at + 1, width - 1);
    proof {
        assert(part.drop_first() =~= bytes@.subrange(at + 1, at + width));
        lemma_le_value_bound(part);
        reveal_with_fuel(le_range, 9);
    }
    bytes[at] as u64 + 256 * high
}

/// The first byte counts ones, the next 256s, and so on.
pub proof fn law_the_first_byte_counts_ones(first: u8, rest: Seq<u8>, n: nat, width: nat)
    ensures
        le_value(seq![first] + rest) == first + 256 * le_value(rest),
        le_value(Seq::<u8>::empty()) == 0,
        width > 0 ==> le_bytes(n, width).len() == width && le_bytes(n, width)[0] == n % 256,
{
    let bytes = seq![first] + rest;
    assert(bytes.drop_first() =~= rest);
    lemma_le_bytes_len(n, width);
}

} // verus!
