//! Numbers as big-endian bytes.

use vstd::prelude::*;

verus! {

/// The big-endian bytes of a number, `width` of them.
pub open spec fn be_bytes(n: nat, width: nat) -> Seq<u8>
    decreases width,
{
    if width == 0 {
        Seq::empty()
    } else {
        be_bytes(n / 256, (width - 1) as nat).push((n % 256) as u8)
    }
}

/// The number that big-endian bytes say.
pub open spec fn be_value(bytes: Seq<u8>) -> nat
    decreases bytes.len(),
{
    if bytes.len() == 0 {
        0
    } else {
        be_value(bytes.drop_last()) * 256 + bytes.last() as nat
    }
}

/// The first number that does not fit in `width` bytes.
pub open spec fn be_limit(width: nat) -> nat
    decreases width,
{
    if width == 0 {
        1
    } else {
        be_limit((width - 1) as nat) * 256
    }
}

/// A number that was written is read back.
pub proof fn lemma_be_roundtrip(n: nat, width: nat)
    requires
        n < be_limit(width),
    ensures
        be_bytes(n, width).len() == width,
        be_value(be_bytes(n, width)) == n,
    decreases width,
{
    if width > 0 {
        lemma_be_roundtrip(n / 256, (width - 1) as nat);
        assert(be_bytes(n, width).drop_last() =~= be_bytes(n / 256, (width - 1) as nat));
    }
}

pub proof fn lemma_be_len(n: nat, width: nat)
    ensures
        be_bytes(n, width).len() == width,
    decreases width,
{
    if width > 0 {
        lemma_be_len(n / 256, (width - 1) as nat);
    }
}

pub proof fn lemma_be_value_bound(bytes: Seq<u8>)
    ensures
        be_value(bytes) < be_limit(bytes.len()),
    decreases bytes.len(),
{
    if bytes.len() > 0 {
        lemma_be_value_bound(bytes.drop_last());
    }
}

pub proof fn lemma_be_limits()
    ensures
        be_limit(2) == 0x1_0000,
        be_limit(4) == 0x1_0000_0000,
        be_limit(8) == 0x1_0000_0000_0000_0000,
{
    reveal_with_fuel(be_limit, 9);
}

/// Appends a number in `width` bytes.
pub fn put_be(buf: &mut Vec<u8>, n: u64, width: usize)
    requires
        width <= 8,
    ensures
        final(buf)@ == old(buf)@ + be_bytes(n as nat, width as nat),
    decreases width,
{
    if width > 0 {
        put_be(buf, n / 256, width - 1);
        buf.push((n % 256) as u8);
    }
    assert(buf@ =~= old(buf)@ + be_bytes(n as nat, width as nat));
}

/// The number in `data[from..to]`.
pub fn get_be(data: &[u8], from: usize, to: usize) -> (n: u64)
    requires
        from <= to <= data@.len(),
        to - from <= 8,
    ensures
        n == be_value(data@.subrange(from as int, to as int)),
        n < be_limit((to - from) as nat),
{
    let mut n: u64 = 0;
    let mut i: usize = from;
    proof {
        lemma_be_limits();
        reveal_with_fuel(be_limit, 9);
    }
    while i < to
        invariant
            from <= i <= to <= data@.len(),
            to - from <= 8,
            n == be_value(data@.subrange(from as int, i as int)),
        decreases to - i,
    {
        proof {
            let part = data@.subrange(from as int, i as int);
            lemma_be_value_bound(part);
            lemma_be_limit_mono(part.len(), 7);
            assert(be_limit(7) == 0x100_0000_0000_0000) by {
                reveal_with_fuel(be_limit, 9);
            }
            assert(data@.subrange(from as int, i + 1).drop_last() =~= part);
        }
        n = n * 256 + data[i] as u64;
        i += 1;
    }
    proof {
        lemma_be_value_bound(data@.subrange(from as int, to as int));
    }
    n
}

proof fn lemma_be_limit_mono(a: nat, b: nat)
    requires
        a <= b,
    ensures
        be_limit(a) <= be_limit(b),
    decreases b,
{
    if a < b {
        lemma_be_limit_mono(a, (b - 1) as nat);
    }
}

/// The byte at the front of a number counts most.
pub proof fn law_first_byte_counts_most(bytes: Seq<u8>, last: u8)
    ensures
        be_value(Seq::empty()) == 0,
        be_value(bytes.push(last)) == be_value(bytes) * 256 + last,
{
    assert(bytes.push(last).drop_last() =~= bytes);
}

} // verus!
