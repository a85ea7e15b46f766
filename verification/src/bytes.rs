//! Byte strings: comparing, cutting, and the integer encodings in use.
use crate::seqs;
use vstd::prelude::*;

verus! {

/// Four bytes, the most significant first.
#[verifier::opaque]
pub open spec fn be32(n: nat) -> Seq<u8> {
    seq![
        (n / 0x100_0000 % 0x100) as u8,
        (n / 0x1_0000 % 0x100) as u8,
        (n / 0x100 % 0x100) as u8,
        (n % 0x100) as u8,
    ]
}

/// The number that four bytes encode, the most significant first.
#[verifier::opaque]
pub open spec fn from_be32(s: Seq<u8>) -> nat {
    (s[0] * 0x100_0000 + s[1] * 0x1_0000 + s[2] * 0x100 + s[3]) as nat
}

/// The last `width` bytes of `n`, the least significant first.
pub open spec fn little_endian(n: nat, width: nat) -> Seq<u8>
    decreases width,
{
    if width == 0 {
        Seq::<u8>::empty()
    } else {
        seq![(n % 0x100) as u8] + little_endian(n / 0x100, (width - 1) as nat)
    }
}

/// Decoding gives back what was encoded, for every 32-bit number.
pub proof fn be32_round_trip(n: nat)
    requires
        n <= u32::MAX,
    ensures
        be32(n).len() == 4,
        from_be32(be32(n)) == n,
{
    reveal(be32);
    reveal(from_be32);
    assert(n == (n / 0x100_0000 % 0x100) * 0x100_0000 + (n / 0x1_0000 % 0x100) * 0x1_0000 + (n
        / 0x100 % 0x100) * 0x100 + n % 0x100) by (nonlinear_arith)
        requires
            n <= 0xffff_ffff,
    ;
}

pub fn push_be32(out: &mut Vec<u8>, n: u32)
    ensures
        final(out)@ == old(out)@ + be32(n as nat),
{
    out.push((n / 0x100_0000) as u8);
    out.push((n / 0x1_0000 % 0x100) as u8);
    out.push((n / 0x100 % 0x100) as u8);
    out.push((n % 0x100) as u8);
    assert(n / 0x100_0000 % 0x100 == n / 0x100_0000);
    proof {
        reveal(be32);
    }
    assert(out@ =~= old(out)@ + be32(n as nat));
}

pub fn read_be32(b: &[u8], at: usize) -> (r: u32)
    requires
        at + 4 <= b@.len(),
    ensures
        r == from_be32(b@.subrange(at as int, at + 4)),
{
    proof {
        reveal(from_be32);
    }
    (b[at] as u32) * 0x100_0000 + (b[at + 1] as u32) * 0x1_0000 + (b[at + 2] as u32) * 0x100 + (
    b[at + 3] as u32)
}

/// Appends the last `width` bytes of `n`, the least significant first.
pub fn push_little_endian(out: &mut Vec<u8>, n: u128, width: u8)
    ensures
        final(out)@ == old(out)@ + little_endian(n as nat, width as nat),
{
    let mut rest = n;
    let mut left = width;
    let ghost was = out@;
    assert(was + little_endian(n as nat, width as nat) =~= out@ + little_endian(n as nat, width as nat));
    while left > 0
        invariant
            out@ + little_endian(rest as nat, left as nat) == was + little_endian(
                n as nat,
                width as nat,
            ),
        decreases left,
    {
        let ghost held = out@;
        out.push((rest % 0x100) as u8);
        assert(held + little_endian(rest as nat, left as nat) =~= out@ + little_endian(
            (rest / 0x100) as nat,
            (left - 1) as nat,
        ));
        rest = rest / 0x100;
        left = left - 1;
    }
    assert(out@ + little_endian(rest as nat, 0) =~= out@);
}

pub fn same_bytes(a: &[u8], b: &[u8]) -> (r: bool)
    ensures
        r == (a@ == b@),
{
    if a.len() != b.len() {
        return false;
    }
    for i in 0..a.len()
        invariant
            a@.len() == b@.len(),
            forall|j: int| 0 <= j < i ==> a@[j] == b@[j],
    {
        if a[i] != b[i] {
            return false;
        }
    }
    assert(a@ =~= b@);
    true
}

pub fn has_prefix(a: &[u8], p: &[u8]) -> (r: bool)
    ensures
        r == p@.is_prefix_of(a@),
{
    if p.len() > a.len() {
        return false;
    }
    for i in 0..p.len()
        invariant
            p@.len() <= a@.len(),
            forall|j: int| 0 <= j < i ==> a@[j] == p@[j],
    {
        if a[i] != p[i] {
            assert(a@.subrange(0, p@.len() as int)[i as int] != p@[i as int]);
            return false;
        }
    }
    assert(p@ =~= a@.subrange(0, p@.len() as int));
    true
}

pub fn slice_of(b: &[u8], from: usize, to: usize) -> (r: Vec<u8>)
    requires
        from <= to <= b@.len(),
    ensures
        r@ == b@.subrange(from as int, to as int),
{
    let mut out: Vec<u8> = Vec::new();
    let mut i: usize = from;
    while i < to
        invariant
            from <= i <= to <= b@.len(),
            out@ == b@.subrange(from as int, i as int),
        decreases to - i,
    {
        out.push(b[i]);
        i = i + 1;
        assert(out@ =~= b@.subrange(from as int, i as int));
    }
    out
}

pub fn position(b: &[u8], x: u8, from: usize) -> (r: usize)
    requires
        from <= b@.len(),
    ensures
        r == from + seqs::index_of(b@.skip(from as int), x),
        from <= r <= b@.len(),
{
    let mut i: usize = from;
    let n = b.len();
    let ghost t = b@.skip(from as int);
    while i < n && b[i] != x
        invariant
            from <= i <= n,
            n == b@.len(),
            t == b@.skip(from as int),
            forall|j: int| 0 <= j < i - from ==> t[j] != x,
        decreases n - i,
    {
        assert(t[i - from] == b@[i as int]);
        i = i + 1;
    }
    proof {
        if i < n {
            assert(t[i - from] == b@[i as int]);
        }
        seqs::lemma_index_of(t, x, i - from);
    }
    i
}

/// The contents of a list of byte strings.
pub open spec fn byte_strings(v: Seq<Vec<u8>>) -> Seq<Seq<u8>> {
    v.map_values(|s: Vec<u8>| s@)
}

/// The pieces of `b` between the separators.
pub fn split_on(b: &[u8], sep: u8) -> (r: Vec<Vec<u8>>)
    ensures
        byte_strings(r@) == seqs::split(b@, sep),
        r@.len() >= 1,
{
    let mut out: Vec<Vec<u8>> = Vec::new();
    let mut piece: Vec<u8> = Vec::new();
    assert(byte_strings(out@).push(piece@) =~= seqs::split(b@.take(0), sep));
    for i in 0..b.len()
        invariant
            byte_strings(out@).push(piece@) == seqs::split(b@.take(i as int), sep),
    {
        proof {
            seqs::lemma_split_step(b@, sep, i as int);
        }
        let ghost before = seqs::split(b@.take(i as int), sep);
        let c = b[i];
        if c == sep {
            out.push(piece);
            assert(byte_strings(out@) =~= before);
            piece = Vec::new();
            assert(byte_strings(out@).push(piece@) =~= before.push(Seq::<u8>::empty()));
        } else {
            let ghost held = piece@;
            piece.push(c);
            assert(before.last() == held);
            assert(byte_strings(out@).push(piece@) =~= before.update(
                before.len() - 1,
                held.push(c),
            ));
        }
    }
    out.push(piece);
    assert(b@.take(b@.len() as int) =~= b@);
    assert(byte_strings(out@) =~= seqs::split(b@, sep));
    out
}

} // verus!
