//! Little-endian integers in byte sequences.

use vstd::prelude::*;

verus! {

/// The number that bytes stand for, least significant first.
pub open spec fn le_value(s: Seq<u8>) -> nat
    decreases s.len(),
{
    if s.len() == 0 {
        0
    } else {
        s[0] as nat + 256 * le_value(s.drop_first())
    }
}

/// The `n` least significant bytes of a number, least significant first.
pub open spec fn le_bytes(v: nat, n: nat) -> Seq<u8>
    decreases n,
{
    if n == 0 {
        Seq::empty()
    } else {
        seq![(v % 256) as u8] + le_bytes(v / 256, (n - 1) as nat)
    }
}

/// 256 to the power `n`.
pub open spec fn pow256(n: nat) -> nat
    decreases n,
{
    if n == 0 {
        1
    } else {
        256 * pow256((n - 1) as nat)
    }
}

pub proof fn lemma_le_bytes_len(v: nat, n: nat)
    ensures
        le_bytes(v, n).len() == n,
    decreases n,
{
    if n > 0 {
        lemma_le_bytes_len(v / 256, (n - 1) as nat);
    }
}

/// A number that fits comes back from its bytes.
pub proof fn lemma_le_round_trip(v: nat, n: nat)
    requires
        v < pow256(n),
    ensures
        le_value(le_bytes(v, n)) == v,
    decreases n,
{
    if n > 0 {
        let rest = le_bytes(v / 256, (n - 1) as nat);
        let s = le_bytes(v, n);
        assert(v / 256 < pow256((n - 1) as nat));
        lemma_le_round_trip(v / 256, (n - 1) as nat);
        assert(s.drop_first() =~= rest);
        assert(s[0] == (v % 256) as u8);
    }
}

pub proof fn lemma_le_value_bound(s: Seq<u8>)
    ensures
        le_value(s) < pow256(s.len()),
    decreases s.len(),
{
    if s.len() > 0 {
        lemma_le_value_bound(s.drop_first());
    }
}

/// As many bytes that stand for the same number are the same.
pub proof fn lemma_le_value_injective(s: Seq<u8>, t: Seq<u8>)
    requires
        s.len() == t.len(),
        le_value(s) == le_value(t),
    ensures
        s == t,
    decreases s.len(),
{
    if s.len() > 0 {
        lemma_le_value_injective(s.drop_first(), t.drop_first());
        assert(s =~= seq![s[0]] + s.drop_first());
        assert(t =~= seq![t[0]] + t.drop_first());
    } else {
        assert(s =~= t);
    }
}

pub proof fn lemma_pow256()
    ensures
        pow256(2) == 0x1_0000,
        pow256(4) == 0x1_0000_0000,
        pow256(8) == 0x1_0000_0000_0000_0000,
{
    reveal_with_fuel(pow256, 9);
}

proof fn lemma_pow256_mono(m: nat, n: nat)
    requires
        m <= n,
    ensures
        pow256(m) <= pow256(n),
        1 <= pow256(m),
    decreases n,
{
    if m < n {
        lemma_pow256_mono(m, (n - 1) as nat);
    } else if m > 0 {
        lemma_pow256_mono((m - 1) as nat, (m - 1) as nat);
    }
}

/// The number in `n` bytes from `at` on.
fn le_uint(b: &[u8], at: usize, n: usize) -> (r: u64)
    requires
        n <= 8,
        at + n <= b@.len(),
    ensures
        r == le_value(b@.subrange(at as int, at + n)),
        r < pow256(n as nat),
{
    let len: usize = b.len();
    let mut v: u64 = 0;
    let mut i: usize = n;
    assert(b@.subrange(at + i, at + n) =~= Seq::<u8>::empty());
    while i > 0
        invariant
            i <= n <= 8,
            at + n <= len == b@.len(),
            v == le_value(b@.subrange(at + i, at + n)),
        decreases i,
    {
        let ghost s = b@.subrange(at + i, at + n);
        i -= 1;
        let ghost t = b@.subrange(at + i, at + n);
        proof {
            assert(t.drop_first() =~= s);
            lemma_le_value_bound(t);
            lemma_pow256_mono(t.len(), 8);
            lemma_pow256();
        }
        v = v * 256 + b[at + i] as u64;
    }
    proof {
        lemma_le_value_bound(b@.subrange(at as int, at + n));
    }
    v
}

/// The 16-bit number at `at`.
pub fn le_u16(b: &[u8], at: usize) -> (r: u16)
    requires
        at + 2 <= b@.len(),
    ensures
        r == le_value(b@.subrange(at as int, at + 2)),
{
    proof {
        lemma_pow256();
    }
    le_uint(b, at, 2) as u16
}

/// The 32-bit number at `at`.
pub fn le_u32(b: &[u8], at: usize) -> (r: u32)
    requires
        at + 4 <= b@.len(),
    ensures
        r == le_value(b@.subrange(at as int, at + 4)),
{
    proof {
        lemma_pow256();
    }
    le_uint(b, at, 4) as u32
}

/// The 64-bit number at `at`.
pub fn le_u64(b: &[u8], at: usize) -> (r: u64)
    requires
        at + 8 <= b@.len(),
    ensures
        r == le_value(b@.subrange(at as int, at + 8)),
{
    le_uint(b, at, 8)
}

/// Appends the `n` least significant bytes of `v`.
pub fn push_le(out: &mut Vec<u8>, v: u64, n: usize)
    ensures
        final(out)@ == old(out)@ + le_bytes(v as nat, n as nat),
    decreases n,
{
    let ghost base = out@;
    if n > 0 {
        out.push((v % 256) as u8);
        push_le(out, v / 256, n - 1);
    }
    assert(out@ =~= base + le_bytes(v as nat, n as nat));
}

/// Appends bytes.
pub fn push_bytes(out: &mut Vec<u8>, more: &[u8])
    ensures
        final(out)@ == old(out)@ + more@,
{
    let ghost base = out@;
    out.extend_from_slice(more);
    assert(out@ =~= base + more@);
}

/// `n` zero bytes.
pub open spec fn zeros(n: nat) -> Seq<u8> {
    Seq::new(n, |i: int| 0u8)
}

/// Appends `n` zero bytes.
pub fn push_zeros(out: &mut Vec<u8>, n: u64)
    ensures
        final(out)@ == old(out)@ + zeros(n as nat),
{
    let ghost base = out@;
    let mut i: u64 = 0;
    assert(out@ =~= base + zeros(0));
    while i < n
        invariant
            i <= n,
            out@ == base + zeros(i as nat),
        decreases n - i,
    {
        out.push(0);
        i += 1;
        assert(out@ =~= base + zeros(i as nat));
    }
}

/// Whether `part` stands in `s` at `at`.
pub open spec fn found_at(s: Seq<u8>, at: int, part: Seq<u8>) -> bool {
    0 <= at && at + part.len() <= s.len() && s.subrange(at, at + part.len()) == part
}

/// Parts of what stands there stand there too.
pub proof fn lemma_found_split(s: Seq<u8>, at: int, a: Seq<u8>, b: Seq<u8>)
    requires
        found_at(s, at, a + b),
    ensures
        found_at(s, at, a),
        found_at(s, at + a.len(), b),
{
    let t = s.subrange(at, at + a.len() + b.len());
    assert(s.subrange(at, at + a.len()) =~= t.subrange(0, a.len() as int));
    assert(t.subrange(0, a.len() as int) =~= a);
    assert(s.subrange(at + a.len(), at + a.len() + b.len()) =~= t.subrange(
        a.len() as int,
        t.len() as int,
    ));
    assert(t.subrange(a.len() as int, t.len() as int) =~= b);
}


/// A number that was written is read back.
pub proof fn lemma_found_number(s: Seq<u8>, at: int, v: nat, n: nat)
    requires
        found_at(s, at, le_bytes(v, n)),
        v < pow256(n),
    ensures
        le_value(s.subrange(at, at + n)) == v,
        at + n <= s.len(),
{
    lemma_le_bytes_len(v, n);
    lemma_le_round_trip(v, n);
}

/// Whether two sequences of bytes are the same.
pub fn same_bytes(a: &Vec<u8>, b: &[u8]) -> (r: bool)
    ensures
        r == (a@ == b@),
{
    if a.len() != b.len() {
        return false;
    }
    let mut i: usize = 0;
    while i < a.len()
        invariant
            i <= a.len(),
            a@.len() == b@.len(),
            forall|j: int| 0 <= j < i ==> a@[j] == b@[j],
        decreases a.len() - i,
    {
        if a[i] != b[i] {
            return false;
        }
        i += 1;
    }
    assert(a@ =~= b@);
    true
}

} // verus!
