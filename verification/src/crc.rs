//! CRC-32C (Castagnoli, reflected).

use vstd::prelude::*;

verus! {

/// The reflected polynomial.
pub const POLY: u32 = 0x82f6_3b78;

/// One bit of the division.
pub open spec fn crc_step(c: u32) -> u32 {
    if c & 1 == 1 {
        (c >> 1) ^ POLY
    } else {
        c >> 1
    }
}

/// `n` bits of the division.
pub open spec fn crc_steps(c: u32, n: nat) -> u32
    decreases n,
{
    if n == 0 {
        c
    } else {
        crc_step(crc_steps(c, (n - 1) as nat))
    }
}

/// One byte of the division.
pub open spec fn crc_byte(c: u32, b: u8) -> u32 {
    crc_steps(c ^ (b as u32), 8)
}

/// The division's state after all bytes.
pub open spec fn crc_state(s: Seq<u8>) -> u32
    decreases s.len(),
{
    if s.len() == 0 {
        0xffff_ffffu32
    } else {
        crc_byte(crc_state(s.drop_last()), s.last())
    }
}

/// The checksum of bytes.
pub open spec fn crc(s: Seq<u8>) -> u32 {
    !crc_state(s)
}

proof fn lemma_step_linear(a: u32, b: u32)
    ensures
        crc_step(a ^ b) == crc_step(a) ^ crc_step(b),
{
    assert((if (a ^ b) & 1 == 1 {
        ((a ^ b) >> 1) ^ 0x82f6_3b78u32
    } else {
        (a ^ b) >> 1
    }) == (if a & 1 == 1 {
        (a >> 1) ^ 0x82f6_3b78u32
    } else {
        a >> 1
    }) ^ (if b & 1 == 1 {
        (b >> 1) ^ 0x82f6_3b78u32
    } else {
        b >> 1
    })) by (bit_vector);
}

proof fn lemma_steps_linear(a: u32, b: u32, n: nat)
    ensures
        crc_steps(a ^ b, n) == crc_steps(a, n) ^ crc_steps(b, n),
    decreases n,
{
    if n > 0 {
        lemma_steps_linear(a, b, (n - 1) as nat);
        lemma_step_linear(crc_steps(a, (n - 1) as nat), crc_steps(b, (n - 1) as nat));
    }
}

/// While the low bits are zero, a step is a shift.
proof fn lemma_steps_shift(h: u32)
    requires
        h & 0xff == 0,
    ensures
        crc_steps(h, 8) == h >> 8,
{
    reveal_with_fuel(crc_steps, 9);
    assert(h & 1 == 0 && (h >> 1) & 1 == 0 && (h >> 1 >> 1) & 1 == 0 && (h >> 1 >> 1 >> 1) & 1 == 0
        && (h >> 1 >> 1 >> 1 >> 1) & 1 == 0 && (h >> 1 >> 1 >> 1 >> 1 >> 1) & 1 == 0 && (h >> 1 >> 1
        >> 1 >> 1 >> 1 >> 1) & 1 == 0 && (h >> 1 >> 1 >> 1 >> 1 >> 1 >> 1 >> 1) & 1 == 0 && h >> 1
        >> 1 >> 1 >> 1 >> 1 >> 1 >> 1 >> 1 == h >> 8) by (bit_vector)
        requires
            h & 0xff == 0,
    ;
}

/// A byte of the division by table: the rest shifted, and the table's entry for
/// the low byte.
proof fn lemma_table_step(x: u32)
    ensures
        crc_steps(x, 8) == (x >> 8) ^ crc_steps(x & 0xff, 8),
{
    let h = x & 0xffff_ff00;
    let l = x & 0xff;
    assert(x == (x & 0xffff_ff00) ^ (x & 0xff)) by (bit_vector);
    assert((x & 0xffff_ff00) & 0xff == 0) by (bit_vector);
    assert((x & 0xffff_ff00) >> 8 == x >> 8) by (bit_vector);
    lemma_steps_linear(h, l, 8);
    lemma_steps_shift(h);
}

/// Whether `t` holds eight steps for every byte.
pub open spec fn is_crc_table(t: Seq<u32>) -> bool {
    t.len() == 256 && forall|i: int| 0 <= i < 256 ==> #[trigger] t[i] == crc_steps(i as u32, 8)
}

/// The table of eight steps for every byte.
pub fn build_crc32c_table() -> (r: Vec<u32>)
    ensures
        is_crc_table(r@),
{
    let mut table: Vec<u32> = Vec::new();
    let mut i: u32 = 0;
    while i < 256
        invariant
            i <= 256,
            table@.len() == i,
            forall|k: int| 0 <= k < i ==> #[trigger] table@[k] == crc_steps(k as u32, 8),
        decreases 256 - i,
    {
        let mut c: u32 = i;
        let mut j: u32 = 0;
        while j < 8
            invariant
                j <= 8,
                c == crc_steps(i, j as nat),
            decreases 8 - j,
        {
            let bit: u32 = c & 1;
            assert(c & 1 == 0 || c & 1 == 1) by (bit_vector);
            c =
            if bit != 0 {
                (c >> 1) ^ POLY
            } else {
                c >> 1
            };
            j += 1;
        }
        table.push(c);
        i += 1;
    }
    table
}

/// The checksum of bytes, by table.
fn crc32c_by(table: &Vec<u32>, data: &[u8]) -> (r: u32)
    requires
        is_crc_table(table@),
    ensures
        r == crc(data@),
{
    let mut c: u32 = 0xffff_ffff;
    let mut i: usize = 0;
    assert(data@.subrange(0, 0) =~= Seq::<u8>::empty());
    while i < data.len()
        invariant
            i <= data@.len(),
            is_crc_table(table@),
            c == crc_state(data@.subrange(0, i as int)),
        decreases data@.len() - i,
    {
        let b: u32 = data[i] as u32;
        let x: u32 = c ^ b;
        let low: u32 = x & 0xff;
        assert(x & 0xff < 256) by (bit_vector);
        assert((c ^ b) >> 8 == c >> 8) by (bit_vector)
            requires
                b < 256,
        ;
        proof {
            lemma_table_step(x);
            assert(data@.subrange(0, i + 1).drop_last() =~= data@.subrange(0, i as int));
            assert(table@[low as int] == crc_steps(low, 8));
        }
        c = (c >> 8) ^ table[low as usize];
        i += 1;
    }
    assert(data@.subrange(0, i as int) =~= data@);
    !c
}

/// The CRC-32C checksum of bytes.
pub fn crc32c(data: &[u8]) -> (r: u32)
    ensures
        r == crc(data@),
{
    let table = build_crc32c_table();
    crc32c_by(&table, data)
}

// ---------------------------------------------------------------------------
// A changed byte is noticed
// ---------------------------------------------------------------------------

proof fn lemma_step_injective(a: u32, b: u32)
    requires
        crc_step(a) == crc_step(b),
    ensures
        a == b,
{
    assert((if a & 1 == 1 {
        (a >> 1) ^ 0x82f6_3b78u32
    } else {
        a >> 1
    }) == (if b & 1 == 1 {
        (b >> 1) ^ 0x82f6_3b78u32
    } else {
        b >> 1
    }) ==> a == b) by (bit_vector);
}

proof fn lemma_steps_injective(a: u32, b: u32, n: nat)
    requires
        crc_steps(a, n) == crc_steps(b, n),
    ensures
        a == b,
    decreases n,
{
    if n > 0 {
        lemma_step_injective(crc_steps(a, (n - 1) as nat), crc_steps(b, (n - 1) as nat));
        lemma_steps_injective(a, b, (n - 1) as nat);
    }
}

/// Byte sequences that differ in exactly one byte have different checksums.
pub proof fn lemma_crc_detects_changed_byte(s: Seq<u8>, t: Seq<u8>, i: int)
    requires
        s.len() == t.len(),
        0 <= i < s.len(),
        s[i] != t[i],
        forall|j: int| 0 <= j < s.len() && j != i ==> s[j] == t[j],
    ensures
        crc(s) != crc(t),
{
    lemma_state_differs(s, t, i);
    let a = crc_state(s);
    let b = crc_state(t);
    assert(a != b ==> !a != !b) by (bit_vector);
}

proof fn lemma_state_differs(s: Seq<u8>, t: Seq<u8>, i: int)
    requires
        s.len() == t.len(),
        0 <= i < s.len(),
        s[i] != t[i],
        forall|j: int| 0 <= j < s.len() && j != i ==> s[j] == t[j],
    ensures
        crc_state(s) != crc_state(t),
    decreases s.len(),
{
    let c = crc_state(s.drop_last());
    let d = crc_state(t.drop_last());
    let x = s.last() as u32;
    let y = t.last() as u32;
    if i == s.len() - 1 {
        assert(s.drop_last() =~= t.drop_last());
        assert(c == d && x != y ==> c ^ x != d ^ y) by (bit_vector);
    } else {
        lemma_state_differs(s.drop_last(), t.drop_last(), i);
        assert(c != d && x == y ==> c ^ x != d ^ y) by (bit_vector);
    }
    if crc_state(s) == crc_state(t) {
        lemma_steps_injective(c ^ x, d ^ y, 8);
    }
}

// ---------------------------------------------------------------------------
// Changes within four bytes are noticed
// ---------------------------------------------------------------------------

/// The division's state after more bytes, from a state on.
spec fn crc_from(c: u32, w: Seq<u8>) -> u32
    decreases w.len(),
{
    if w.len() == 0 {
        c
    } else {
        crc_byte(crc_from(c, w.drop_last()), w.last())
    }
}

spec fn byte_or_zero(w: Seq<u8>, i: int) -> u32 {
    if i < w.len() {
        w[i] as u32
    } else {
        0
    }
}

/// Up to four bytes as one word.
spec fn word_of(w: Seq<u8>) -> u32 {
    byte_or_zero(w, 0) ^ (byte_or_zero(w, 1) << 8) ^ (byte_or_zero(w, 2) << 16) ^ (byte_or_zero(
        w,
        3,
    ) << 24)
}

proof fn lemma_state_from(s: Seq<u8>, p: int, n: int)
    requires
        0 <= p <= n <= s.len(),
    ensures
        crc_state(s.subrange(0, n)) == crc_from(crc_state(s.subrange(0, p)), s.subrange(p, n)),
    decreases n,
{
    if p < n {
        lemma_state_from(s, p, n - 1);
        assert(s.subrange(0, n).drop_last() =~= s.subrange(0, n - 1));
        assert(s.subrange(p, n).drop_last() =~= s.subrange(p, n - 1));
    }
}

proof fn lemma_steps_add(c: u32, m: nat, n: nat)
    ensures
        crc_steps(c, m + n) == crc_steps(crc_steps(c, m), n),
    decreases n,
{
    if n > 0 {
        lemma_steps_add(c, m, (n - 1) as nat);
    }
}

/// A byte in front of which there are zeros is left once these are shifted out.
proof fn lemma_shifted_byte(b: u32, n: nat)
    requires
        b < 256,
        n < 4,
    ensures
        crc_steps(b << ((8 * n) as u32), 8 * n) == b,
    decreases n,
{
    if n == 0 {
        assert(b << 0u32 == b) by (bit_vector);
    } else if n == 1 {
        assert((b << 8u32) & 0xff == 0 && (b << 8u32) >> 8 == b) by (bit_vector)
            requires
                b < 256,
        ;
        lemma_steps_shift(b << 8u32);
    } else if n == 2 {
        assert((b << 16u32) & 0xff == 0 && (b << 16u32) >> 8 == b << 8u32) by (bit_vector)
            requires
                b < 256,
        ;
        lemma_steps_shift(b << 16u32);
        lemma_shifted_byte(b, 1);
        lemma_steps_add(b << 16u32, 8, 8);
    } else {
        assert((b << 24u32) & 0xff == 0 && (b << 24u32) >> 8 == b << 16u32) by (bit_vector)
            requires
                b < 256,
        ;
        lemma_steps_shift(b << 24u32);
        lemma_shifted_byte(b, 2);
        lemma_steps_add(b << 24u32, 8, 16);
    }
}

proof fn lemma_word_with(w: Seq<u8>)
    requires
        0 < w.len() <= 4,
    ensures
        word_of(w) == word_of(w.drop_last()) ^ ((w.last() as u32) << ((8 * (w.len() - 1)) as u32)),
{
    let a = byte_or_zero(w, 0);
    let b = byte_or_zero(w, 1);
    let c = byte_or_zero(w, 2);
    let d = byte_or_zero(w, 3);
    let z = 0u32;
    assert(a ^ (z << 8) ^ (z << 16) ^ (z << 24) == (z ^ (z << 8) ^ (z << 16) ^ (z << 24)) ^ (a
        << 0u32) && a ^ (b << 8) ^ (z << 16) ^ (z << 24) == (a ^ (z << 8) ^ (z << 16) ^ (z << 24))
        ^ (b << 8u32) && a ^ (b << 8) ^ (c << 16) ^ (z << 24) == (a ^ (b << 8) ^ (z << 16) ^ (z
        << 24)) ^ (c << 16u32) && a ^ (b << 8) ^ (c << 16) ^ (d << 24) == (a ^ (b << 8) ^ (c << 16)
        ^ (z << 24)) ^ (d << 24u32)) by (bit_vector)
        requires
            z == 0,
    ;
}

/// Up to four bytes are divided as one word.
proof fn lemma_from_word(c: u32, w: Seq<u8>)
    requires
        w.len() <= 4,
    ensures
        crc_from(c, w) == crc_steps(c ^ word_of(w), 8 * w.len()),
    decreases w.len(),
{
    if w.len() == 0 {
        let z = 0u32;
        assert(c ^ (z ^ (z << 8) ^ (z << 16) ^ (z << 24)) == c) by (bit_vector)
            requires
                z == 0,
        ;
    } else {
        let n = (w.len() - 1) as nat;
        let front = w.drop_last();
        let word = word_of(front);
        let b = w.last() as u32;
        let high = b << ((8 * n) as u32);
        lemma_from_word(c, front);
        lemma_word_with(w);
        lemma_shifted_byte(b, n);
        lemma_steps_linear(c ^ word, high, 8 * n);
        assert((c ^ word) ^ high == c ^ (word ^ high)) by (bit_vector);
        lemma_steps_add(c ^ word_of(w), 8 * n, 8);
    }
}

proof fn lemma_from_injective(c: u32, v: Seq<u8>, w: Seq<u8>)
    requires
        v.len() == w.len() <= 4,
        crc_from(c, v) == crc_from(c, w),
    ensures
        v == w,
{
    lemma_from_word(c, v);
    lemma_from_word(c, w);
    let x = word_of(v);
    let y = word_of(w);
    lemma_steps_injective(c ^ x, c ^ y, 8 * v.len());
    assert(c ^ x == c ^ y ==> x == y) by (bit_vector);
    let (v0, v1, v2, v3) = (
        byte_or_zero(v, 0),
        byte_or_zero(v, 1),
        byte_or_zero(v, 2),
        byte_or_zero(v, 3),
    );
    let (w0, w1, w2, w3) = (
        byte_or_zero(w, 0),
        byte_or_zero(w, 1),
        byte_or_zero(w, 2),
        byte_or_zero(w, 3),
    );
    assert(v0 == w0 && v1 == w1 && v2 == w2 && v3 == w3) by (bit_vector)
        requires
            v0 < 256,
            v1 < 256,
            v2 < 256,
            v3 < 256,
            w0 < 256,
            w1 < 256,
            w2 < 256,
            w3 < 256,
            v0 ^ (v1 << 8) ^ (v2 << 16) ^ (v3 << 24) == w0 ^ (w1 << 8) ^ (w2 << 16) ^ (w3 << 24),
    ;
    assert(v =~= w);
}

proof fn lemma_from_keeps_difference(c: u32, d: u32, w: Seq<u8>)
    requires
        c != d,
    ensures
        crc_from(c, w) != crc_from(d, w),
    decreases w.len(),
{
    if w.len() > 0 {
        lemma_from_keeps_difference(c, d, w.drop_last());
        let x = crc_from(c, w.drop_last());
        let y = crc_from(d, w.drop_last());
        let b = w.last() as u32;
        assert(x != y ==> x ^ b != y ^ b) by (bit_vector);
        if crc_from(c, w) == crc_from(d, w) {
            lemma_steps_injective(x ^ b, y ^ b, 8);
        }
    }
}

/// Byte sequences that differ, but only within four adjacent bytes, have
/// different checksums.
pub proof fn lemma_crc_detects_burst(s: Seq<u8>, t: Seq<u8>, p: int)
    requires
        s.len() == t.len(),
        s != t,
        0 <= p < s.len(),
        forall|j: int| 0 <= j < s.len() && !(p <= j < p + 4) ==> s[j] == t[j],
    ensures
        crc(s) != crc(t),
{
    let n = s.len() as int;
    let m = if p + 4 < n {
        p + 4
    } else {
        n
    };
    lemma_state_from(s, p, m);
    lemma_state_from(t, p, m);
    lemma_state_from(s, m, n);
    lemma_state_from(t, m, n);
    assert(s.subrange(0, n) =~= s && t.subrange(0, n) =~= t);
    assert(s.subrange(0, p) =~= t.subrange(0, p));
    assert(s.subrange(m, n) =~= t.subrange(m, n));
    let c = crc_state(s.subrange(0, p));
    let x = s.subrange(p, m);
    let y = t.subrange(p, m);
    if x == y {
        assert(s =~= s.subrange(0, p) + x + s.subrange(m, n));
        assert(t =~= t.subrange(0, p) + y + t.subrange(m, n));
    }
    if crc_from(c, x) == crc_from(c, y) {
        lemma_from_injective(c, x, y);
    }
    lemma_from_keeps_difference(crc_from(c, x), crc_from(c, y), s.subrange(m, n));
    let a = crc_state(s);
    let b = crc_state(t);
    assert(a != b ==> !a != !b) by (bit_vector);
}

} // verus!
