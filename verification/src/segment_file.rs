//! Immutable segment files: the compressed column blobs of one partition.
//!
//! A file is a header of 64 bytes, the blobs, each at a multiple of 64, an
//! index of the blobs sorted by column and segment, and a footer of 16 bytes.
//! All integers are little-endian.
//!
//! ```text
//! header:  "DXSEG\0" | version u16 | flags u32 | partition u32 | columns u32
//!          | segments u32 | index offset u64 | index length u64
//!          | checksum u32 of all before it | zeros
//! index:   per blob: column u16 | segment u32 | offset u64 | length u32
//!          | checksum u32
//! footer:  checksum u32 of the index | file length u64 | "DXSE"
//! ```

use vstd::prelude::*;
use vstd::string::*;
use std::collections::HashSet;
use crate::bytes::{le_bytes, lemma_le_bytes_len, push_bytes, push_le, push_zeros, zeros};
use crate::crc::{crc, crc32c};

verus! {

pub const VERSION: u16 = 1;

pub const HEADER_LEN: usize = 64;

/// Bytes of the header that its checksum covers.
pub const HEADER_CRC_COVERAGE: usize = 40;

/// Length of an index entry.
pub const ENTRY_LEN: usize = 22;

pub const FOOTER_LEN: usize = 16;

/// Blobs stand at multiples of this.
pub const BLOB_ALIGN: u64 = 64;

/// Where a blob stands, and its checksum.
#[derive(Debug, Clone, Copy, PartialEq, Eq, Structural)]
pub struct IndexEntry {
    pub col_idx: u16,
    pub segment_id: i32,
    pub offset: u64,
    pub len: u32,
    pub crc: u32,
}

#[derive(Debug, Clone, Copy, PartialEq, Eq, Structural)]
pub struct SegmentFileHeader {
    pub version: u16,
    pub partition_id: u32,
    pub n_columns: u32,
    pub n_segments: u32,
    pub index_offset: u64,
    pub index_len: u64,
}

/// "DXSEG\0".
pub open spec fn magic() -> Seq<u8> {
    seq![0x44u8, 0x58u8, 0x53u8, 0x45u8, 0x47u8, 0u8]
}

/// "DXSE".
pub open spec fn footer_magic() -> Seq<u8> {
    seq![0x44u8, 0x58u8, 0x53u8, 0x45u8]
}

// ---------------------------------------------------------------------------
// Layout
// ---------------------------------------------------------------------------

/// A blob with its column and segment.
pub struct Blob {
    pub col_idx: u16,
    pub segment_id: i32,
    pub data: Seq<u8>,
}

/// The blobs of a batch.
pub open spec fn blobs_of(v: Seq<(u16, i32, Vec<u8>)>) -> Seq<Blob> {
    v.map_values(
        |b: (u16, i32, Vec<u8>)| Blob { col_idx: b.0, segment_id: b.1, data: b.2@ },
    )
}

/// The least multiple of `align` that is at least `v`.
pub open spec fn rounded_up(v: int, align: int) -> int {
    (v + align - 1) / align * align
}

/// Where the first `n` blobs end.
pub open spec fn data_end(blobs: Seq<Blob>, n: int) -> int
    decreases n, 0int,
{
    if n <= 0 {
        HEADER_LEN as int
    } else {
        blob_start(blobs, n - 1) + blobs[n - 1].data.len()
    }
}

/// Where blob `n` starts.
pub open spec fn blob_start(blobs: Seq<Blob>, n: int) -> int
    decreases n, 1int,
{
    rounded_up(data_end(blobs, n), BLOB_ALIGN as int)
}

/// The bytes of the first `n` blobs, filled up with zeros in front of each.
pub open spec fn data_bytes(blobs: Seq<Blob>, n: int) -> Seq<u8>
    decreases n,
{
    if n <= 0 {
        Seq::empty()
    } else {
        data_bytes(blobs, n - 1) + zeros(
            (blob_start(blobs, n - 1) - data_end(blobs, n - 1)) as nat,
        ) + blobs[n - 1].data
    }
}

/// The index entry of blob `i`.
pub open spec fn entry_of(blobs: Seq<Blob>, i: int) -> IndexEntry {
    IndexEntry {
        col_idx: blobs[i].col_idx,
        segment_id: blobs[i].segment_id,
        offset: blob_start(blobs, i) as u64,
        len: blobs[i].data.len() as u32,
        crc: crc(blobs[i].data),
    }
}

/// The index entries of all blobs, in the order in which they were written.
pub open spec fn entries_of(blobs: Seq<Blob>) -> Seq<IndexEntry> {
    Seq::new(blobs.len(), |i: int| entry_of(blobs, i))
}

/// Whether `a` comes before `b`, or at the same place.
pub open spec fn key_le(a: IndexEntry, b: IndexEntry) -> bool {
    a.col_idx < b.col_idx || (a.col_idx == b.col_idx && a.segment_id <= b.segment_id)
}


/// Sorted by column and segment.
pub open spec fn is_sorted(s: Seq<IndexEntry>) -> bool {
    forall|i: int, j: int| 0 <= i <= j < s.len() ==> key_le(#[trigger] s[i], #[trigger] s[j])
}

/// `e` inserted behind the entries that do not come after it.
pub open spec fn inserted(s: Seq<IndexEntry>, e: IndexEntry) -> Seq<IndexEntry>
    decreases s.len(),
{
    if s.len() == 0 || key_le(s.last(), e) {
        s.push(e)
    } else {
        inserted(s.drop_last(), e).push(s.last())
    }
}

/// The entries sorted by column and segment; entries with the same key stay in
/// their order.
pub open spec fn sorted(s: Seq<IndexEntry>) -> Seq<IndexEntry>
    decreases s.len(),
{
    if s.len() == 0 {
        s
    } else {
        inserted(sorted(s.drop_last()), s.last())
    }
}

pub open spec fn entry_bytes(e: IndexEntry) -> Seq<u8> {
    le_bytes(e.col_idx as nat, 2) + le_bytes(e.segment_id as u32 as nat, 4) + le_bytes(
        e.offset as nat,
        8,
    ) + le_bytes(e.len as nat, 4) + le_bytes(e.crc as nat, 4)
}

pub open spec fn index_bytes(s: Seq<IndexEntry>) -> Seq<u8>
    decreases s.len(),
{
    if s.len() == 0 {
        Seq::empty()
    } else {
        index_bytes(s.drop_last()) + entry_bytes(s.last())
    }
}

/// Number of columns that have entries.
pub open spec fn column_count(s: Seq<IndexEntry>) -> nat {
    s.map_values(|e: IndexEntry| e.col_idx).to_set().len()
}

/// Number of segments that have entries.
pub open spec fn segment_count(s: Seq<IndexEntry>) -> nat {
    s.map_values(|e: IndexEntry| e.segment_id).to_set().len()
}

/// The part of a header that its checksum covers.
pub open spec fn header_fields(
    partition_id: u32,
    n_columns: u32,
    n_segments: u32,
    index_offset: u64,
    index_len: u64,
) -> Seq<u8> {
    magic() + le_bytes(VERSION as nat, 2) + le_bytes(0, 4) + le_bytes(partition_id as nat, 4)
        + le_bytes(n_columns as nat, 4) + le_bytes(n_segments as nat, 4) + le_bytes(
        index_offset as nat,
        8,
    ) + le_bytes(index_len as nat, 8)
}

pub open spec fn header_bytes(
    partition_id: u32,
    n_columns: u32,
    n_segments: u32,
    index_offset: u64,
    index_len: u64,
) -> Seq<u8> {
    let fields = header_fields(partition_id, n_columns, n_segments, index_offset, index_len);
    fields + le_bytes(crc(fields) as nat, 4) + zeros(20)
}

pub open spec fn footer_bytes(index_crc: u32, file_len: u64) -> Seq<u8> {
    le_bytes(index_crc as nat, 4) + le_bytes(file_len as nat, 8) + footer_magic()
}

/// Length of the file of the given blobs.
pub open spec fn file_len(blobs: Seq<Blob>) -> int {
    data_end(blobs, blobs.len() as int) + ENTRY_LEN * blobs.len() + FOOTER_LEN
}

/// The header of the file of the given blobs.
pub open spec fn image_header(partition_id: u32, blobs: Seq<Blob>) -> Seq<u8> {
    let entries = sorted(entries_of(blobs));
    header_bytes(
        partition_id,
        column_count(entries) as u32,
        segment_count(entries) as u32,
        data_end(blobs, blobs.len() as int) as u64,
        (ENTRY_LEN * blobs.len()) as u64,
    )
}

/// The index and the footer of the file of the given blobs.
pub open spec fn image_tail(blobs: Seq<Blob>) -> Seq<u8> {
    let index = index_bytes(sorted(entries_of(blobs)));
    index + footer_bytes(crc(index), file_len(blobs) as u64)
}

/// The file of a partition's blobs, in the order in which they were written.
pub open spec fn image(partition_id: u32, blobs: Seq<Blob>) -> Seq<u8> {
    image_header(partition_id, blobs) + data_bytes(blobs, blobs.len() as int) + image_tail(blobs)
}

// ---------------------------------------------------------------------------
// Encoding
// ---------------------------------------------------------------------------

/// The least multiple of `align` that is at least `v`.
pub fn round_up(v: u64, align: u64) -> (r: u64)
    requires
        align > 0,
        rounded_up(v as int, align as int) <= u64::MAX,
    ensures
        r == rounded_up(v as int, align as int),
        v <= r < v + align,
        r as int % align as int == 0,
{
    proof {
        lemma_rounded_up(v as int, align as int);
    }
    let q: u64 = if v % align == 0 {
        v / align
    } else {
        v / align + 1
    };
    proof {
        let a = align as int;
        let x = v as int;
        assert(q == (x + a - 1) / a) by (nonlinear_arith)
            requires
                a > 0,
                x >= 0,
                q == if x % a == 0 {
                    x / a
                } else {
                    x / a + 1
                },
        ;
    }
    q * align
}

proof fn lemma_rounded_up(v: int, a: int)
    requires
        v >= 0,
        a > 0,
    ensures
        v <= rounded_up(v, a) < v + a,
        rounded_up(v, a) % a == 0,
        v % a == 0 ==> rounded_up(v, a) == v,
{
    let q = (v + a - 1) / a;
    vstd::arithmetic::div_mod::lemma_fundamental_div_mod(v + a - 1, a);
    vstd::arithmetic::div_mod::lemma_mod_bound(v + a - 1, a);
    vstd::arithmetic::div_mod::lemma_mod_multiples_basic(q, a);
    vstd::arithmetic::mul::lemma_mul_is_commutative(a, q);
    if v % a == 0 {
        vstd::arithmetic::div_mod::lemma_fundamental_div_mod(v, a);
        vstd::arithmetic::div_mod::lemma_fundamental_div_mod_converse(
            v + a - 1,
            a,
            v / a,
            a - 1,
        );
        vstd::arithmetic::mul::lemma_mul_is_commutative(a, v / a);
    }
}

/// The header of a file.
pub fn encode_header(
    partition_id: u32,
    n_columns: u32,
    n_segments: u32,
    index_offset: u64,
    index_len: u64,
) -> (r: Vec<u8>)
    ensures
        r@ == header_bytes(partition_id, n_columns, n_segments, index_offset, index_len),
        r@.len() == HEADER_LEN,
{
    let mut out: Vec<u8> = Vec::new();
    out.push(0x44);
    out.push(0x58);
    out.push(0x53);
    out.push(0x45);
    out.push(0x47);
    out.push(0);
    assert(out@ =~= magic());
    push_le(&mut out, VERSION as u64, 2);
    push_le(&mut out, 0, 4);
    push_le(&mut out, partition_id as u64, 4);
    push_le(&mut out, n_columns as u64, 4);
    push_le(&mut out, n_segments as u64, 4);
    push_le(&mut out, index_offset, 8);
    push_le(&mut out, index_len, 8);
    let header_crc: u32 = crc32c(&out);
    push_le(&mut out, header_crc as u64, 4);
    push_zeros(&mut out, 20);
    proof {
        lemma_header_len(partition_id, n_columns, n_segments, index_offset, index_len);
    }
    out
}

pub proof fn lemma_header_len(
    partition_id: u32,
    n_columns: u32,
    n_segments: u32,
    index_offset: u64,
    index_len: u64,
)
    ensures
        header_fields(partition_id, n_columns, n_segments, index_offset, index_len).len()
            == HEADER_CRC_COVERAGE,
        header_bytes(partition_id, n_columns, n_segments, index_offset, index_len).len()
            == HEADER_LEN,
{
    lemma_le_bytes_len(VERSION as nat, 2);
    lemma_le_bytes_len(0, 4);
    lemma_le_bytes_len(partition_id as nat, 4);
    lemma_le_bytes_len(n_columns as nat, 4);
    lemma_le_bytes_len(n_segments as nat, 4);
    lemma_le_bytes_len(index_offset as nat, 8);
    lemma_le_bytes_len(index_len as nat, 8);
    let fields = header_fields(partition_id, n_columns, n_segments, index_offset, index_len);
    lemma_le_bytes_len(crc(fields) as nat, 4);
}

/// The index of the given entries.
pub fn encode_index(entries: &Vec<IndexEntry>) -> (r: Vec<u8>)
    ensures
        r@ == index_bytes(entries@),
        r@.len() == ENTRY_LEN * entries@.len(),
{
    let mut out: Vec<u8> = Vec::new();
    let mut i: usize = 0;
    assert(entries@.subrange(0, 0) =~= Seq::<IndexEntry>::empty());
    while i < entries.len()
        invariant
            i <= entries.len(),
            out@ == index_bytes(entries@.subrange(0, i as int)),
        decreases entries.len() - i,
    {
        let e = entries[i];
        let ghost before = out@;
        push_le(&mut out, e.col_idx as u64, 2);
        let seg: u32 = #[verifier::truncate]
        (e.segment_id as u32);
        push_le(&mut out, seg as u64, 4);
        push_le(&mut out, e.offset, 8);
        push_le(&mut out, e.len as u64, 4);
        push_le(&mut out, e.crc as u64, 4);
        assert(out@ =~= before + entry_bytes(e));
        i += 1;
        assert(entries@.subrange(0, i as int).drop_last() =~= entries@.subrange(0, i - 1));
    }
    assert(entries@.subrange(0, i as int) =~= entries@);
    proof {
        lemma_index_len(entries@);
    }
    out
}

pub proof fn lemma_entry_len(e: IndexEntry)
    ensures
        entry_bytes(e).len() == ENTRY_LEN,
{
    lemma_le_bytes_len(e.col_idx as nat, 2);
    lemma_le_bytes_len(e.segment_id as u32 as nat, 4);
    lemma_le_bytes_len(e.offset as nat, 8);
    lemma_le_bytes_len(e.len as nat, 4);
    lemma_le_bytes_len(e.crc as nat, 4);
}

pub proof fn lemma_index_len(s: Seq<IndexEntry>)
    ensures
        index_bytes(s).len() == ENTRY_LEN * s.len(),
    decreases s.len(),
{
    if s.len() > 0 {
        lemma_index_len(s.drop_last());
        lemma_entry_len(s.last());
    }
}

/// The footer of a file.
pub fn encode_footer(index_crc: u32, file_len: u64) -> (r: Vec<u8>)
    ensures
        r@ == footer_bytes(index_crc, file_len),
        r@.len() == FOOTER_LEN,
{
    let mut out: Vec<u8> = Vec::new();
    push_le(&mut out, index_crc as u64, 4);
    assert(out@ =~= le_bytes(index_crc as nat, 4));
    push_le(&mut out, file_len, 8);
    let ghost head = out@;
    out.push(0x44);
    out.push(0x58);
    out.push(0x53);
    out.push(0x45);
    assert(out@ =~= head + footer_magic());
    proof {
        lemma_le_bytes_len(index_crc as nat, 4);
        lemma_le_bytes_len(file_len as nat, 8);
    }
    out
}

/// Numbers of columns and of segments that have entries.
pub fn count_distinct(entries: &Vec<IndexEntry>) -> (r: (u32, u32))
    requires
        is_sorted(entries@),
    ensures
        r.0 == column_count(entries@) as u32,
        r.1 == segment_count(entries@) as u32,
{
    broadcast use vstd::std_specs::hash::group_hash_axioms;

    let mut columns: usize = 0;
    let mut segments: HashSet<i32> = HashSet::new();
    let ghost cols = entries@.map_values(|e: IndexEntry| e.col_idx);
    let ghost segs = entries@.map_values(|e: IndexEntry| e.segment_id);
    let mut i: usize = 0;
    assert(cols.subrange(0, 0).to_set() =~= Set::<u16>::empty());
    assert(segs.subrange(0, 0).to_set() =~= Set::<i32>::empty());
    while i < entries.len()
        invariant
            i <= entries.len(),
            is_sorted(entries@),
            cols == entries@.map_values(|e: IndexEntry| e.col_idx),
            segs == entries@.map_values(|e: IndexEntry| e.segment_id),
            columns <= i,
            columns == cols.subrange(0, i as int).to_set().len(),
            segments@ == segs.subrange(0, i as int).to_set(),
            cols.subrange(0, i as int).to_set().finite(),
        decreases entries.len() - i,
    {
        let e = entries[i];
        let ghost a = cols.subrange(0, i as int);
        let ghost b = cols.subrange(0, i + 1);
        let fresh = i == 0 || entries[i - 1].col_idx != e.col_idx;
        proof {
            assert(b =~= a.push(e.col_idx));
            lemma_push_to_set(a, e.col_idx);
            if fresh {
                assert forall|k: int| 0 <= k < a.len() implies a[k] != e.col_idx by {
                    assert(key_le(entries@[k], entries@[i - 1]));
                    assert(key_le(entries@[i - 1], entries@[i as int]));
                }
                assert(!a.to_set().contains(e.col_idx));
            } else {
                assert(a[i - 1] == e.col_idx);
                assert(a.to_set().contains(e.col_idx));
                assert(a.to_set().insert(e.col_idx) =~= a.to_set());
            }
        }
        if fresh {
            columns += 1;
        }
        segments.insert(e.segment_id);
        proof {
            let c = segs.subrange(0, i as int);
            assert(segs.subrange(0, i + 1) =~= c.push(e.segment_id));
            lemma_push_to_set(c, e.segment_id);
        }
        i += 1;
    }
    assert(cols.subrange(0, i as int) =~= cols);
    assert(segs.subrange(0, i as int) =~= segs);
    let n_columns: u32 = #[verifier::truncate]
    (columns as u32);
    let n_segments: u32 = #[verifier::truncate]
    (segments.len() as u32);
    (n_columns, n_segments)
}

proof fn lemma_push_to_set<A>(s: Seq<A>, x: A)
    ensures
        s.push(x).to_set() == s.to_set().insert(x),
{
    assert forall|y: A| s.push(x).to_set().contains(y) <==> s.to_set().insert(x).contains(y) by {
        if s.to_set().contains(y) {
            let i = choose|i: int| 0 <= i < s.len() && s[i] == y;
            assert(s.push(x)[i] == y);
        }
        assert(s.push(x)[s.len() as int] == x);
        if s.push(x).to_set().contains(y) && y != x {
            let i = choose|i: int| 0 <= i < s.push(x).len() && s.push(x)[i] == y;
            assert(s[i] == y);
        }
    }
    assert(s.push(x).to_set() =~= s.to_set().insert(x));
}

/// Sorts entries by column and segment.
pub fn sort_entries(entries: &Vec<IndexEntry>) -> (r: Vec<IndexEntry>)
    ensures
        r@ == sorted(entries@),
        is_sorted(r@),
{
    let mut out: Vec<IndexEntry> = Vec::new();
    let mut i: usize = 0;
    assert(entries@.subrange(0, 0) =~= Seq::<IndexEntry>::empty());
    while i < entries.len()
        invariant
            i <= entries.len(),
            out@ == sorted(entries@.subrange(0, i as int)),
        decreases entries.len() - i,
    {
        insert_entry(&mut out, entries[i]);
        i += 1;
        assert(entries@.subrange(0, i as int).drop_last() =~= entries@.subrange(0, i - 1));
    }
    assert(entries@.subrange(0, i as int) =~= entries@);
    proof {
        lemma_sorted(entries@);
    }
    out
}

fn insert_entry(out: &mut Vec<IndexEntry>, e: IndexEntry)
    ensures
        final(out)@ == inserted(old(out)@, e),
{
    let ghost all = out@;
    let mut k: usize = out.len();
    assert(all.subrange(0, k as int) =~= all);
    assert(inserted(all, e) =~= inserted(all.subrange(0, k as int), e) + all.subrange(
        k as int,
        all.len() as int,
    ));
    while k > 0 && !(out[k - 1].col_idx < e.col_idx || (out[k - 1].col_idx == e.col_idx
        && out[k - 1].segment_id <= e.segment_id))
        invariant
            k <= out.len(),
            out@ == all,
            inserted(all, e) == inserted(all.subrange(0, k as int), e) + all.subrange(
                k as int,
                all.len() as int,
            ),
        decreases k,
    {
        let ghost s = all.subrange(0, k as int);
        k -= 1;
        assert(s.drop_last() =~= all.subrange(0, k as int));
        assert(inserted(all, e) =~= inserted(all.subrange(0, k as int), e) + all.subrange(
            k as int,
            all.len() as int,
        ));
    }
    let ghost s = all.subrange(0, k as int);
    assert(inserted(s, e) =~= s.push(e));
    out.insert(k, e);
    assert(out@ =~= inserted(all, e));
}

proof fn lemma_inserted(s: Seq<IndexEntry>, e: IndexEntry)
    requires
        is_sorted(s),
    ensures
        is_sorted(inserted(s, e)),
        inserted(s, e).len() == s.len() + 1,
        inserted(s, e).to_multiset() == s.to_multiset().insert(e),
        forall|x: IndexEntry| #[trigger] inserted(s, e).contains(x) <==> s.contains(x) || x == e,
    decreases s.len(),
{
    broadcast use vstd::seq_lib::group_to_multiset_ensures;

    if s.len() == 0 || key_le(s.last(), e) {
        let t = s.push(e);
        assert forall|i: int, j: int| 0 <= i <= j < t.len() implies key_le(
            #[trigger] t[i],
            #[trigger] t[j],
        ) by {
            if j == s.len() && i < s.len() {
                assert(key_le(s[i], s[s.len() - 1]));
            }
        }
        assert forall|x: IndexEntry| #[trigger] t.contains(x) <==> s.contains(x) || x == e by {
            if s.contains(x) {
                let i = choose|i: int| 0 <= i < s.len() && s[i] == x;
                assert(t[i] == x);
            }
            assert(t[s.len() as int] == e);
        }
    } else {
        let head = s.drop_last();
        let last = s.last();
        assert(is_sorted(head));
        lemma_inserted(head, e);
        let u = inserted(head, e);
        let t = u.push(last);
        assert forall|i: int, j: int| 0 <= i <= j < t.len() implies key_le(
            #[trigger] t[i],
            #[trigger] t[j],
        ) by {
            if j == u.len() && i < u.len() {
                assert(u.contains(u[i]));
                if u[i] != e {
                    let k = choose|k: int| 0 <= k < head.len() && head[k] == u[i];
                    assert(key_le(s[k], s[s.len() - 1]));
                }
            }
        }
        assert(s =~= head.push(last));
        assert(t.to_multiset() =~= s.to_multiset().insert(e));
        assert forall|x: IndexEntry| #[trigger] t.contains(x) <==> s.contains(x) || x == e by {
            if u.contains(x) {
                let i = choose|i: int| 0 <= i < u.len() && u[i] == x;
                assert(t[i] == x);
            }
            assert(t[u.len() as int] == last);
            if head.contains(x) {
                let i = choose|i: int| 0 <= i < head.len() && head[i] == x;
                assert(s[i] == x);
            }
            assert(s[s.len() - 1] == last);
            if s.contains(x) && x != last {
                let i = choose|i: int| 0 <= i < s.len() && s[i] == x;
                assert(head[i] == x);
            }
        }
    }
}

/// Sorting sorts, and keeps every entry.
pub proof fn lemma_sorted(s: Seq<IndexEntry>)
    ensures
        is_sorted(sorted(s)),
        sorted(s).len() == s.len(),
        sorted(s).to_multiset() == s.to_multiset(),
        forall|x: IndexEntry| #[trigger] sorted(s).contains(x) <==> s.contains(x),
    decreases s.len(),
{
    broadcast use vstd::seq_lib::group_to_multiset_ensures;

    if s.len() > 0 {
        let head = s.drop_last();
        lemma_sorted(head);
        lemma_inserted(sorted(head), s.last());
        assert(s =~= head.push(s.last()));
        assert forall|x: IndexEntry| #[trigger] sorted(s).contains(x) <==> s.contains(x) by {
            if head.contains(x) {
                let i = choose|i: int| 0 <= i < head.len() && head[i] == x;
                assert(s[i] == x);
            }
            assert(s[s.len() - 1] == s.last());
            if s.contains(x) && x != s.last() {
                let i = choose|i: int| 0 <= i < s.len() && s[i] == x;
                assert(head[i] == x);
            }
        }
    }
}

/// Sorting changes nothing where entries are sorted already.
pub proof fn lemma_sorted_idempotent(s: Seq<IndexEntry>)
    requires
        is_sorted(s),
    ensures
        sorted(s) == s,
    decreases s.len(),
{
    if s.len() > 0 {
        let head = s.drop_last();
        assert(is_sorted(head)) by {
            assert forall|i: int, j: int| 0 <= i <= j < head.len() implies key_le(
                #[trigger] head[i],
                #[trigger] head[j],
            ) by {
                assert(key_le(s[i], s[j]));
            }
        }
        lemma_sorted_idempotent(head);
        if head.len() > 0 {
            assert(key_le(s[s.len() - 2], s[s.len() - 1]));
        }
        assert(sorted(s) =~= s);
    }
}

// ---------------------------------------------------------------------------
// Writing
// ---------------------------------------------------------------------------

/// The layout of the first `n` blobs depends on these alone.
pub proof fn lemma_prefix(a: Seq<Blob>, b: Seq<Blob>, n: int)
    requires
        n <= a.len(),
        n <= b.len(),
        forall|i: int| 0 <= i < n ==> a[i] == b[i],
    ensures
        data_end(a, n) == data_end(b, n),
        blob_start(a, n) == blob_start(b, n),
        data_bytes(a, n) == data_bytes(b, n),
    decreases n,
{
    if n > 0 {
        lemma_prefix(a, b, n - 1);
    }
}

/// Blobs follow each other behind the header.
pub proof fn lemma_layout(blobs: Seq<Blob>, n: int)
    requires
        0 <= n <= blobs.len(),
    ensures
        HEADER_LEN <= data_end(blobs, n) <= blob_start(blobs, n) < data_end(blobs, n) + BLOB_ALIGN,
        blob_start(blobs, n) % (BLOB_ALIGN as int) == 0,
        data_bytes(blobs, n).len() == data_end(blobs, n) - HEADER_LEN,
        n > 0 ==> data_end(blobs, n - 1) <= blob_start(blobs, n - 1) <= data_end(blobs, n),
    decreases n,
{
    if n > 0 {
        lemma_layout(blobs, n - 1);
    }
    lemma_rounded_up(data_end(blobs, n), BLOB_ALIGN as int);
}

pub proof fn lemma_data_end_mono(blobs: Seq<Blob>, m: int, n: int)
    requires
        0 <= m <= n <= blobs.len(),
    ensures
        data_end(blobs, m) <= data_end(blobs, n),
        m < n ==> blob_start(blobs, m) + blobs[m].data.len() <= data_end(blobs, n),
    decreases n,
{
    if m < n {
        lemma_data_end_mono(blobs, m, n - 1);
        lemma_layout(blobs, n);
    }
}

/// A blob with its column and segment.
pub open spec fn blob_of(col_idx: u16, segment_id: i32, data: Seq<u8>) -> Blob {
    Blob { col_idx, segment_id, data }
}

/// The bytes that a batch adds behind the blobs that are written already.
pub open spec fn chunk_bytes(done: Seq<Blob>, batch: Seq<Blob>) -> Seq<u8> {
    let all = done + batch;
    data_bytes(all, all.len() as int).subrange(
        data_bytes(done, done.len() as int).len() as int,
        data_bytes(all, all.len() as int).len() as int,
    )
}

/// The state of a file that is written batch by batch.
///
/// The file starts with a reserved header. `append_blobs` gives the bytes to
/// write next, and `finish` those that end the file and those of the header.
pub struct SegmentFileWriter {
    pub partition_id: u32,
    /// End of the bytes written so far.
    pub offset: u64,
    pub entries: Vec<IndexEntry>,
    /// The blobs written so far.
    pub appended: Ghost<Seq<Blob>>,
}

impl SegmentFileWriter {
    pub open spec fn wf(&self) -> bool {
        &&& self.offset == data_end(self.appended@, self.appended@.len() as int)
        &&& self.entries@ == entries_of(self.appended@)
    }

    /// A file that holds the reserved header alone.
    pub fn create(partition_id: u32) -> (r: SegmentFileWriter)
        ensures
            r.wf(),
            r.partition_id == partition_id,
            r.appended@ == Seq::<Blob>::empty(),
    {
        let r = SegmentFileWriter {
            partition_id,
            offset: HEADER_LEN as u64,
            entries: Vec::new(),
            appended: Ghost(Seq::empty()),
        };
        assert(r.entries@ =~= entries_of(r.appended@));
        r
    }

    fn append_blob(&mut self, col_idx: u16, segment_id: i32, blob: &Vec<u8>, out: &mut Vec<u8>)
        requires
            old(self).wf(),
            file_len(old(self).appended@.push(blob_of(col_idx, segment_id, blob@))) <= u64::MAX,
        ensures
            final(self).wf(),
            final(self).partition_id == old(self).partition_id,
            final(self).appended@ == old(self).appended@.push(blob_of(col_idx, segment_id, blob@)),
            data_bytes(final(self).appended@, final(self).appended@.len() as int) == data_bytes(
                old(self).appended@,
                old(self).appended@.len() as int,
            ) + final(out)@.subrange(old(out)@.len() as int, final(out)@.len() as int),
            final(out)@.len() >= old(out)@.len(),
            final(out)@.subrange(0, old(out)@.len() as int) == old(out)@,
    {
        let ghost a = self.appended@;
        let ghost n = a.len() as int;
        let ghost b = a.push(blob_of(col_idx, segment_id, blob@));
        let ghost before = out@;
        proof {
            lemma_prefix(a, b, n);
            lemma_layout(b, n);
            lemma_layout(b, n + 1);
        }
        let aligned: u64 = round_up(self.offset, BLOB_ALIGN);
        let pad: u64 = aligned - self.offset;
        push_zeros(out, pad);
        push_bytes(out, blob.as_slice());
        let len: u32 = #[verifier::truncate]
        (blob.len() as u32);
        let e = IndexEntry { col_idx, segment_id, offset: aligned, len, crc: crc32c(blob.as_slice()) };
        self.entries.push(e);
        self.offset = aligned + blob.len() as u64;
        self.appended = Ghost(b);
        assert(self.entries@ =~= entries_of(b)) by {
            assert forall|i: int| 0 <= i < n implies #[trigger] entry_of(a, i) == entry_of(b, i) by {
                lemma_prefix(a, b, i);
            }
        }
        let ghost added = zeros(pad as nat) + blob@;
        assert(out@ =~= before + added);
        assert(out@.subrange(before.len() as int, out@.len() as int) =~= added);
        assert(out@.subrange(0, before.len() as int) =~= before);
        assert(data_bytes(b, n + 1) =~= data_bytes(a, n) + added);
    }

    /// Adds a batch of blobs. Returns the bytes to write next.
    pub fn append_blobs(&mut self, blobs: &[(u16, i32, Vec<u8>)]) -> (r: Vec<u8>)
        requires
            old(self).wf(),
            file_len(old(self).appended@ + blobs_of(blobs@)) <= u64::MAX,
        ensures
            final(self).wf(),
            final(self).partition_id == old(self).partition_id,
            final(self).appended@ == old(self).appended@ + blobs_of(blobs@),
            r@ == chunk_bytes(old(self).appended@, blobs_of(blobs@)),
    {
        let ghost start = self.appended@;
        let ghost batch = blobs_of(blobs@);
        let ghost base = data_bytes(start, start.len() as int);
        let mut out: Vec<u8> = Vec::new();
        let mut i: usize = 0;
        assert(start + batch.subrange(0, 0) =~= start);
        assert(base + out@ =~= base);
        while i < blobs.len()
            invariant
                i <= blobs.len(),
                batch == blobs_of(blobs@),
                self.wf(),
                self.partition_id == old(self).partition_id,
                self.appended@ == start + batch.subrange(0, i as int),
                file_len(start + batch) <= u64::MAX,
                data_bytes(self.appended@, self.appended@.len() as int) == base + out@,
            decreases blobs.len() - i,
        {
            let b = &blobs[i];
            let ghost cur = self.appended@;
            let ghost next = cur.push(blob_of(b.0, b.1, b.2@));
            proof {
                let all = start + batch;
                assert(batch[i as int] == blob_of(b.0, b.1, b.2@));
                assert(next =~= start + batch.subrange(0, i + 1));
                let k = next.len() as int;
                assert forall|j: int| 0 <= j < k implies next[j] == all[j] by {}
                lemma_prefix(next, all, k);
                lemma_data_end_mono(all, k, all.len() as int);
                assert(ENTRY_LEN * k <= ENTRY_LEN * all.len()) by (nonlinear_arith)
                    requires
                        k <= all.len(),
                ;
            }
            let ghost before = out@;
            self.append_blob(b.0, b.1, &b.2, &mut out);
            assert(out@ =~= before + out@.subrange(before.len() as int, out@.len() as int)) by {
                assert(out@.subrange(0, before.len() as int) == before);
                assert(out@ =~= out@.subrange(0, before.len() as int) + out@.subrange(
                    before.len() as int,
                    out@.len() as int,
                ));
            }
            i += 1;
            assert(data_bytes(self.appended@, self.appended@.len() as int) =~= base + out@);
        }
        assert(batch.subrange(0, i as int) =~= batch);
        assert(out@ =~= chunk_bytes(start, batch));
        out
    }

    /// Ends the file. Returns the header, to be written over the reserved one,
    /// and the bytes to write last.
    pub fn finish(self) -> (r: (Vec<u8>, Vec<u8>))
        requires
            self.wf(),
            file_len(self.appended@) <= u64::MAX,
        ensures
            r.0@ == image_header(self.partition_id, self.appended@),
            r.0@.len() == HEADER_LEN,
            r.1@ == image_tail(self.appended@),
    {
        let ghost blobs = self.appended@;
        let entries = sort_entries(&self.entries);
        proof {
            lemma_sorted(entries_of(blobs));
            lemma_layout(blobs, blobs.len() as int);
        }
        let index = encode_index(&entries);
        assert(index@.len() == ENTRY_LEN * blobs.len());
        let index_len: u64 = index.len() as u64;
        let total: u64 = self.offset + index_len + FOOTER_LEN as u64;
        let footer = encode_footer(crc32c(index.as_slice()), total);
        let (n_columns, n_segments) = count_distinct(&entries);
        let header = encode_header(
            self.partition_id,
            n_columns,
            n_segments,
            self.offset,
            index_len,
        );
        let mut tail = index;
        push_bytes(&mut tail, footer.as_slice());
        (header, tail)
    }
}

/// The bytes of some blobs begin with those of the first of them.
pub proof fn lemma_data_prefix(blobs: Seq<Blob>, m: int, n: int)
    requires
        0 <= m <= n <= blobs.len(),
    ensures
        data_bytes(blobs, m).len() <= data_bytes(blobs, n).len(),
        data_bytes(blobs, n).subrange(0, data_bytes(blobs, m).len() as int) == data_bytes(
            blobs,
            m,
        ),
    decreases n,
{
    let k = data_bytes(blobs, m).len() as int;
    if m < n {
        lemma_data_prefix(blobs, m, n - 1);
        assert(data_bytes(blobs, n).subrange(0, k) =~= data_bytes(blobs, n - 1).subrange(0, k));
    } else {
        assert(data_bytes(blobs, n).subrange(0, k) =~= data_bytes(blobs, n));
    }
}

/// Strictly ascending by column and segment.
pub open spec fn strictly_sorted(blobs: Seq<Blob>) -> bool {
    forall|i: int, j: int|
        0 <= i < j < blobs.len() ==> (#[trigger] blobs[i]).col_idx < (
        #[trigger] blobs[j]).col_idx || (blobs[i].col_idx == blobs[j].col_idx
            && blobs[i].segment_id < blobs[j].segment_id)
}

/// The file of blobs that are sorted by column and segment, in one piece.
pub fn encode_segment_file(partition_id: u32, blobs: &[(u16, i32, Vec<u8>)]) -> (r: Vec<u8>)
    requires
        strictly_sorted(blobs_of(blobs@)),
        file_len(blobs_of(blobs@)) <= u64::MAX,
    ensures
        r@ == image(partition_id, blobs_of(blobs@)),
{
    let ghost all = blobs_of(blobs@);
    let ghost n = all.len() as int;
    let mut entries: Vec<IndexEntry> = Vec::new();
    let mut data: Vec<u8> = Vec::new();
    let mut off: u64 = HEADER_LEN as u64;
    let mut i: usize = 0;
    while i < blobs.len()
        invariant
            i <= blobs.len(),
            all == blobs_of(blobs@),
            n == all.len(),
            file_len(all) <= u64::MAX,
            off == data_end(all, i as int),
            data@ == data_bytes(all, i as int),
            entries@ == Seq::new(i as nat, |k: int| entry_of(all, k)),
        decreases blobs.len() - i,
    {
        let b = &blobs[i];
        assert(all[i as int] == blob_of(b.0, b.1, b.2@));
        proof {
            lemma_layout(all, i as int);
            lemma_layout(all, i + 1);
            lemma_data_end_mono(all, i + 1, n);
        }
        let aligned: u64 = round_up(off, BLOB_ALIGN);
        push_zeros(&mut data, aligned - off);
        push_bytes(&mut data, b.2.as_slice());
        let len: u32 = #[verifier::truncate]
        (b.2.len() as u32);
        entries.push(
            IndexEntry {
                col_idx: b.0,
                segment_id: b.1,
                offset: aligned,
                len,
                crc: crc32c(b.2.as_slice()),
            },
        );
        off = aligned + b.2.len() as u64;
        i += 1;
        assert(entries@ =~= Seq::new(i as nat, |k: int| entry_of(all, k)));
    }
    proof {
        assert(entries@ =~= entries_of(all));
        assert(is_sorted(entries@)) by {
            assert forall|x: int, y: int| 0 <= x <= y < entries@.len() implies key_le(
                #[trigger] entries@[x],
                #[trigger] entries@[y],
            ) by {
                if x < y {
                    assert(all[x].col_idx < all[y].col_idx || (all[x].col_idx == all[y].col_idx
                        && all[x].segment_id < all[y].segment_id));
                }
            }
        }
        lemma_sorted_idempotent(entries@);
    }
    let index = encode_index(&entries);
    assert(index@.len() == ENTRY_LEN * all.len());
    let index_len: u64 = index.len() as u64;
    let total: u64 = off + index_len + FOOTER_LEN as u64;
    let footer = encode_footer(crc32c(index.as_slice()), total);
    let (n_columns, n_segments) = count_distinct(&entries);
    let mut out = encode_header(partition_id, n_columns, n_segments, off, index_len);
    push_bytes(&mut out, data.as_slice());
    let mut tail = index;
    push_bytes(&mut tail, footer.as_slice());
    push_bytes(&mut out, tail.as_slice());
    out
}

} // verus!
