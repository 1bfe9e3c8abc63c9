//! What segment files promise: every blob that was written is read back, and a
//! file that was cut off or changed is noticed.

use vstd::prelude::*;
use crate::bytes::{
    found_at, le_bytes, le_value, lemma_found_number, lemma_found_split, lemma_le_bytes_len,
    lemma_le_value_injective, lemma_pow256, zeros,
};
use crate::crc::{crc, lemma_crc_detects_changed_byte};
use crate::search::{first_where, lemma_first_none, lemma_first_where};
use crate::segment_file::{
    blob_start, chunk_bytes, column_count, data_bytes, data_end, entries_of, entry_bytes, entry_of,
    file_len, footer_bytes, footer_magic, header_bytes, header_fields, image, image_header,
    image_tail, index_bytes, is_sorted, key_le, lemma_data_end_mono, lemma_data_prefix, lemma_entry_len,
    lemma_header_len, lemma_index_len, lemma_layout, lemma_prefix, lemma_sorted,
    lemma_sorted_idempotent, magic, segment_count, sorted, strictly_sorted, Blob, IndexEntry, SegmentFileHeader,
    BLOB_ALIGN, ENTRY_LEN, FOOTER_LEN, HEADER_CRC_COVERAGE, HEADER_LEN, VERSION,
};
use crate::segment_reader::{
    blob_at, file_contents, has_key, header_of, index_contents, index_part, number_at,
    out_of_bounds, raw_entries, raw_entry, Lookup,
};

verus! {

/// Whether the blobs can be written: the file's length, and each blob's length,
/// fit their fields.
pub open spec fn writable(blobs: Seq<Blob>) -> bool {
    &&& file_len(blobs) <= u64::MAX
    &&& forall|i: int| 0 <= i < blobs.len() ==> (#[trigger] blobs[i]).data.len() <= u32::MAX
}

/// The header that a written file has.
pub open spec fn written_header(partition_id: u32, blobs: Seq<Blob>) -> SegmentFileHeader {
    let entries = sorted(entries_of(blobs));
    SegmentFileHeader {
        version: VERSION,
        partition_id,
        n_columns: column_count(entries) as u32,
        n_segments: segment_count(entries) as u32,
        index_offset: data_end(blobs, blobs.len() as int) as u64,
        index_len: (ENTRY_LEN * blobs.len()) as u64,
    }
}

proof fn lemma_entry_back(index: Seq<u8>, i: int, e: IndexEntry)
    requires
        0 <= i,
        found_at(index, i * ENTRY_LEN, entry_bytes(e)),
    ensures
        raw_entry(index, i) == e,
{
    let at = i * ENTRY_LEN;
    let seg = e.segment_id as u32;
    let a = le_bytes(e.col_idx as nat, 2);
    let b = le_bytes(seg as nat, 4);
    let c = le_bytes(e.offset as nat, 8);
    let d = le_bytes(e.len as nat, 4);
    let f = le_bytes(e.crc as nat, 4);
    lemma_le_bytes_len(e.col_idx as nat, 2);
    lemma_le_bytes_len(seg as nat, 4);
    lemma_le_bytes_len(e.offset as nat, 8);
    lemma_le_bytes_len(e.len as nat, 4);
    lemma_le_bytes_len(e.crc as nat, 4);
    lemma_pow256();
    lemma_found_split(index, at, a + b + c + d, f);
    lemma_found_split(index, at, a + b + c, d);
    lemma_found_split(index, at, a + b, c);
    lemma_found_split(index, at, a, b);
    lemma_found_number(index, at, e.col_idx as nat, 2);
    lemma_found_number(index, at + 2, seg as nat, 4);
    lemma_found_number(index, at + 6, e.offset as nat, 8);
    lemma_found_number(index, at + 14, e.len as nat, 4);
    lemma_found_number(index, at + 18, e.crc as nat, 4);
    let s = e.segment_id;
    assert((s as u32) as i32 == s) by (bit_vector);
}

proof fn lemma_index_found(s: Seq<IndexEntry>, i: int)
    requires
        0 <= i < s.len(),
    ensures
        found_at(index_bytes(s), i * ENTRY_LEN, entry_bytes(s[i])),
    decreases s.len(),
{
    let head = s.drop_last();
    let t = index_bytes(s);
    lemma_index_len(head);
    lemma_index_len(s);
    lemma_entry_len(s.last());
    lemma_entry_len(s[i]);
    if i == s.len() - 1 {
        assert(t.subrange(i * ENTRY_LEN, i * ENTRY_LEN + ENTRY_LEN) =~= entry_bytes(s[i]));
    } else {
        lemma_index_found(head, i);
        assert(head[i] == s[i]);
        assert(i * ENTRY_LEN + ENTRY_LEN <= ENTRY_LEN * head.len()) by (nonlinear_arith)
            requires
                i + 1 <= head.len(),
                ENTRY_LEN == 22,
        ;
        assert(t.subrange(i * ENTRY_LEN, i * ENTRY_LEN + ENTRY_LEN) =~= index_bytes(head).subrange(
            i * ENTRY_LEN,
            i * ENTRY_LEN + ENTRY_LEN,
        ));
    }
}

/// An index is read back as it was written.
pub proof fn lemma_index_round_trip(s: Seq<IndexEntry>)
    ensures
        raw_entries(index_bytes(s)) == s,
{
    lemma_index_len(s);
    let n = s.len();
    assert((ENTRY_LEN * n) as nat / ENTRY_LEN as nat == n) by (nonlinear_arith)
        requires
            ENTRY_LEN == 22,
    ;
    assert forall|i: int| 0 <= i < n implies raw_entries(index_bytes(s))[i] == s[i] by {
        lemma_index_found(s, i);
        lemma_entry_back(index_bytes(s), i, s[i]);
    }
    assert(raw_entries(index_bytes(s)) =~= s);
}

proof fn lemma_header_back(
    b: Seq<u8>,
    partition_id: u32,
    n_columns: u32,
    n_segments: u32,
    index_offset: u64,
    index_len: u64,
)
    requires
        found_at(
            b,
            0,
            header_bytes(partition_id, n_columns, n_segments, index_offset, index_len),
        ),
    ensures
        b.subrange(0, 6) == magic(),
        header_of(b) == (SegmentFileHeader {
            version: VERSION,
            partition_id,
            n_columns,
            n_segments,
            index_offset,
            index_len,
        }),
        crc(b.subrange(0, HEADER_CRC_COVERAGE as int)) == number_at(
            b,
            HEADER_CRC_COVERAGE as int,
            4,
        ),
{
    let fields = header_fields(partition_id, n_columns, n_segments, index_offset, index_len);
    let c = le_bytes(crc(fields) as nat, 4);
    lemma_header_len(partition_id, n_columns, n_segments, index_offset, index_len);
    lemma_pow256();
    lemma_found_split(b, 0, fields + c, zeros(20));
    lemma_found_split(b, 0, fields, c);
    lemma_found_number(b, 40, crc(fields) as nat, 4);
    let f1 = magic();
    let f2 = le_bytes(VERSION as nat, 2);
    let f3 = le_bytes(0, 4);
    let f4 = le_bytes(partition_id as nat, 4);
    let f5 = le_bytes(n_columns as nat, 4);
    let f6 = le_bytes(n_segments as nat, 4);
    let f7 = le_bytes(index_offset as nat, 8);
    let f8 = le_bytes(index_len as nat, 8);
    lemma_le_bytes_len(VERSION as nat, 2);
    lemma_le_bytes_len(0, 4);
    lemma_le_bytes_len(partition_id as nat, 4);
    lemma_le_bytes_len(n_columns as nat, 4);
    lemma_le_bytes_len(n_segments as nat, 4);
    lemma_le_bytes_len(index_offset as nat, 8);
    lemma_le_bytes_len(index_len as nat, 8);
    lemma_found_split(b, 0, f1 + f2 + f3 + f4 + f5 + f6 + f7, f8);
    lemma_found_split(b, 0, f1 + f2 + f3 + f4 + f5 + f6, f7);
    lemma_found_split(b, 0, f1 + f2 + f3 + f4 + f5, f6);
    lemma_found_split(b, 0, f1 + f2 + f3 + f4, f5);
    lemma_found_split(b, 0, f1 + f2 + f3, f4);
    lemma_found_split(b, 0, f1 + f2, f3);
    lemma_found_split(b, 0, f1, f2);
    lemma_found_number(b, 6, VERSION as nat, 2);
    lemma_found_number(b, 12, partition_id as nat, 4);
    lemma_found_number(b, 16, n_columns as nat, 4);
    lemma_found_number(b, 20, n_segments as nat, 4);
    lemma_found_number(b, 24, index_offset as nat, 8);
    lemma_found_number(b, 32, index_len as nat, 8);
}

/// Where the parts of a file stand.
proof fn lemma_image_parts(partition_id: u32, blobs: Seq<Blob>)
    requires
        file_len(blobs) <= u64::MAX,
    ensures
        ({
            let b = image(partition_id, blobs);
            let n = blobs.len() as int;
            let index = index_bytes(sorted(entries_of(blobs)));
            &&& b.len() == file_len(blobs)
            &&& found_at(b, 0, image_header(partition_id, blobs))
            &&& found_at(b, HEADER_LEN as int, data_bytes(blobs, n))
            &&& found_at(b, data_end(blobs, n), index)
            &&& index.len() == ENTRY_LEN * n
            &&& found_at(
                b,
                b.len() - FOOTER_LEN,
                footer_bytes(crc(index), file_len(blobs) as u64),
            )
        }),
{
    let b = image(partition_id, blobs);
    let n = blobs.len() as int;
    let entries = sorted(entries_of(blobs));
    let index = index_bytes(entries);
    let footer = footer_bytes(crc(index), file_len(blobs) as u64);
    lemma_sorted(entries_of(blobs));
    lemma_index_len(entries);
    lemma_layout(blobs, n);
    lemma_header_len(
        partition_id,
        column_count(entries) as u32,
        segment_count(entries) as u32,
        data_end(blobs, n) as u64,
        (ENTRY_LEN * n) as u64,
    );
    lemma_le_bytes_len(crc(index) as nat, 4);
    lemma_le_bytes_len(file_len(blobs) as u64 as nat, 8);
    let h = image_header(partition_id, blobs);
    let d = data_bytes(blobs, n);
    assert(b.subrange(0, b.len() as int) =~= b);
    assert(found_at(b, 0, h + d + (index + footer)));
    lemma_found_split(b, 0, h + d, index + footer);
    lemma_found_split(b, 0, h, d);
    lemma_found_split(b, data_end(blobs, n), index, footer);
}

/// Every entry of a written file lies between the header and the index.
proof fn lemma_entries_in_bounds(blobs: Seq<Blob>)
    requires
        writable(blobs),
    ensures
        first_where(
            sorted(entries_of(blobs)),
            out_of_bounds(data_end(blobs, blobs.len() as int)),
        ) is None,
{
    let n = blobs.len() as int;
    let s = sorted(entries_of(blobs));
    let p = out_of_bounds(data_end(blobs, n));
    lemma_sorted(entries_of(blobs));
    assert forall|j: int| 0 <= j < s.len() implies !p(s[j]) by {
        assert(s.contains(s[j]));
        let i = choose|i: int| 0 <= i < entries_of(blobs).len() && entries_of(blobs)[i] == s[j];
        lemma_layout(blobs, i);
        lemma_data_end_mono(blobs, i, n);
        assert(blobs[i].data.len() <= u32::MAX);
    }
    lemma_first_none(s, p);
}

/// A written file is read back: its header, and the entries of all its blobs
/// sorted by column and segment.
pub proof fn lemma_file_round_trip(partition_id: u32, blobs: Seq<Blob>)
    requires
        writable(blobs),
    ensures
        file_contents(image(partition_id, blobs)) == Ok::<
            (SegmentFileHeader, Seq<IndexEntry>),
            Seq<char>,
        >((written_header(partition_id, blobs), sorted(entries_of(blobs)))),
{
    let b = image(partition_id, blobs);
    let n = blobs.len() as int;
    let entries = sorted(entries_of(blobs));
    lemma_image_parts(partition_id, blobs);
    lemma_layout(blobs, n);
    lemma_header_back(
        b,
        partition_id,
        column_count(entries) as u32,
        segment_count(entries) as u32,
        data_end(blobs, n) as u64,
        (ENTRY_LEN * n) as u64,
    );
    lemma_footer_back(b, crc(index_bytes(entries)), file_len(blobs) as u64);
    lemma_index_back(b, blobs);
}

/// A footer is read back as it was written.
proof fn lemma_footer_back(b: Seq<u8>, c: u32, total: u64)
    requires
        found_at(b, b.len() - FOOTER_LEN, footer_bytes(c, total)),
    ensures
        number_at(b, b.len() - FOOTER_LEN, 4) == c,
        number_at(b, b.len() - FOOTER_LEN + 4, 8) == total,
        b.subrange(b.len() - FOOTER_LEN + 12, b.len() as int) == footer_magic(),
{
    let at = b.len() - FOOTER_LEN;
    let x = le_bytes(c as nat, 4);
    let l = le_bytes(total as nat, 8);
    lemma_le_bytes_len(c as nat, 4);
    lemma_le_bytes_len(total as nat, 8);
    lemma_pow256();
    lemma_found_split(b, at, x + l, footer_magic());
    lemma_found_split(b, at, x, l);
    lemma_found_number(b, at, c as nat, 4);
    lemma_found_number(b, at + 4, total as nat, 8);
}

/// The index of a written file is read back.
proof fn lemma_index_back(b: Seq<u8>, blobs: Seq<Blob>)
    requires
        writable(blobs),
        b.len() == file_len(blobs),
        header_of(b).index_offset == data_end(blobs, blobs.len() as int),
        header_of(b).index_len == ENTRY_LEN * blobs.len(),
        found_at(
            b,
            data_end(blobs, blobs.len() as int),
            index_bytes(sorted(entries_of(blobs))),
        ),
        index_bytes(sorted(entries_of(blobs))).len() == ENTRY_LEN * blobs.len(),
        number_at(b, b.len() - FOOTER_LEN, 4) == crc(index_bytes(sorted(entries_of(blobs)))),
    ensures
        index_contents(b) == Ok::<Seq<IndexEntry>, Seq<char>>(sorted(entries_of(blobs))),
{
    let entries = sorted(entries_of(blobs));
    let n = blobs.len() as int;
    assert(index_part(b) == index_bytes(entries));
    lemma_index_round_trip(entries);
    lemma_entries_in_bounds(blobs);
    lemma_sorted(entries_of(blobs));
    lemma_sorted_idempotent(entries);
    assert((ENTRY_LEN * n) % ENTRY_LEN as int == 0) by (nonlinear_arith)
        requires
            ENTRY_LEN == 22,
    ;
}

/// No two blobs have the same column and segment.
pub open spec fn distinct_keys(blobs: Seq<Blob>) -> bool {
    forall|i: int, j: int|
        0 <= i < blobs.len() && 0 <= j < blobs.len() && (#[trigger] blobs[i]).col_idx == (
        #[trigger] blobs[j]).col_idx && blobs[i].segment_id == blobs[j].segment_id ==> i == j
}

/// A part of a part is a part.
proof fn lemma_part_of_part(s: Seq<u8>, from: int, to: int, i: int, j: int)
    requires
        0 <= from <= to <= s.len(),
        0 <= i <= j <= to - from,
    ensures
        s.subrange(from, to).subrange(i, j) == s.subrange(from + i, from + j),
{
    assert(s.subrange(from, to).subrange(i, j) =~= s.subrange(from + i, from + j));
}

/// Each blob stands in the data of all at its place.
proof fn lemma_blob_in_data(blobs: Seq<Blob>, i: int)
    requires
        0 <= i < blobs.len(),
    ensures
        ({
            let d = data_bytes(blobs, blobs.len() as int);
            let from = blob_start(blobs, i) - HEADER_LEN;
            &&& 0 <= from
            &&& from + blobs[i].data.len() <= d.len()
            &&& d.subrange(from, from + blobs[i].data.len()) == blobs[i].data
        }),
{
    let n = blobs.len() as int;
    let d = data_bytes(blobs, n);
    let e = data_bytes(blobs, i + 1);
    let from = blob_start(blobs, i) - HEADER_LEN;
    let len = blobs[i].data.len() as int;
    lemma_layout(blobs, i);
    lemma_layout(blobs, i + 1);
    lemma_data_prefix(blobs, i + 1, n);
    assert(e.subrange(from, from + len) =~= blobs[i].data);
    lemma_part_of_part(d, 0, e.len() as int, from, from + len);
}

proof fn lemma_blob_found(partition_id: u32, blobs: Seq<Blob>, i: int)
    requires
        writable(blobs),
        0 <= i < blobs.len(),
    ensures
        found_at(image(partition_id, blobs), blob_start(blobs, i), blobs[i].data),
{
    let b = image(partition_id, blobs);
    let d = data_bytes(blobs, blobs.len() as int);
    let from = blob_start(blobs, i) - HEADER_LEN;
    let len = blobs[i].data.len() as int;
    lemma_image_parts(partition_id, blobs);
    lemma_blob_in_data(blobs, i);
    lemma_part_of_part(b, HEADER_LEN as int, HEADER_LEN + d.len(), from, from + len);
}

/// Whatever entry of a written file is looked up for a blob's column and
/// segment, it gives the blob back, with its checksum verified or not.
pub proof fn lemma_written_blob_is_found(
    partition_id: u32,
    blobs: Seq<Blob>,
    i: int,
    e: IndexEntry,
    verify: bool,
)
    requires
        writable(blobs),
        distinct_keys(blobs),
        0 <= i < blobs.len(),
        sorted(entries_of(blobs)).contains(e),
        has_key(e, blobs[i].col_idx, blobs[i].segment_id),
    ensures
        blob_at(image(partition_id, blobs), e, verify) == Lookup::Found(blobs[i].data),
        e.offset as int % BLOB_ALIGN as int == 0,
{
    lemma_sorted(entries_of(blobs));
    let j = choose|j: int| 0 <= j < entries_of(blobs).len() && entries_of(blobs)[j] == e;
    assert(blobs[j].col_idx == blobs[i].col_idx && blobs[j].segment_id == blobs[i].segment_id);
    assert(j == i);
    lemma_blob_found(partition_id, blobs, i);
    lemma_layout(blobs, i);
    lemma_layout(blobs, i + 1);
    lemma_data_end_mono(blobs, i + 1, blobs.len() as int);
    assert(blobs[i].data.len() <= u32::MAX);
}

/// A column and a segment have an entry in a written file exactly where they
/// have a blob.
pub proof fn lemma_absent_without_blob(blobs: Seq<Blob>, col_idx: u16, segment_id: i32)
    ensures
        (exists|e: IndexEntry|
            sorted(entries_of(blobs)).contains(e) && #[trigger] has_key(e, col_idx, segment_id))
            <==> (exists|i: int|
            0 <= i < blobs.len() && (#[trigger] blobs[i]).col_idx == col_idx && blobs[i].segment_id
                == segment_id),
{
    lemma_sorted(entries_of(blobs));
    if exists|i: int|
        0 <= i < blobs.len() && (#[trigger] blobs[i]).col_idx == col_idx && blobs[i].segment_id
            == segment_id {
        let i = choose|i: int|
            0 <= i < blobs.len() && (#[trigger] blobs[i]).col_idx == col_idx && blobs[i].segment_id
                == segment_id;
        let e = entry_of(blobs, i);
        assert(entries_of(blobs)[i] == e);
        assert(entries_of(blobs).contains(e));
        assert(has_key(e, col_idx, segment_id));
    }
    if exists|e: IndexEntry|
        sorted(entries_of(blobs)).contains(e) && #[trigger] has_key(e, col_idx, segment_id) {
        let e = choose|e: IndexEntry|
            sorted(entries_of(blobs)).contains(e) && #[trigger] has_key(e, col_idx, segment_id);
        let i = choose|i: int| 0 <= i < entries_of(blobs).len() && entries_of(blobs)[i] == e;
        assert(blobs[i].col_idx == col_idx);
    }
}

/// A file that was cut off is rejected, wherever it was cut.
pub proof fn lemma_truncation_detected(b: Seq<u8>, k: int)
    requires
        file_contents(b) is Ok,
        0 <= k < b.len(),
    ensures
        file_contents(b.subrange(0, k)) is Err,
{
    let t = b.subrange(0, k);
    if k >= HEADER_LEN + FOOTER_LEN {
        lemma_header_same(b, t);
    }
}

/// The header of a file depends on its first 44 bytes alone.
proof fn lemma_header_same(b: Seq<u8>, t: Seq<u8>)
    requires
        b.len() >= HEADER_LEN,
        t.len() >= HEADER_LEN,
        forall|i: int| 0 <= i < HEADER_CRC_COVERAGE + 4 ==> b[i] == t[i],
    ensures
        header_of(b) == header_of(t),
        b.subrange(0, 6) == t.subrange(0, 6),
        b.subrange(0, HEADER_CRC_COVERAGE as int) == t.subrange(0, HEADER_CRC_COVERAGE as int),
        number_at(b, HEADER_CRC_COVERAGE as int, 4) == number_at(t, HEADER_CRC_COVERAGE as int, 4),
{
    assert(b.subrange(0, 6) =~= t.subrange(0, 6));
    assert(b.subrange(0, 40) =~= t.subrange(0, 40));
    assert(b.subrange(40, 44) =~= t.subrange(40, 44));
    assert(b.subrange(6, 8) =~= t.subrange(6, 8));
    assert(b.subrange(12, 16) =~= t.subrange(12, 16));
    assert(b.subrange(16, 20) =~= t.subrange(16, 20));
    assert(b.subrange(20, 24) =~= t.subrange(20, 24));
    assert(b.subrange(24, 32) =~= t.subrange(24, 32));
    assert(b.subrange(32, 40) =~= t.subrange(32, 40));
}

/// A file with a changed byte in the checked part of its header is rejected.
pub proof fn lemma_changed_header_detected(b: Seq<u8>, i: int, v: u8)
    requires
        file_contents(b) is Ok,
        0 <= i < HEADER_CRC_COVERAGE,
        v != b[i],
    ensures
        file_contents(b.update(i, v)) is Err,
{
    let t = b.update(i, v);
    lemma_crc_detects_changed_byte(b.subrange(0, 40), t.subrange(0, 40), i);
    assert(b.subrange(40, 44) =~= t.subrange(40, 44));
}

/// The index of a file that is read stands behind its header.
proof fn lemma_index_behind_header(b: Seq<u8>)
    requires
        file_contents(b) is Ok,
    ensures
        HEADER_LEN <= header_of(b).index_offset,
        header_of(b).index_offset + header_of(b).index_len == b.len() - FOOTER_LEN,
{
    let h = header_of(b);
    let start = h.index_offset as int;
    let index = index_part(b);
    let raw = raw_entries(index);
    lemma_first_where(raw, out_of_bounds(start));
    if h.index_len > 0 {
        assert(raw.len() > 0) by (nonlinear_arith)
            requires
                raw.len() == index.len() / 22nat,
                index.len() == h.index_len,
                h.index_len as int % 22 == 0,
                h.index_len > 0,
        ;
        assert(!out_of_bounds(start)(raw[0]));
    }
}

/// A file with a changed byte in its index is rejected.
pub proof fn lemma_changed_index_detected(b: Seq<u8>, i: int, v: u8)
    requires
        file_contents(b) is Ok,
        header_of(b).index_offset <= i < b.len() - FOOTER_LEN,
        v != b[i],
    ensures
        file_contents(b.update(i, v)) is Err,
{
    let t = b.update(i, v);
    let start = header_of(b).index_offset as int;
    let footer_at = b.len() - FOOTER_LEN;
    let index = index_part(b);
    lemma_index_behind_header(b);
    lemma_header_same(b, t);
    lemma_crc_detects_changed_byte(index, index_part(t), i - start);
    assert(b.subrange(footer_at, footer_at + 4) =~= t.subrange(footer_at, footer_at + 4));
}

/// A changed byte between the checked part of the header and the index does not
/// keep a file from being read; the index stays as it was.
pub proof fn lemma_blob_change_keeps_index(b: Seq<u8>, i: int, v: u8)
    requires
        file_contents(b) is Ok,
        HEADER_CRC_COVERAGE + 4 <= i < header_of(b).index_offset,
    ensures
        file_contents(b.update(i, v)) == file_contents(b),
{
    let t = b.update(i, v);
    let footer_at = b.len() - FOOTER_LEN;
    lemma_header_same(b, t);
    assert(index_part(t) =~= index_part(b));
    assert(b.subrange(footer_at, footer_at + 4) =~= t.subrange(footer_at, footer_at + 4));
    assert(b.subrange(footer_at + 4, footer_at + 12) =~= t.subrange(
        footer_at + 4,
        footer_at + 12,
    ));
    assert(b.subrange(footer_at + 12, b.len() as int) =~= t.subrange(
        footer_at + 12,
        b.len() as int,
    ));
}

/// A blob with a changed byte is noticed where its checksum is verified, and
/// given out where it is not.
pub proof fn lemma_changed_blob_detected(b: Seq<u8>, e: IndexEntry, i: int, v: u8)
    requires
        blob_at(b, e, true) is Found,
        e.offset <= i < e.offset + e.len,
        v != b[i],
    ensures
        blob_at(b.update(i, v), e, true) == Lookup::Corrupt,
        blob_at(b.update(i, v), e, false) is Found,
{
    let t = b.update(i, v);
    lemma_crc_detects_changed_byte(
        b.subrange(e.offset as int, e.offset + e.len),
        t.subrange(e.offset as int, e.offset + e.len),
        i - e.offset,
    );
}

/// A number in a file is another one once a byte of it has changed.
proof fn lemma_number_changed(b: Seq<u8>, i: int, v: u8, at: int, n: int)
    requires
        0 <= at <= i < at + n <= b.len(),
        v != b[i],
    ensures
        number_at(b.update(i, v), at, n) != number_at(b, at, n),
{
    let s = b.subrange(at, at + n);
    let t = b.update(i, v).subrange(at, at + n);
    assert(s[i - at] != t[i - at]);
    if le_value(s) == le_value(t) {
        lemma_le_value_injective(s, t);
    }
}

/// A file with a changed byte in the checksum of its header, or in its footer,
/// is rejected.
proof fn lemma_changed_checks_detected(b: Seq<u8>, i: int, v: u8)
    requires
        file_contents(b) is Ok,
        HEADER_CRC_COVERAGE <= i < HEADER_CRC_COVERAGE + 4 || b.len() - FOOTER_LEN <= i < b.len(),
        v != b[i],
    ensures
        file_contents(b.update(i, v)) is Err,
{
    let t = b.update(i, v);
    let footer_at = b.len() - FOOTER_LEN;
    if i < HEADER_CRC_COVERAGE + 4 {
        lemma_number_changed(b, i, v, HEADER_CRC_COVERAGE as int, 4);
        assert(b.subrange(0, HEADER_CRC_COVERAGE as int) =~= t.subrange(
            0,
            HEADER_CRC_COVERAGE as int,
        ));
    } else if i < footer_at + 4 {
        lemma_index_behind_header(b);
        lemma_header_same(b, t);
        lemma_number_changed(b, i, v, footer_at, 4);
        assert(index_part(b) =~= index_part(t));
    } else if i < footer_at + 12 {
        lemma_number_changed(b, i, v, footer_at + 4, 8);
    } else {
        let m = b.subrange(footer_at + 12, b.len() as int);
        let n = t.subrange(footer_at + 12, b.len() as int);
        assert(m[i - footer_at - 12] != n[i - footer_at - 12]);
    }
}

/// One changed byte of a file that is read keeps it from being read exactly where
/// it is in the first 44 bytes, in the index or behind it. Anywhere else the
/// header and the entries are read as before.
pub proof fn lemma_changed_byte(b: Seq<u8>, i: int, v: u8)
    requires
        file_contents(b) is Ok,
        0 <= i < b.len(),
        v != b[i],
    ensures
        if i < HEADER_CRC_COVERAGE + 4 || i >= header_of(b).index_offset {
            file_contents(b.update(i, v)) is Err
        } else {
            file_contents(b.update(i, v)) == file_contents(b)
        },
{
    lemma_index_behind_header(b);
    if i < HEADER_CRC_COVERAGE {
        lemma_changed_header_detected(b, i, v);
    } else if i < HEADER_CRC_COVERAGE + 4 || i >= b.len() - FOOTER_LEN {
        lemma_changed_checks_detected(b, i, v);
    } else if i >= header_of(b).index_offset {
        lemma_changed_index_detected(b, i, v);
    } else {
        lemma_blob_change_keeps_index(b, i, v);
    }
}

/// A file with anything behind its end is rejected.
pub proof fn lemma_appended_bytes_detected(b: Seq<u8>, x: Seq<u8>)
    requires
        file_contents(b) is Ok,
        x.len() > 0,
    ensures
        file_contents(b + x) is Err,
{
    lemma_index_behind_header(b);
    lemma_header_same(b, b + x);
}

/// The blobs of batches, one batch after the other.
pub open spec fn batched_blobs(batches: Seq<Seq<Blob>>) -> Seq<Blob>
    decreases batches.len(),
{
    if batches.len() == 0 {
        Seq::empty()
    } else {
        batched_blobs(batches.drop_last()) + batches.last()
    }
}

/// The bytes that batches add, each behind those before it.
pub open spec fn batched_bytes(batches: Seq<Seq<Blob>>) -> Seq<u8>
    decreases batches.len(),
{
    if batches.len() == 0 {
        Seq::empty()
    } else {
        batched_bytes(batches.drop_last()) + chunk_bytes(
            batched_blobs(batches.drop_last()),
            batches.last(),
        )
    }
}

proof fn lemma_batched_bytes(batches: Seq<Seq<Blob>>)
    ensures
        batched_bytes(batches) == data_bytes(
            batched_blobs(batches),
            batched_blobs(batches).len() as int,
        ),
    decreases batches.len(),
{
    if batches.len() > 0 {
        let done = batched_blobs(batches.drop_last());
        let all = batched_blobs(batches);
        let k = done.len() as int;
        lemma_batched_bytes(batches.drop_last());
        assert forall|i: int| 0 <= i < k implies done[i] == all[i] by {}
        lemma_prefix(done, all, k);
        lemma_data_prefix(all, k, all.len() as int);
        let d = data_bytes(all, all.len() as int);
        let m = data_bytes(done, k).len() as int;
        assert(d =~= d.subrange(0, m) + d.subrange(m, d.len() as int));
    }
}

/// However many batches the blobs come in, the header, what the batches add and
/// the end make the one file of these blobs.
pub proof fn lemma_any_batches_make_one_file(partition_id: u32, batches: Seq<Seq<Blob>>)
    ensures
        image_header(partition_id, batched_blobs(batches)) + batched_bytes(batches) + image_tail(
            batched_blobs(batches),
        ) == image(partition_id, batched_blobs(batches)),
{
    lemma_batched_bytes(batches);
}

/// How many columns some blobs have.
pub open spec fn blob_columns(blobs: Seq<Blob>) -> nat {
    blobs.map_values(|b: Blob| b.col_idx).to_set().len()
}

/// How many segments some blobs have.
pub open spec fn blob_segments(blobs: Seq<Blob>) -> nat {
    blobs.map_values(|b: Blob| b.segment_id).to_set().len()
}

/// The entries of a written file tell of as many columns and segments as its
/// blobs have.
proof fn lemma_counts_of_blobs(blobs: Seq<Blob>)
    ensures
        column_count(sorted(entries_of(blobs))) == blob_columns(blobs),
        segment_count(sorted(entries_of(blobs))) == blob_segments(blobs),
        blob_columns(blobs) <= blobs.len(),
        blob_segments(blobs) <= blobs.len(),
{
    let es = sorted(entries_of(blobs));
    lemma_sorted(entries_of(blobs));
    let ecols = es.map_values(|e: IndexEntry| e.col_idx);
    let esegs = es.map_values(|e: IndexEntry| e.segment_id);
    let bcols = blobs.map_values(|b: Blob| b.col_idx);
    let bsegs = blobs.map_values(|b: Blob| b.segment_id);
    assert forall|i: int| 0 <= i < blobs.len() implies bcols.contains(
        (#[trigger] blobs[i]).col_idx,
    ) && bsegs.contains(blobs[i].segment_id) && ecols.contains(blobs[i].col_idx) && esegs.contains(
        blobs[i].segment_id,
    ) by {
        assert(bcols[i] == blobs[i].col_idx && bsegs[i] == blobs[i].segment_id);
        assert(entries_of(blobs)[i] == entry_of(blobs, i));
        assert(entries_of(blobs).contains(entry_of(blobs, i)));
        assert(es.contains(entry_of(blobs, i)));
        let j = choose|j: int| 0 <= j < es.len() && es[j] == entry_of(blobs, i);
        assert(ecols[j] == blobs[i].col_idx && esegs[j] == blobs[i].segment_id);
    }
    assert forall|j: int| 0 <= j < es.len() implies bcols.contains((#[trigger] es[j]).col_idx)
        && bsegs.contains(es[j].segment_id) by {
        assert(es.contains(es[j]));
        let i = choose|i: int| 0 <= i < entries_of(blobs).len() && entries_of(blobs)[i] == es[j];
        assert(blobs[i].col_idx == es[j].col_idx);
    }
    assert(ecols.to_set() =~= bcols.to_set()) by {
        assert forall|c: u16| ecols.contains(c) == bcols.contains(c) by {
            if ecols.contains(c) {
                let j = choose|j: int| 0 <= j < ecols.len() && ecols[j] == c;
                assert(es[j].col_idx == c);
            }
            if bcols.contains(c) {
                let i = choose|i: int| 0 <= i < bcols.len() && bcols[i] == c;
                assert(blobs[i].col_idx == c);
            }
        }
    }
    assert(esegs.to_set() =~= bsegs.to_set()) by {
        assert forall|c: i32| esegs.contains(c) == bsegs.contains(c) by {
            if esegs.contains(c) {
                let j = choose|j: int| 0 <= j < esegs.len() && esegs[j] == c;
                assert(es[j].segment_id == c);
            }
            if bsegs.contains(c) {
                let i = choose|i: int| 0 <= i < bsegs.len() && bsegs[i] == c;
                assert(blobs[i].segment_id == c);
            }
        }
    }
    bcols.lemma_cardinality_of_set();
    bsegs.lemma_cardinality_of_set();
}

/// What is written is read back, in whatever order the blobs come and in whatever
/// batches: the partition, how many columns and segments there are, and one
/// entry for each blob, in order of column and segment, that has the blob's
/// length and checksum and leads to its bytes at an aligned place.
pub proof fn lemma_written_file_reads_back(partition_id: u32, blobs: Seq<Blob>)
    requires
        writable(blobs),
        distinct_keys(blobs),
    ensures
        file_contents(image(partition_id, blobs)) matches Ok((h, es)) && {
            &&& h.partition_id == partition_id
            &&& blobs.len() <= u32::MAX ==> h.n_columns == blob_columns(blobs) && h.n_segments
                == blob_segments(blobs)
            &&& es.len() == blobs.len()
            &&& is_sorted(es)
            &&& forall|i: int|
                0 <= i < blobs.len() ==> es.contains(#[trigger] entry_of(blobs, i))
            &&& forall|e: IndexEntry, i: int|
                #![trigger es.contains(e), blobs[i]]
                es.contains(e) && 0 <= i < blobs.len() && has_key(
                    e,
                    blobs[i].col_idx,
                    blobs[i].segment_id,
                ) ==> {
                    &&& e.offset as int % BLOB_ALIGN as int == 0
                    &&& e.len == blobs[i].data.len()
                    &&& e.crc == crc(blobs[i].data)
                    &&& image(partition_id, blobs).subrange(e.offset as int, e.offset + e.len)
                        == blobs[i].data
                }
        },
{
    let b = image(partition_id, blobs);
    let es = sorted(entries_of(blobs));
    lemma_file_round_trip(partition_id, blobs);
    lemma_sorted(entries_of(blobs));
    lemma_counts_of_blobs(blobs);
    assert forall|i: int| 0 <= i < blobs.len() implies es.contains(
        #[trigger] entry_of(blobs, i),
    ) by {
        assert(entries_of(blobs)[i] == entry_of(blobs, i));
        assert(entries_of(blobs).contains(entry_of(blobs, i)));
    }
    assert forall|e: IndexEntry, i: int|
        #![trigger es.contains(e), blobs[i]]
        es.contains(e) && 0 <= i < blobs.len() && has_key(
            e,
            blobs[i].col_idx,
            blobs[i].segment_id,
        ) implies {
        &&& e.offset as int % BLOB_ALIGN as int == 0
        &&& e.len == blobs[i].data.len()
        &&& e.crc == crc(blobs[i].data)
        &&& b.subrange(e.offset as int, e.offset + e.len) == blobs[i].data
    } by {
        lemma_written_blob_is_found(partition_id, blobs, i, e, false);
        let j = choose|j: int| 0 <= j < entries_of(blobs).len() && entries_of(blobs)[j] == e;
        assert(blobs[j].col_idx == blobs[i].col_idx && blobs[j].segment_id == blobs[i].segment_id);
        assert(blobs[i].data.len() <= u32::MAX);
    }
}

/// A file of blobs that are sorted by column and segment is read back entry by
/// entry: each has its blob's column, segment, length and checksum, and leads to
/// the blob's bytes at an aligned place.
pub proof fn lemma_sorted_file_reads_back(partition_id: u32, blobs: Seq<Blob>)
    requires
        writable(blobs),
        strictly_sorted(blobs),
    ensures
        file_contents(image(partition_id, blobs)) matches Ok((h, es)) && {
            &&& h.partition_id == partition_id
            &&& es.len() == blobs.len()
            &&& forall|i: int|
                #![trigger es[i]]
                0 <= i < blobs.len() ==> {
                    &&& es[i].col_idx == blobs[i].col_idx
                    &&& es[i].segment_id == blobs[i].segment_id
                    &&& es[i].offset as int % BLOB_ALIGN as int == 0
                    &&& es[i].len == blobs[i].data.len()
                    &&& es[i].crc == crc(blobs[i].data)
                    &&& image(partition_id, blobs).subrange(
                        es[i].offset as int,
                        es[i].offset + es[i].len,
                    ) == blobs[i].data
                }
        },
{
    let es = entries_of(blobs);
    assert(distinct_keys(blobs)) by {
        assert forall|i: int, j: int|
            0 <= i < blobs.len() && 0 <= j < blobs.len() && (#[trigger] blobs[i]).col_idx == (
            #[trigger] blobs[j]).col_idx && blobs[i].segment_id == blobs[j].segment_id implies i
            == j by {
            if i < j {
                assert(blobs[i].col_idx < blobs[j].col_idx || blobs[i].segment_id
                    < blobs[j].segment_id);
            } else if j < i {
                assert(blobs[j].col_idx < blobs[i].col_idx || blobs[j].segment_id
                    < blobs[i].segment_id);
            }
        }
    }
    assert(is_sorted(es)) by {
        assert forall|x: int, y: int| 0 <= x <= y < es.len() implies key_le(
            #[trigger] es[x],
            #[trigger] es[y],
        ) by {
            if x < y {
                assert(blobs[x].col_idx < blobs[y].col_idx || (blobs[x].col_idx
                    == blobs[y].col_idx && blobs[x].segment_id < blobs[y].segment_id));
            }
        }
    }
    lemma_sorted_idempotent(es);
    lemma_written_file_reads_back(partition_id, blobs);
    lemma_file_round_trip(partition_id, blobs);
    assert forall|i: int| #![trigger es[i]] 0 <= i < blobs.len() implies has_key(
        es[i],
        blobs[i].col_idx,
        blobs[i].segment_id,
    ) && es.contains(es[i]) by {}
}

} // verus!
