//! Reading of segment files: validation, the blob index, and lookup of blobs.

use vstd::prelude::*;
use vstd::slice::slice_subrange;
use vstd::string::*;
use crate::bytes::{le_u16, le_u32, le_u64, le_value};
use crate::crc::{crc, crc32c};
use crate::decimal::{append_numeral, append_signed, numeral, signed_numeral};
use crate::search::{first_where, lemma_first_is, lemma_first_none};
use crate::segment_file::{
    file_len, footer_magic, is_sorted, key_le, magic, sort_entries, sorted, IndexEntry,
    SegmentFileHeader, ENTRY_LEN, FOOTER_LEN, HEADER_CRC_COVERAGE, HEADER_LEN, VERSION,
};

verus! {

// ---------------------------------------------------------------------------
// What a file says
// ---------------------------------------------------------------------------

/// The number in `n` bytes from `at` on.
pub open spec fn number_at(b: Seq<u8>, at: int, n: int) -> nat {
    le_value(b.subrange(at, at + n))
}

/// The header of a file, as far as it is long enough to have one.
pub open spec fn header_of(b: Seq<u8>) -> SegmentFileHeader {
    SegmentFileHeader {
        version: number_at(b, 6, 2) as u16,
        partition_id: number_at(b, 12, 4) as u32,
        n_columns: number_at(b, 16, 4) as u32,
        n_segments: number_at(b, 20, 4) as u32,
        index_offset: number_at(b, 24, 8) as u64,
        index_len: number_at(b, 32, 8) as u64,
    }
}

/// Entry `i` of an index.
pub open spec fn raw_entry(index: Seq<u8>, i: int) -> IndexEntry {
    let at = i * ENTRY_LEN;
    IndexEntry {
        col_idx: number_at(index, at, 2) as u16,
        segment_id: (number_at(index, at + 2, 4) as u32) as i32,
        offset: number_at(index, at + 6, 8) as u64,
        len: number_at(index, at + 14, 4) as u32,
        crc: number_at(index, at + 18, 4) as u32,
    }
}

/// The entries of an index, in the order in which they stand there.
pub open spec fn raw_entries(index: Seq<u8>) -> Seq<IndexEntry> {
    Seq::new((index.len() / ENTRY_LEN as nat), |i: int| raw_entry(index, i))
}

/// Whether a blob lies between the header and the index.
pub open spec fn in_bounds(e: IndexEntry, index_offset: int) -> bool {
    HEADER_LEN <= e.offset && e.offset + e.len <= index_offset
}

pub open spec fn out_of_bounds(index_offset: int) -> spec_fn(IndexEntry) -> bool {
    |e: IndexEntry| !in_bounds(e, index_offset)
}

pub open spec fn too_short_message(len: nat) -> Seq<char> {
    "file too short ("@ + numeral(len) + " bytes)"@
}

pub open spec fn version_message(version: u16) -> Seq<char> {
    "unsupported segment-file version "@ + numeral(version as nat) + " (expected "@ + numeral(
        VERSION as nat,
    ) + "); recompress the partition"@
}

pub open spec fn length_message(claimed: u64, len: nat) -> Seq<char> {
    "footer file_len "@ + numeral(claimed as nat) + " != actual length "@ + numeral(len)
        + " (truncated?)"@
}

pub open spec fn bounds_message(e: IndexEntry) -> Seq<char> {
    "index entry (col "@ + numeral(e.col_idx as nat) + ", seg "@ + signed_numeral(
        e.segment_id as int,
    ) + ") out of bounds"@
}

/// The index of a file whose bounds are consistent.
pub open spec fn index_part(b: Seq<u8>) -> Seq<u8> {
    b.subrange(header_of(b).index_offset as int, b.len() - FOOTER_LEN)
}

/// What the index of a file says: its entries sorted by column and segment, or
/// why it cannot be trusted.
pub open spec fn index_contents(b: Seq<u8>) -> Result<Seq<IndexEntry>, Seq<char>> {
    let h = header_of(b);
    let footer_at = b.len() - FOOTER_LEN;
    let raw = raw_entries(index_part(b));
    if h.index_offset + h.index_len != footer_at || h.index_len as int % ENTRY_LEN as int != 0 {
        Err("index bounds inconsistent with file length"@)
    } else if crc(index_part(b)) != number_at(b, footer_at, 4) {
        Err("index checksum mismatch"@)
    } else {
        match first_where(raw, out_of_bounds(h.index_offset as int)) {
            Some(i) => Err(bounds_message(raw[i])),
            None => Ok(sorted(raw)),
        }
    }
}

/// What a file says: its header and its entries sorted by column and segment,
/// or why it cannot be trusted. Blobs are not looked at.
pub open spec fn file_contents(b: Seq<u8>) -> Result<
    (SegmentFileHeader, Seq<IndexEntry>),
    Seq<char>,
> {
    let footer_at = b.len() - FOOTER_LEN;
    if b.len() < HEADER_LEN + FOOTER_LEN {
        Err(too_short_message(b.len()))
    } else if b.subrange(0, 6) != magic() {
        Err("bad header magic"@)
    } else if header_of(b).version != VERSION {
        Err(version_message(header_of(b).version))
    } else if crc(b.subrange(0, HEADER_CRC_COVERAGE as int)) != number_at(
        b,
        HEADER_CRC_COVERAGE as int,
        4,
    ) {
        Err("header checksum mismatch"@)
    } else if b.subrange(footer_at + 12, b.len() as int) != footer_magic() {
        Err("bad footer magic"@)
    } else if number_at(b, footer_at + 4, 8) != b.len() {
        Err(length_message(number_at(b, footer_at + 4, 8) as u64, b.len()))
    } else {
        match index_contents(b) {
            Ok(entries) => Ok((header_of(b), entries)),
            Err(m) => Err(m),
        }
    }
}

// ---------------------------------------------------------------------------
// Validation
// ---------------------------------------------------------------------------

fn has_magic(b: &[u8]) -> (r: bool)
    requires
        b@.len() >= 6,
    ensures
        r == (b@.subrange(0, 6) == magic()),
{
    let r = b[0] == 0x44 && b[1] == 0x58 && b[2] == 0x53 && b[3] == 0x45 && b[4] == 0x47 && b[5]
        == 0;
    let ghost s = b@.subrange(0, 6);
    if r {
        assert(s =~= magic());
    } else {
        assert(s[0] != magic()[0] || s[1] != magic()[1] || s[2] != magic()[2] || s[3] != magic()[3]
            || s[4] != magic()[4] || s[5] != magic()[5]);
    }
    r
}

fn has_footer_magic(b: &[u8], at: usize) -> (r: bool)
    requires
        at + 4 == b@.len(),
    ensures
        r == (b@.subrange(at as int, b@.len() as int) == footer_magic()),
{
    let n: usize = b.len();
    let r = b[at] == 0x44 && b[n - 3] == 0x58 && b[n - 2] == 0x53 && b[n - 1] == 0x45;
    let ghost s = b@.subrange(at as int, b@.len() as int);
    if r {
        assert(s =~= footer_magic());
    } else {
        assert(s[0] != footer_magic()[0] || s[1] != footer_magic()[1] || s[2] != footer_magic()[2]
            || s[3] != footer_magic()[3]);
    }
    r
}

fn short_error(len: usize) -> (r: String)
    ensures
        r@ == too_short_message(len as nat),
{
    let mut m: String = "file too short (".to_owned();
    append_numeral(&mut m, len as u64);
    m.append(" bytes)");
    m
}

fn version_error(version: u16) -> (r: String)
    ensures
        r@ == version_message(version),
{
    let mut m: String = "unsupported segment-file version ".to_owned();
    append_numeral(&mut m, version as u64);
    m.append(" (expected ");
    append_numeral(&mut m, VERSION as u64);
    m.append("); recompress the partition");
    m
}

fn length_error(claimed: u64, len: usize) -> (r: String)
    ensures
        r@ == length_message(claimed, len as nat),
{
    let mut m: String = "footer file_len ".to_owned();
    append_numeral(&mut m, claimed);
    m.append(" != actual length ");
    append_numeral(&mut m, len as u64);
    m.append(" (truncated?)");
    m
}

fn bounds_error(e: &IndexEntry) -> (r: String)
    ensures
        r@ == bounds_message(*e),
{
    let mut m: String = "index entry (col ".to_owned();
    append_numeral(&mut m, e.col_idx as u64);
    m.append(", seg ");
    append_signed(&mut m, e.segment_id as i64);
    m.append(") out of bounds");
    m
}

fn read_header(b: &[u8]) -> (r: SegmentFileHeader)
    requires
        b@.len() >= HEADER_LEN,
    ensures
        r == header_of(b@),
{
    SegmentFileHeader {
        version: le_u16(b, 6),
        partition_id: le_u32(b, 12),
        n_columns: le_u32(b, 16),
        n_segments: le_u32(b, 20),
        index_offset: le_u64(b, 24),
        index_len: le_u64(b, 32),
    }
}

fn read_entry(index: &[u8], i: usize) -> (r: IndexEntry)
    requires
        (i + 1) * ENTRY_LEN <= index@.len(),
    ensures
        r == raw_entry(index@, i as int),
{
    let n: usize = index.len();
    assert(i * ENTRY_LEN + ENTRY_LEN == (i + 1) * ENTRY_LEN) by (nonlinear_arith);
    let at: usize = i * ENTRY_LEN;
    let seg: u32 = le_u32(index, at + 2);
    IndexEntry {
        col_idx: le_u16(index, at),
        segment_id: #[verifier::truncate]
        (seg as i32),
        offset: le_u64(index, at + 6),
        len: le_u32(index, at + 14),
        crc: le_u32(index, at + 18),
    }
}

fn read_index(b: &[u8], h: &SegmentFileHeader) -> (r: Result<Vec<IndexEntry>, String>)
    requires
        b@.len() >= HEADER_LEN + FOOTER_LEN,
        *h == header_of(b@),
    ensures
        match r {
            Ok(v) => is_sorted(v@) && index_contents(b@) == Ok::<Seq<IndexEntry>, Seq<char>>(v@),
            Err(m) => index_contents(b@) == Err::<Seq<IndexEntry>, Seq<char>>(m@),
        },
{
    let footer_at: usize = b.len() - FOOTER_LEN;
    if h.index_offset > footer_at as u64 || h.index_len != footer_at as u64 - h.index_offset
        || h.index_len % (ENTRY_LEN as u64) != 0 {
        return Err("index bounds inconsistent with file length".to_owned());
    }
    let start: usize = h.index_offset as usize;
    let index = slice_subrange(b, start, footer_at);
    assert(index@ == index_part(b@));
    if crc32c(index) != le_u32(b, footer_at) {
        return Err("index checksum mismatch".to_owned());
    }
    let n: usize = index.len() / ENTRY_LEN;
    let ghost raw = raw_entries(index@);
    let ghost p = out_of_bounds(h.index_offset as int);
    let mut entries: Vec<IndexEntry> = Vec::new();
    let mut i: usize = 0;
    while i < n
        invariant
            i <= n,
            n == index@.len() / ENTRY_LEN as nat,
            index@ == index_part(b@),
            b@.len() >= HEADER_LEN + FOOTER_LEN,
            *h == header_of(b@),
            footer_at == b@.len() - FOOTER_LEN,
            h.index_offset + h.index_len == footer_at,
            h.index_len as int % ENTRY_LEN as int == 0,
            crc(index_part(b@)) == number_at(b@, footer_at as int, 4),
            raw == raw_entries(index@),
            p == out_of_bounds(h.index_offset as int),
            entries@ == raw.subrange(0, i as int),
            forall|j: int| 0 <= j < i ==> !p(#[trigger] raw[j]),
        decreases n - i,
    {
        assert((i + 1) * ENTRY_LEN <= index@.len()) by (nonlinear_arith)
            requires
                i < n,
                n == index@.len() / 22nat,
                ENTRY_LEN == 22,
        ;
        let e = read_entry(index, i);
        assert(raw[i as int] == e);
        if e.offset < HEADER_LEN as u64 || e.offset as u128 + e.len as u128
            > h.index_offset as u128 {
            proof {
                lemma_first_is(raw, p, i as int);
            }
            return Err(bounds_error(&e));
        }
        entries.push(e);
        i += 1;
        assert(entries@ =~= raw.subrange(0, i as int));
    }
    proof {
        lemma_first_none(raw, p);
        assert(raw.subrange(0, i as int) =~= raw);
    }
    Ok(sort_entries(&entries))
}

/// Validates the header, the footer and the index of a file and reads the
/// index, sorted by column and segment. Blobs are not looked at.
pub fn parse_and_validate(bytes: &[u8]) -> (r: Result<(SegmentFileHeader, Vec<IndexEntry>), String>)
    ensures
        match r {
            Ok((h, v)) => is_sorted(v@) && file_contents(bytes@) == Ok::<
                (SegmentFileHeader, Seq<IndexEntry>),
                Seq<char>,
            >((h, v@)),
            Err(m) => file_contents(bytes@) == Err::<
                (SegmentFileHeader, Seq<IndexEntry>),
                Seq<char>,
            >(m@),
        },
{
    let len: usize = bytes.len();
    if len < HEADER_LEN + FOOTER_LEN {
        return Err(short_error(len));
    }
    if !has_magic(bytes) {
        return Err("bad header magic".to_owned());
    }
    let header = read_header(bytes);
    if header.version != VERSION {
        return Err(version_error(header.version));
    }
    if crc32c(slice_subrange(bytes, 0, HEADER_CRC_COVERAGE)) != le_u32(bytes, HEADER_CRC_COVERAGE) {
        return Err("header checksum mismatch".to_owned());
    }
    let footer_at: usize = len - FOOTER_LEN;
    if !has_footer_magic(bytes, footer_at + 12) {
        return Err("bad footer magic".to_owned());
    }
    let claimed: u64 = le_u64(bytes, footer_at + 4);
    if claimed != len as u64 {
        return Err(length_error(claimed, len));
    }
    match read_index(bytes, &header) {
        Ok(entries) => Ok((header, entries)),
        Err(m) => Err(m),
    }
}

// ---------------------------------------------------------------------------
// Lookup
// ---------------------------------------------------------------------------

/// What is found for a column and a segment.
pub enum BlobLookup<'a> {
    Found(&'a [u8]),
    /// There is no blob: the column holds nothing but NULL in the segment, or
    /// was added later.
    Absent,
    /// The file cannot be used.
    Corrupt,
}

/// The mathematical value of a `BlobLookup`.
pub enum Lookup {
    Found(Seq<u8>),
    Absent,
    Corrupt,
}

impl<'a> BlobLookup<'a> {
    pub open spec fn view(&self) -> Lookup {
        match self {
            BlobLookup::Found(s) => Lookup::Found(s@),
            BlobLookup::Absent => Lookup::Absent,
            BlobLookup::Corrupt => Lookup::Corrupt,
        }
    }
}

pub open spec fn has_key(e: IndexEntry, col_idx: u16, segment_id: i32) -> bool {
    e.col_idx == col_idx && e.segment_id == segment_id
}

/// The blob of an entry, where it lies in the file and, if that is asked for,
/// its checksum is right.
pub open spec fn blob_at(b: Seq<u8>, e: IndexEntry, verify: bool) -> Lookup {
    if e.offset + e.len > b.len() {
        Lookup::Corrupt
    } else if verify && crc(b.subrange(e.offset as int, e.offset + e.len)) != e.crc {
        Lookup::Corrupt
    } else {
        Lookup::Found(b.subrange(e.offset as int, e.offset + e.len))
    }
}

fn find_entry(entries: &Vec<IndexEntry>, col_idx: u16, segment_id: i32) -> (r: Option<usize>)
    requires
        is_sorted(entries@),
    ensures
        match r {
            Some(i) => i < entries@.len() && has_key(entries@[i as int], col_idx, segment_id),
            None => forall|i: int|
                0 <= i < entries@.len() ==> !has_key(#[trigger] entries@[i], col_idx, segment_id),
        },
{
    let mut lo: usize = 0;
    let mut hi: usize = entries.len();
    while lo < hi
        invariant
            lo <= hi <= entries.len(),
            is_sorted(entries@),
            forall|i: int|
                0 <= i < lo ==> !has_key(#[trigger] entries@[i], col_idx, segment_id),
            forall|i: int|
                hi <= i < entries@.len() ==> !has_key(#[trigger] entries@[i], col_idx, segment_id),
        decreases hi - lo,
    {
        let mid: usize = lo + (hi - lo) / 2;
        let e = entries[mid];
        if e.col_idx == col_idx && e.segment_id == segment_id {
            return Some(mid);
        }
        if e.col_idx < col_idx || (e.col_idx == col_idx && e.segment_id < segment_id) {
            assert forall|i: int| lo <= i <= mid implies !has_key(
                #[trigger] entries@[i],
                col_idx,
                segment_id,
            ) by {
                assert(key_le(entries@[i], entries@[mid as int]));
            }
            lo = mid + 1;
        } else {
            assert forall|i: int| mid <= i < hi implies !has_key(
                #[trigger] entries@[i],
                col_idx,
                segment_id,
            ) by {
                assert(key_le(entries@[mid as int], entries@[i]));
            }
            hi = mid;
        }
    }
    None
}

/// Looks up the blob of a column and a segment in a file with the given
/// entries. With `verify_crc` its checksum is checked.
pub fn lookup_blob<'a>(
    bytes: &'a [u8],
    entries: &Vec<IndexEntry>,
    col_idx: u16,
    segment_id: i32,
    verify_crc: bool,
) -> (r: BlobLookup<'a>)
    requires
        is_sorted(entries@),
    ensures
        (exists|i: int|
            0 <= i < entries@.len() && has_key(#[trigger] entries@[i], col_idx, segment_id)
                && r.view() == blob_at(bytes@, entries@[i], verify_crc)) || (r.view()
            == Lookup::Absent && forall|i: int|
            0 <= i < entries@.len() ==> !has_key(#[trigger] entries@[i], col_idx, segment_id)),
{
    let pos: usize = match find_entry(entries, col_idx, segment_id) {
        Some(i) => i,
        None => {
            return BlobLookup::Absent;
        },
    };
    let e = entries[pos];
    assert(has_key(entries@[pos as int], col_idx, segment_id));
    if e.offset as u128 + e.len as u128 > bytes.len() as u128 {
        return BlobLookup::Corrupt;
    }
    let slice = slice_subrange(bytes, e.offset as usize, (e.offset + e.len as u64) as usize);
    if verify_crc && crc32c(slice) != e.crc {
        return BlobLookup::Corrupt;
    }
    BlobLookup::Found(slice)
}

} // verus!
