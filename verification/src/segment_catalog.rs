//! Names of segment files, and how the catalog refers to them.

use vstd::prelude::*;
use vstd::string::*;
use crate::bytes::{push_bytes, same_bytes};
use crate::decimal::{append_numeral, append_signed, digit_char, numeral, signed_numeral};
use crate::segment_file::{blobs_of, data_bytes, file_len, image, Blob, SegmentFileWriter};
use crate::text::text_is;

verus! {

/// Name of a partition's segment file. The generation differs each time the
/// partition is compressed, so that a name is never used again.
pub open spec fn file_name(partition_id: i32, generation: u64) -> Seq<char> {
    signed_numeral(partition_id as int) + "_"@ + numeral(generation as nat) + ".dxs"@
}

/// Path of a segment file below the data directory.
pub open spec fn rel_path(db_oid: u32, name: Seq<char>) -> Seq<char> {
    "pg_deltax/"@ + numeral(db_oid as nat) + "/"@ + name
}

/// Name of a partition's segment file.
pub fn segment_file_name(partition_id: i32, generation: u64) -> (r: String)
    ensures
        r@ == file_name(partition_id, generation),
{
    let mut s: String = String::new();
    append_signed(&mut s, partition_id as i64);
    assert(s@ =~= signed_numeral(partition_id as int));
    s.append("_");
    append_numeral(&mut s, generation);
    s.append(".dxs");
    s
}

/// Path of a segment file below the data directory.
pub fn segment_file_path(db_oid: u32, name: &str) -> (r: String)
    ensures
        r@ == rel_path(db_oid, name@),
{
    let mut s: String = "pg_deltax/".to_owned();
    append_numeral(&mut s, db_oid as u64);
    s.append("/");
    s.append(name);
    s
}

/// Name under which a segment file is written until it is complete.
pub fn temporary_name(name: &str) -> (r: String)
    ensures
        r@ == name@ + ".tmp"@,
{
    let mut s: String = name.to_owned();
    s.append(".tmp");
    s
}

/// A segment file to be written.
pub struct PartitionFile {
    pub file_name: String,
    /// Path below the data directory, as the catalog holds it.
    pub rel_path: String,
    pub bytes: Vec<u8>,
}

/// The segment file of a partition's blobs.
pub fn write_partition_blob_file(
    partition_id: i32,
    db_oid: u32,
    generation: u64,
    blobs: &[(u16, i32, Vec<u8>)],
) -> (r: PartitionFile)
    requires
        file_len(blobs_of(blobs@)) <= u64::MAX,
    ensures
        r.file_name@ == file_name(partition_id, generation),
        r.rel_path@ == rel_path(db_oid, file_name(partition_id, generation)),
        r.bytes@ == image(partition_id as u32, blobs_of(blobs@)),
{
    let ghost all = blobs_of(blobs@);
    let id: u32 = #[verifier::truncate]
    (partition_id as u32);
    let mut writer = SegmentFileWriter::create(id);
    assert(Seq::<Blob>::empty() + all =~= all);
    let data = writer.append_blobs(blobs);
    assert(data@ =~= data_bytes(all, all.len() as int)) by {
        assert(data_bytes(Seq::<Blob>::empty(), 0) =~= Seq::<u8>::empty());
    }
    let (header, tail) = writer.finish();
    let mut bytes = header;
    push_bytes(&mut bytes, data.as_slice());
    push_bytes(&mut bytes, tail.as_slice());
    let file_name = segment_file_name(partition_id, generation);
    let rel_path = segment_file_path(db_oid, file_name.as_str());
    PartitionFile { file_name, rel_path, bytes }
}

/// Whether checksums of blobs are verified on lookup: always in a debug build,
/// else where the setting asks for it.
pub fn verify_checksums(debug_build: bool, setting: bool) -> (r: bool)
    ensures
        r == (debug_build || setting),
{
    debug_build || setting
}

/// A column of the partition catalog.
pub struct CatalogColumn {
    pub name: String,
    pub dropped: bool,
}

/// Positions of the columns of the partition catalog that are read.
#[derive(Clone, Copy, Debug, PartialEq, Eq, Structural)]
pub struct CatalogLayout {
    pub table_name: usize,
    pub is_compressed: usize,
    pub blob_file: usize,
}

/// Position of the last live column of that name among the first `n`.
pub open spec fn last_named(cols: Seq<CatalogColumn>, name: Seq<char>, n: int) -> Option<int>
    decreases n,
{
    if n <= 0 {
        None
    } else if !cols[n - 1].dropped && cols[n - 1].name@ == name {
        Some(n - 1)
    } else {
        last_named(cols, name, n - 1)
    }
}

fn find_last_named(cols: &Vec<CatalogColumn>, name: &str) -> (r: Option<usize>)
    ensures
        match r {
            Some(i) => last_named(cols@, name@, cols@.len() as int) == Some(i as int) && i
                < cols.len(),
            None => last_named(cols@, name@, cols@.len() as int) is None,
        },
{
    let mut found: Option<usize> = None;
    let mut i: usize = 0;
    while i < cols.len()
        invariant
            i <= cols.len(),
            match found {
                Some(k) => last_named(cols@, name@, i as int) == Some(k as int) && k < i,
                None => last_named(cols@, name@, i as int) is None,
            },
        decreases cols.len() - i,
    {
        if !cols[i].dropped && text_is(cols[i].name.as_str(), name) {
            found = Some(i);
        }
        i += 1;
    }
    found
}

/// Finds the columns of the partition catalog that are read; none where one is
/// missing.
pub fn catalog_layout(cols: &Vec<CatalogColumn>) -> (r: Option<CatalogLayout>)
    ensures
        ({
            let n = cols@.len() as int;
            let a = last_named(cols@, "table_name"@, n);
            let b = last_named(cols@, "is_compressed"@, n);
            let c = last_named(cols@, "blob_file"@, n);
            match r {
                Some(l) => a == Some(l.table_name as int) && b == Some(l.is_compressed as int) && c
                    == Some(l.blob_file as int),
                None => a is None || b is None || c is None,
            }
        }),
{
    match (
        find_last_named(cols, "table_name"),
        find_last_named(cols, "is_compressed"),
        find_last_named(cols, "blob_file"),
    ) {
        (Some(table_name), Some(is_compressed), Some(blob_file)) => Some(
            CatalogLayout { table_name, is_compressed, blob_file },
        ),
        _ => None,
    }
}

/// A row of the partition catalog.
pub struct CatalogRow {
    pub table_name: Option<Vec<u8>>,
    pub is_compressed: Option<bool>,
    pub blob_file: Option<Vec<u8>>,
}

/// Whether a row is of the compressed partition of that name and refers to a file.
pub open spec fn refers_to_file(row: CatalogRow, partition: Seq<u8>) -> bool {
    &&& row.table_name matches Some(n) && n@ == partition
    &&& row.is_compressed == Some(true)
    &&& row.blob_file is Some
}

/// Whether a row is of the compressed partition of that name and refers to a
/// segment file.
pub fn row_refers_to_file(row: &CatalogRow, partition_name: &str) -> (r: bool)
    ensures
        r == refers_to_file(*row, partition_name.spec_bytes()),
{
    match (&row.table_name, row.is_compressed, &row.blob_file) {
        (Some(n), Some(compressed), Some(_)) => compressed && same_bytes(
            n,
            partition_name.as_bytes(),
        ),
        _ => false,
    }
}

// ---------------------------------------------------------------------------
// Names
// ---------------------------------------------------------------------------

proof fn lemma_numeral_chars(n: nat)
    ensures
        numeral(n).len() > 0,
        forall|i: int| 0 <= i < numeral(n).len() ==> '0' <= #[trigger] numeral(n)[i] <= '9',
    decreases n,
{
    if n >= 10 {
        lemma_numeral_chars(n / 10);
    }
}

proof fn lemma_numerals_differ(a: nat, b: nat)
    requires
        numeral(a) == numeral(b),
    ensures
        a == b,
    decreases a,
{
    lemma_numeral_chars(a / 10);
    lemma_numeral_chars(b / 10);
    assert(numeral(a).last() == digit_char((a % 10) as int));
    assert(numeral(b).last() == digit_char((b % 10) as int));
    if a >= 10 && b >= 10 {
        assert(numeral(a).drop_last() =~= numeral(a / 10));
        assert(numeral(b).drop_last() =~= numeral(b / 10));
        lemma_numerals_differ(a / 10, b / 10);
    } else if a >= 10 {
        assert(numeral(a).len() >= 2);
    } else if b >= 10 {
        assert(numeral(b).len() >= 2);
    }
}

proof fn lemma_signed_differ(a: int, b: int)
    requires
        signed_numeral(a) == signed_numeral(b),
    ensures
        a == b,
{
    let (x, y) = (
        if a < 0 {
            (-a) as nat
        } else {
            a as nat
        },
        if b < 0 {
            (-b) as nat
        } else {
            b as nat
        },
    );
    lemma_numeral_chars(x);
    lemma_numeral_chars(y);
    let (s, t) = (signed_numeral(a), signed_numeral(b));
    assert(s[0] == t[0]);
    assert(numeral(x) =~= if a < 0 {
        s.subrange(1, s.len() as int)
    } else {
        s
    });
    assert(numeral(y) =~= if b < 0 {
        t.subrange(1, t.len() as int)
    } else {
        t
    });
    lemma_numerals_differ(x, y);
}

/// Two segment files have the same name only where they are of the same partition
/// and the same generation: a name is never used again.
pub proof fn lemma_names_are_not_reused(p: i32, g: u64, q: i32, h: u64)
    requires
        file_name(p, g) == file_name(q, h),
    ensures
        p == q,
        g == h,
{
    reveal_strlit("_");
    reveal_strlit(".dxs");
    let (a, b) = (signed_numeral(p as int), signed_numeral(q as int));
    let (c, d) = (numeral(g as nat), numeral(h as nat));
    let f = file_name(p, g);
    lemma_numeral_chars(
        if p < 0 {
            (-p) as nat
        } else {
            p as nat
        },
    );
    lemma_numeral_chars(
        if q < 0 {
            (-q) as nat
        } else {
            q as nat
        },
    );
    assert(f[a.len() as int] == '_');
    assert(f[b.len() as int] == '_');
    if a.len() < b.len() {
        assert(f[a.len() as int] == b[a.len() as int]);
    } else if b.len() < a.len() {
        assert(f[b.len() as int] == a[b.len() as int]);
    }
    assert(a =~= f.subrange(0, a.len() as int));
    assert(b =~= f.subrange(0, b.len() as int));
    let n = a.len() as int;
    assert(c =~= f.subrange(n + 1, f.len() - 4));
    assert(d =~= f.subrange(n + 1, f.len() - 4));
    lemma_signed_differ(p as int, q as int);
    lemma_numerals_differ(g as nat, h as nat);
}

/// Files of different databases, or of different names, have different paths.
pub proof fn lemma_paths_differ(db: u32, name: Seq<char>, other_db: u32, other: Seq<char>)
    requires
        rel_path(db, name) == rel_path(other_db, other),
    ensures
        db == other_db,
        name == other,
{
    reveal_strlit("pg_deltax/");
    reveal_strlit("/");
    let (a, b) = (numeral(db as nat), numeral(other_db as nat));
    let f = rel_path(db, name);
    let k = "pg_deltax/"@.len() as int;
    lemma_numeral_chars(db as nat);
    lemma_numeral_chars(other_db as nat);
    assert(f[k + a.len()] == '/');
    assert(f[k + b.len()] == '/');
    if a.len() < b.len() {
        assert(f[k + a.len()] == b[a.len() as int]);
    } else if b.len() < a.len() {
        assert(f[k + b.len()] == a[b.len() as int]);
    }
    assert(a =~= f.subrange(k, k + a.len()));
    assert(b =~= f.subrange(k, k + b.len()));
    assert(name =~= f.subrange(k + a.len() + 1, f.len() as int));
    assert(other =~= f.subrange(k + a.len() + 1, f.len() as int));
    lemma_numerals_differ(db as nat, other_db as nat);
}

/// A column of the catalog is found where a live one of that name stands: the last
/// of them.
pub proof fn lemma_catalog_column(cols: Seq<CatalogColumn>, name: Seq<char>, n: int)
    requires
        0 <= n <= cols.len(),
    ensures
        match last_named(cols, name, n) {
            Some(i) => 0 <= i < n && !cols[i].dropped && cols[i].name@ == name && forall|j: int|
                i < j < n && (#[trigger] cols[j]).name@ == name ==> cols[j].dropped,
            None => forall|j: int|
                0 <= j < n && (#[trigger] cols[j]).name@ == name ==> cols[j].dropped,
        },
    decreases n,
{
    if n > 0 {
        lemma_catalog_column(cols, name, n - 1);
    }
}

/// A file is in use exactly where the catalog has a row of the partition that is
/// marked as compressed and names a file.
pub proof fn lemma_file_in_use(row: CatalogRow, partition: Seq<u8>)
    ensures
        refers_to_file(row, partition) <==> (row.table_name is Some && row.table_name->0@ == partition
            && row.is_compressed is Some && row.is_compressed->0 && row.blob_file is Some),
{
}

} // verus!
