use pg_deltax::crc::{build_crc32c_table, crc32c};
use pg_deltax::segment_catalog::{
    catalog_layout, row_refers_to_file, segment_file_name, segment_file_path, temporary_name,
    verify_checksums, write_partition_blob_file, CatalogColumn, CatalogRow,
};
use pg_deltax::segment_file::{
    count_distinct, encode_footer, encode_header, encode_index, encode_segment_file, round_up,
    sort_entries, IndexEntry, SegmentFileWriter, BLOB_ALIGN, VERSION,
};
use pg_deltax::segment_reader::{lookup_blob, parse_and_validate, BlobLookup};

fn sample_blobs() -> Vec<(u16, i32, Vec<u8>)> {
    vec![
        (0, 1, vec![1u8; 10]),
        (0, 2, vec![2u8; 100]),
        (1, 1, (0..255u8).collect()),
        (2, 1, vec![]),
        (2, 7, vec![0xAB; 65]),
    ]
}

#[test]
fn crc32c_known_vectors() {
    // RFC 3720 test vector: 32 bytes of zeros.
    assert_eq!(crc32c(&[0u8; 32]), 0x8A91_36AA);
    // "123456789" → 0xE3069283 (standard CRC-32C check value).
    assert_eq!(crc32c(b"123456789"), 0xE306_9283);
    assert_eq!(crc32c(b""), 0);
}

#[test]
fn encode_parse_roundtrip() {
    let blobs = sample_blobs();
    let image = encode_segment_file(42, &blobs);
    let (header, entries) = parse_and_validate(&image).unwrap();
    assert_eq!(header.version, VERSION);
    assert_eq!(header.partition_id, 42);
    assert_eq!(header.n_columns, 3);
    assert_eq!(header.n_segments, 3); // segment ids {1, 2, 7}
    assert_eq!(entries.len(), blobs.len());
    for ((ci, sid, blob), e) in blobs.iter().zip(&entries) {
        assert_eq!((e.col_idx, e.segment_id), (*ci, *sid));
        assert_eq!(e.len as usize, blob.len());
        assert_eq!(e.offset % BLOB_ALIGN, 0, "blob not 64-byte aligned");
        assert_eq!(
            &image[e.offset as usize..e.offset as usize + e.len as usize],
            blob.as_slice()
        );
        assert_eq!(e.crc, crc32c(blob));
    }
}

#[test]
fn truncation_detected() {
    let image = encode_segment_file(1, &sample_blobs());
    let truncated = &image[..image.len() - 1];
    assert!(parse_and_validate(truncated).is_err());
    assert!(parse_and_validate(&image[..10]).is_err());
    assert!(parse_and_validate(&[]).is_err());
}

#[test]
fn corrupt_header_and_index_detected() {
    let blobs = sample_blobs();
    let good = encode_segment_file(1, &blobs);

    let mut bad_magic = good.clone();
    bad_magic[0] = b'X';
    assert!(parse_and_validate(&bad_magic).is_err());

    let mut bad_version = good.clone();
    bad_version[6] = 99;
    assert!(parse_and_validate(&bad_version).is_err());

    // Flip a byte in the header payload → header crc mismatch.
    let mut bad_header = good.clone();
    bad_header[12] ^= 0xFF;
    assert!(parse_and_validate(&bad_header).is_err());

    // Flip a byte inside the index → index crc mismatch.
    let (header, _) = parse_and_validate(&good).unwrap();
    let mut bad_index = good.clone();
    bad_index[header.index_offset as usize + 1] ^= 0xFF;
    assert!(parse_and_validate(&bad_index).is_err());
}

#[test]
fn empty_blob_list_roundtrip() {
    let image = encode_segment_file(3, &[]);
    let (header, entries) = parse_and_validate(&image).unwrap();
    assert_eq!(header.n_columns, 0);
    assert_eq!(header.n_segments, 0);
    assert!(entries.is_empty());
}

fn found(bytes: &[u8], col: u16, seg: i32, verify: bool) -> Option<Vec<u8>> {
    let (_, entries) = parse_and_validate(bytes).unwrap();
    match lookup_blob(bytes, &entries, col, seg, verify) {
        BlobLookup::Found(s) => Some(s.to_vec()),
        _ => None,
    }
}

#[test]
fn written_blobs_are_found() {
    let blobs = sample_blobs();
    let image = encode_segment_file(7, &blobs);
    let (_, entries) = parse_and_validate(&image).unwrap();
    for (ci, sid, blob) in &blobs {
        match lookup_blob(&image, &entries, *ci, *sid, true) {
            BlobLookup::Found(slice) => assert_eq!(slice, blob.as_slice()),
            _ => panic!("blob (col {ci}, seg {sid}) not found"),
        }
    }
    // Absent entries are Absent, not Corrupt.
    assert!(matches!(lookup_blob(&image, &entries, 0, 99, true), BlobLookup::Absent));
    assert!(matches!(lookup_blob(&image, &entries, 99, 1, true), BlobLookup::Absent));
}

#[test]
fn changed_blob_is_corrupt() {
    let mut image = encode_segment_file(7, &sample_blobs());
    let (_, entries) = parse_and_validate(&image).unwrap();
    let victim = entries[1];
    image[victim.offset as usize + 3] ^= 0xFF;
    // The index is untouched, so the file still opens.
    let (_, entries) = parse_and_validate(&image).unwrap();
    assert!(matches!(
        lookup_blob(&image, &entries, victim.col_idx, victim.segment_id, true),
        BlobLookup::Corrupt
    ));
    // Without verification the changed bytes are still served.
    assert!(matches!(
        lookup_blob(&image, &entries, victim.col_idx, victim.segment_id, false),
        BlobLookup::Found(_)
    ));
}

#[test]
fn entry_past_the_end_is_corrupt() {
    let entries = vec![IndexEntry { col_idx: 0, segment_id: 1, offset: 60, len: 10, crc: 0 }];
    assert!(matches!(lookup_blob(&[0u8; 64], &entries, 0, 1, false), BlobLookup::Corrupt));
    let wide = vec![IndexEntry { col_idx: 0, segment_id: 1, offset: u64::MAX, len: 1, crc: 0 }];
    assert!(matches!(lookup_blob(&[0u8; 64], &wide, 0, 1, false), BlobLookup::Corrupt));
}

#[test]
fn one_batch_makes_the_file_of_its_blobs() {
    let blobs = sample_blobs();
    let mut w = SegmentFileWriter::create(42);
    let data = w.append_blobs(&blobs);
    let (header, tail) = w.finish();
    let mut written = header;
    written.extend(data);
    written.extend(tail);
    assert_eq!(written, encode_segment_file(42, &blobs));
}

#[test]
fn two_batches_make_one_file() {
    let batch1 = vec![(0u16, 1i32, vec![1u8; 10]), (1, 1, vec![9u8; 33])];
    let batch2 = vec![
        (0u16, 2i32, vec![2u8; 100]),
        (1, 2, (0..255u8).collect::<Vec<_>>()),
        (2, 2, vec![0xCD; 7]),
    ];
    let mut w = SegmentFileWriter::create(9);
    let first = w.append_blobs(&batch1);
    let second = w.append_blobs(&batch2);
    let (header, tail) = w.finish();
    let mut written = header;
    written.extend(first);
    written.extend(second);
    written.extend(tail);
    let (header, entries) = parse_and_validate(&written).unwrap();
    assert_eq!(header.partition_id, 9);
    assert_eq!(header.n_columns, 3);
    assert_eq!(header.n_segments, 2);
    assert_eq!(entries.len(), batch1.len() + batch2.len());
    for e in &entries {
        assert_eq!(e.offset % BLOB_ALIGN, 0, "blob not 64-byte aligned");
    }
    for (ci, sid, blob) in batch1.iter().chain(&batch2) {
        assert_eq!(found(&written, *ci, *sid, true).as_ref(), Some(blob));
    }
    assert_eq!(found(&written, 0, 99, true), None);
}

#[test]
fn any_batches_make_one_file() {
    let blobs = sample_blobs();
    let whole = encode_segment_file(9, &blobs);
    for cuts in [vec![0, 1, 2, 5], vec![0, 5], vec![0, 0, 3, 3, 4, 5], vec![0, 1, 2, 3, 4, 5]] {
        let mut w = SegmentFileWriter::create(9);
        let mut data = vec![];
        for c in cuts.windows(2) {
            data.extend(w.append_blobs(&blobs[c[0]..c[1]]));
        }
        let (mut written, tail) = w.finish();
        written.extend(data);
        written.extend(tail);
        assert_eq!(written, whole);
    }
}

#[test]
fn batches_in_any_order_are_read_back() {
    let mut blobs = sample_blobs();
    blobs.reverse();
    let mut w = SegmentFileWriter::create(9);
    let data: Vec<u8> =
        blobs.iter().flat_map(|b| w.append_blobs(std::slice::from_ref(b))).collect();
    let (mut written, tail) = w.finish();
    written.extend(data);
    written.extend(tail);
    let (header, entries) = parse_and_validate(&written).unwrap();
    assert_eq!((header.partition_id, header.n_columns, header.n_segments), (9, 3, 3));
    blobs.reverse();
    assert_eq!(entries.len(), blobs.len());
    for (e, (col, seg, data)) in entries.iter().zip(&blobs) {
        assert_eq!((e.col_idx, e.segment_id, e.offset % 64), (*col, *seg, 0));
        assert_eq!((e.len as usize, e.crc), (data.len(), crc32c(data)));
        let start = e.offset as usize;
        assert_eq!(&written[start..start + data.len()], data.as_slice());
    }
}

#[test]
fn every_changed_byte() {
    let image = encode_segment_file(3, &sample_blobs());
    let (header, entries) = parse_and_validate(&image).unwrap();
    for i in 0..image.len() {
        for bit in [0x01, 0x80] {
            let mut changed = image.clone();
            changed[i] ^= bit;
            match parse_and_validate(&changed) {
                Err(_) => assert!(i < 44 || i as u64 >= header.index_offset, "byte {i}"),
                Ok((h, es)) => {
                    assert!(44 <= i && (i as u64) < header.index_offset, "byte {i}");
                    assert_eq!(format!("{:?}", (h, es)), format!("{:?}", (&header, &entries)));
                }
            }
        }
        assert!(parse_and_validate(&image[..i]).is_err());
    }
    for more in [vec![0], vec![0xFF; 16], image.clone()] {
        let longer = [image.as_slice(), more.as_slice()].concat();
        assert!(parse_and_validate(&longer).is_err());
    }
}

#[test]
fn changes_within_four_bytes() {
    let data: Vec<u8> = (0..100u8).map(|i| i.wrapping_mul(37)).collect();
    let sum = crc32c(&data);
    for at in 0..97 {
        for x in [1u32, 0x8000_0000, 0x82f6_3b78, 0xdead_beef, u32::MAX] {
            let mut changed = data.clone();
            for (k, b) in x.to_le_bytes().iter().enumerate() {
                changed[at + k] ^= b;
            }
            assert_ne!(crc32c(&changed), sum);
        }
    }
}

fn message(bytes: &[u8]) -> String {
    match parse_and_validate(bytes) {
        Ok(_) => panic!("the file was accepted"),
        Err(m) => m,
    }
}

#[test]
fn why_files_are_refused() {
    let good = encode_segment_file(1, &sample_blobs());
    let n = good.len();
    let with = |at: usize, v: u8| {
        let mut b = good.clone();
        b[at] = v;
        b
    };
    assert_eq!(message(&good[..79]), "file too short (79 bytes)");
    assert_eq!(message(&with(0, b'X')), "bad header magic");
    assert_eq!(
        message(&with(6, 99)),
        "unsupported segment-file version 99 (expected 1); recompress the partition"
    );
    assert_eq!(message(&with(12, !good[12])), "header checksum mismatch");
    assert_eq!(message(&with(n - 1, b'X')), "bad footer magic");
    assert_eq!(
        message(&with(n - 12, good[n - 12] ^ 1)),
        format!("footer file_len {} != actual length {} (truncated?)", n ^ 1, n)
    );
    let (header, _) = parse_and_validate(&good).unwrap();
    let at = header.index_offset as usize;
    assert_eq!(message(&with(at + 1, !good[at + 1])), "index checksum mismatch");
}

/// A file with the given index, which its header places behind the header.
fn file_with_index(index_offset: u64, entries: &Vec<IndexEntry>) -> Vec<u8> {
    let index = encode_index(entries);
    let mut b = encode_header(1, 1, 1, index_offset, index.len() as u64);
    b.extend(&index);
    let total = b.len() as u64 + 16;
    b.extend(encode_footer(crc32c(&index), total));
    b
}

#[test]
fn index_that_does_not_fit() {
    let e = IndexEntry { col_idx: 3, segment_id: -4, offset: 64, len: 0, crc: 0 };
    assert!(parse_and_validate(&file_with_index(64, &vec![e])).is_ok());
    assert_eq!(
        message(&file_with_index(65, &vec![e])),
        "index bounds inconsistent with file length"
    );
    let past = IndexEntry { len: 1, ..e };
    assert_eq!(
        message(&file_with_index(64, &vec![past])),
        "index entry (col 3, seg -4) out of bounds"
    );
}

#[test]
fn parts_of_a_file() {
    assert_eq!(round_up(0, 64), 0);
    assert_eq!(round_up(65, 64), 128);
    assert_eq!(round_up(128, 64), 128);
    let header = encode_header(1, 2, 3, 4, 5);
    assert_eq!(header.len(), 64);
    assert_eq!(&header[..16], b"DXSEG\0\x01\0\0\0\0\0\x01\0\0\0");
    let e = IndexEntry { col_idx: 1, segment_id: -2, offset: 3, len: 4, crc: 5 };
    assert_eq!(
        encode_index(&vec![e]),
        vec![1, 0, 254, 255, 255, 255, 3, 0, 0, 0, 0, 0, 0, 0, 4, 0, 0, 0, 5, 0, 0, 0]
    );
    assert_eq!(encode_footer(1, 2), b"\x01\0\0\0\x02\0\0\0\0\0\0\0DXSE".to_vec());
    assert_eq!(build_crc32c_table()[1], 0xF26B_8303);
    assert_eq!(build_crc32c_table().len(), 256);
}

#[test]
fn entries_in_order() {
    let e = |c: u16, s: i32| IndexEntry { col_idx: c, segment_id: s, offset: 0, len: 0, crc: 0 };
    let sorted = sort_entries(&vec![e(1, 2), e(0, 5), e(1, -1), e(0, 2)]);
    assert_eq!(sorted, vec![e(0, 2), e(0, 5), e(1, -1), e(1, 2)]);
    assert_eq!(count_distinct(&sorted), (2, 3));
    assert_eq!(count_distinct(&vec![]), (0, 0));
}

#[test]
fn names_of_segment_files() {
    assert_eq!(segment_file_name(12, 3), "12_3.dxs");
    assert_eq!(segment_file_path(5, "12_3.dxs"), "pg_deltax/5/12_3.dxs");
    assert_eq!(temporary_name("12_3.dxs"), "12_3.dxs.tmp");
    let f = write_partition_blob_file(12, 5, 3, &sample_blobs());
    assert_eq!(f.file_name, "12_3.dxs");
    assert_eq!(f.rel_path, "pg_deltax/5/12_3.dxs");
    assert_eq!(f.bytes, encode_segment_file(12, &sample_blobs()));
}

#[test]
fn when_checksums_are_verified() {
    assert!(verify_checksums(true, false));
    assert!(verify_checksums(false, true));
    assert!(!verify_checksums(false, false));
}

#[test]
fn columns_of_the_catalog() {
    let col = |name: &str, dropped: bool| CatalogColumn { name: name.to_string(), dropped };
    let cols = vec![
        col("table_name", true),
        col("blob_file", false),
        col("table_name", false),
        col("is_compressed", false),
    ];
    let l = catalog_layout(&cols).unwrap();
    assert_eq!((l.table_name, l.is_compressed, l.blob_file), (2, 3, 1));
    assert!(catalog_layout(&cols[..3].iter().map(|c| col(&c.name, c.dropped)).collect()).is_none());
}

#[test]
fn rows_of_the_catalog() {
    let row = |compressed: Option<bool>, file: bool| CatalogRow {
        table_name: Some(b"p1".to_vec()),
        is_compressed: compressed,
        blob_file: if file { Some(b"f".to_vec()) } else { None },
    };
    assert!(row_refers_to_file(&row(Some(true), true), "p1"));
    assert!(!row_refers_to_file(&row(Some(true), true), "p2"));
    assert!(!row_refers_to_file(&row(Some(false), true), "p1"));
    assert!(!row_refers_to_file(&row(None, true), "p1"));
    assert!(!row_refers_to_file(&row(Some(true), false), "p1"));
}
