use typst_cnd::cmap::{
    check_coverage, check_font_bytes, cmap_codepoints, cmap_table, collection_count, read_u16, read_u32,
    subtable_codepoints,
};

/// The tables every face needs, as (tag, bytes).
fn required_tables() -> Vec<([u8; 4], Vec<u8>)> {
    let mut head = vec![0u8; 54];
    head[0..4].copy_from_slice(&0x0001_0000u32.to_be_bytes());
    head[18..20].copy_from_slice(&1000u16.to_be_bytes());
    let hhea = vec![0u8; 36];
    let mut maxp = 0x0000_5000u32.to_be_bytes().to_vec();
    maxp.extend_from_slice(&1u16.to_be_bytes());
    vec![(*b"head", head), (*b"hhea", hhea), (*b"maxp", maxp)]
}

/// A face whose table directory lists `tables` in this order, laid out as
/// if the face began at byte `base` of its file.
fn face(tables: &[([u8; 4], Vec<u8>)], base: usize) -> Vec<u8> {
    let mut out = Vec::new();
    out.extend_from_slice(&0x0001_0000u32.to_be_bytes());
    out.extend_from_slice(&(tables.len() as u16).to_be_bytes());
    out.extend_from_slice(&[0; 6]);
    let mut offset = base + 12 + 16 * tables.len();
    let mut bodies = Vec::new();
    for (tag, body) in tables {
        out.extend_from_slice(tag);
        out.extend_from_slice(&[0; 4]);
        out.extend_from_slice(&(offset as u32).to_be_bytes());
        out.extend_from_slice(&(body.len() as u32).to_be_bytes());
        let mut padded = body.clone();
        while padded.len() % 4 != 0 {
            padded.push(0);
        }
        offset += padded.len();
        bodies.push(padded);
    }
    for body in bodies {
        out.extend_from_slice(&body);
    }
    out
}

/// A standalone font with `cmap` first in its directory.
fn font_with_cmap(cmap: &[u8]) -> Vec<u8> {
    let mut tables = vec![(*b"cmap", cmap.to_vec())];
    tables.extend(required_tables());
    face(&tables, 0)
}

/// A collection of faces, each with its own `cmap`.
fn collection(cmaps: &[Vec<u8>]) -> Vec<u8> {
    let header = 12 + 4 * cmaps.len();
    let mut offsets = Vec::new();
    let mut bodies: Vec<u8> = Vec::new();
    for cmap in cmaps {
        let base = header + bodies.len();
        offsets.push(base as u32);
        let mut tables = vec![(*b"cmap", cmap.clone())];
        tables.extend(required_tables());
        bodies.extend_from_slice(&face(&tables, base));
    }
    let mut out = b"ttcf\0\x01\0\0".to_vec();
    out.extend_from_slice(&(cmaps.len() as u32).to_be_bytes());
    for o in offsets {
        out.extend_from_slice(&o.to_be_bytes());
    }
    out.extend_from_slice(&bodies);
    out
}

/// A `cmap` whose `records` encoding records all point at one subtable.
fn cmap(records: u16, subtable: &[u8]) -> Vec<u8> {
    let mut out = vec![0, 0];
    out.extend_from_slice(&records.to_be_bytes());
    for _ in 0..records {
        out.extend_from_slice(&[0, 3, 0, 10]);
        out.extend_from_slice(&(4 + 8 * u32::from(records)).to_be_bytes());
    }
    out.extend_from_slice(subtable);
    out
}

/// A format 12 subtable with the given `(start, end)` groups.
fn format12(groups: &[(u32, u32)]) -> Vec<u8> {
    let mut out = vec![0, 12, 0, 0];
    out.extend_from_slice(&(16 + 12 * groups.len() as u32).to_be_bytes());
    out.extend_from_slice(&[0; 4]);
    out.extend_from_slice(&(groups.len() as u32).to_be_bytes());
    for &(start, end) in groups {
        out.extend_from_slice(&start.to_be_bytes());
        out.extend_from_slice(&end.to_be_bytes());
        out.extend_from_slice(&1_u32.to_be_bytes());
    }
    out
}

/// A format 4 subtable with one `start..=end` segment and the final one.
fn format4(start: u16, end: u16) -> Vec<u8> {
    let mut out = vec![0, 4, 0, 0, 0, 0, 0, 4, 0, 0, 0, 0, 0, 0];
    for value in [end, 0xFFFF, 0, start, 0xFFFF, 0, 1, 0, 0] {
        out.extend_from_slice(&value.to_be_bytes());
    }
    let len = out.len() as u16;
    out[2..4].copy_from_slice(&len.to_be_bytes());
    out
}

/// A format 2 subtable whose 256 keys all point at one empty sub-header.
fn format2_empty() -> Vec<u8> {
    let mut out = vec![0, 2, 0, 0, 0, 0];
    for _ in 0..256 {
        out.extend_from_slice(&8_u16.to_be_bytes());
    }
    out.extend_from_slice(&[0; 16]);
    let len = out.len() as u16;
    out[2..4].copy_from_slice(&len.to_be_bytes());
    out
}

const FACE_TOO_WIDE: &str = "font face 0 declares too many codepoints";

#[test]
fn reads_big_endian_integers_inside_the_bytes_only() {
    let data = [0x12, 0x34, 0x56, 0x78];
    assert_eq!(read_u16(&data, 0), Some(0x1234));
    assert_eq!(read_u16(&data, 2), Some(0x5678));
    assert_eq!(read_u16(&data, 3), None);
    assert_eq!(read_u32(&data, 0), Some(0x1234_5678));
    assert_eq!(read_u32(&data, 1), None);
    assert_eq!(read_u32(&data, usize::MAX), None);
}

#[test]
fn a_collection_header_declares_its_face_count() {
    assert_eq!(collection_count(b"ttcf\0\x01\0\0\0\0\0\x03"), Some(3));
    assert_eq!(collection_count(b"ttcf\0\x01\0\0\0\0"), None);
    assert_eq!(collection_count(b"\0\x01\0\0\0\0\0\x03\0\0\0\0"), None);
}

#[test]
fn a_forged_collection_header_is_refused() {
    let mut forged = b"ttcf\0\x01\0\0".to_vec();
    forged.extend_from_slice(&u32::MAX.to_be_bytes());
    forged.extend_from_slice(&[0; 16]);
    assert_eq!(check_font_bytes(&forged).unwrap_err(), "the font collection claims 4294967295 faces");
}

#[test]
fn a_collection_header_longer_than_its_bytes_is_refused() {
    let mut forged = b"ttcf\0\x01\0\0".to_vec();
    forged.extend_from_slice(&200_u32.to_be_bytes());
    forged.resize(30, 0);
    let err = check_font_bytes(&forged).expect_err("a forged header");
    assert!(err.contains("claims 200 faces"), "{err}");
}

#[test]
fn bytes_the_parser_cannot_read_pass_the_guard() {
    let png = [0x89, b'P', b'N', b'G', 0x0D, 0x0A, 0x1A, 0x0A, 0, 0, 0, 0];
    assert_eq!(check_font_bytes(&png), Ok(()));
    assert_eq!(check_font_bytes(&[]), Ok(()));
}

#[test]
fn a_sane_cmap_passes() {
    assert_eq!(check_font_bytes(&font_with_cmap(&cmap(1, &format12(&[(0x20, 0x7E)])))), Ok(()));
    assert_eq!(check_font_bytes(&font_with_cmap(&cmap(1, &format4(0x20, 0x7E)))), Ok(()));
    let mut tables = required_tables();
    tables.truncate(3);
    assert_eq!(check_font_bytes(&face(&tables, 0)), Ok(()), "a face without a cmap");
}

#[test]
fn a_cmap_group_past_unicode_is_refused() {
    let font = font_with_cmap(&cmap(1, &format12(&[(0, u32::MAX)])));
    assert_eq!(check_font_bytes(&font).unwrap_err(), "a font cmap maps the invalid range 0x0..=0xFFFFFFFF");
}

#[test]
fn a_reversed_cmap_group_is_refused() {
    let font = font_with_cmap(&cmap(1, &format12(&[(0x7E, 0x20)])));
    assert_eq!(check_font_bytes(&font).unwrap_err(), "a font cmap maps the invalid range 0x7E..=0x20");
}

#[test]
fn a_face_declaring_too_many_codepoints_is_refused() {
    let four = font_with_cmap(&cmap(1, &format12(&[(0, 0x10FFFF); 4])));
    assert_eq!(check_font_bytes(&four), Ok(()));
    let five = font_with_cmap(&cmap(1, &format12(&[(0, 0x10FFFF); 5])));
    assert_eq!(check_font_bytes(&five).unwrap_err(), FACE_TOO_WIDE);
}

#[test]
fn records_sharing_one_subtable_count_once_each() {
    let font = font_with_cmap(&cmap(100, &format12(&[(0, 0x10FFFF)])));
    assert_eq!(check_font_bytes(&font).unwrap_err(), FACE_TOO_WIDE);
    let font = font_with_cmap(&cmap(100, &format4(0, 0xFFFE)));
    assert_eq!(check_font_bytes(&font).unwrap_err(), FACE_TOO_WIDE);
}

#[test]
fn empty_format2_subtables_still_count_their_work() {
    let font = font_with_cmap(&cmap(u16::MAX, &format2_empty()));
    assert_eq!(check_font_bytes(&font).unwrap_err(), FACE_TOO_WIDE);
}

#[test]
fn a_cmap_last_in_an_unsorted_directory_is_still_checked() {
    let mut tables = required_tables();
    tables.push((*b"cmap", cmap(1, &format12(&[(0x7E, 0x20)]))));
    assert!(check_font_bytes(&face(&tables, 0)).unwrap_err().contains("cmap"));
}

#[test]
fn of_two_cmap_records_the_last_one_is_checked() {
    let benign = cmap(1, &format12(&[(0x20, 0x7E)]));
    let reversed = cmap(1, &format12(&[(0x7E, 0x20)]));
    let mut tables = vec![(*b"cmap", benign.clone())];
    tables.extend(required_tables());
    tables.push((*b"cmap", reversed.clone()));
    assert!(check_font_bytes(&face(&tables, 0)).unwrap_err().contains("cmap"));
    let mut tables = vec![(*b"cmap", reversed)];
    tables.extend(required_tables());
    tables.push((*b"cmap", benign));
    assert_eq!(check_font_bytes(&face(&tables, 0)), Ok(()));
}

#[test]
fn every_face_of_a_collection_is_checked() {
    let benign = cmap(1, &format12(&[(0x20, 0x7E)]));
    let reversed = cmap(1, &format12(&[(0x7E, 0x20)]));
    assert_eq!(check_font_bytes(&collection(&[benign.clone(), benign.clone()])), Ok(()));
    assert!(check_font_bytes(&collection(&[benign.clone(), reversed])).unwrap_err().contains("cmap"));
    let wide = cmap(1, &format12(&[(0, 0x10FFFF); 5]));
    assert_eq!(
        check_font_bytes(&collection(&[benign, wide])).unwrap_err(),
        "font face 1 declares too many codepoints"
    );
}

#[test]
fn the_faces_of_a_file_share_one_budget() {
    let full = cmap(1, &format12(&[(0, 0x10FFFF); 4]));
    let four: Vec<Vec<u8>> = (0..4).map(|_| full.clone()).collect();
    assert_eq!(check_coverage(&collection(&four)), Ok(()));
    let five: Vec<Vec<u8>> = (0..5).map(|_| full.clone()).collect();
    assert_eq!(check_coverage(&collection(&five)).unwrap_err(), "the font file declares too many codepoints");
}

#[test]
fn subtable_counts_by_format() {
    assert_eq!(subtable_codepoints(&[0, 0], 1000), Ok(256));
    assert_eq!(subtable_codepoints(&[0], 1000), Ok(0));
    assert_eq!(subtable_codepoints(&format12(&[(0x20, 0x7E), (0x100, 0x100)]), 1000), Ok(0x5F + 1));
    assert_eq!(subtable_codepoints(&format4(0x20, 0x7E), 1000), Ok(0x5F + 1));
    // Format 6: the entries declared, as far as the bytes hold them.
    let mut f6 = vec![0, 6, 0, 0, 0, 0, 0, 0, 0, 50];
    f6.extend_from_slice(&[0; 8]);
    assert_eq!(subtable_codepoints(&f6, 1000), Ok(4));
    assert_eq!(subtable_codepoints(&[0, 99, 0, 0], 1000), Ok(0));
    // A count stops once past its limit.
    assert_eq!(subtable_codepoints(&format12(&[(0, 9), (0, 9), (0, 9)]), 15), Ok(20));
}

#[test]
fn cmap_counts_charge_every_record() {
    assert_eq!(cmap_codepoints(&cmap(3, &format12(&[(0, 9)])), 1000), Ok(30));
    // A record whose subtable lists nothing counts as one.
    assert_eq!(cmap_codepoints(&cmap(2, &[0, 99]), 1000), Ok(2));
    assert_eq!(cmap_codepoints(&[], 1000), Ok(0));
}

#[test]
fn the_last_cmap_record_in_range_is_picked() {
    let data: Vec<u8> = (0u8..20).collect();
    let cmap_tag = u32::from_be_bytes(*b"cmap");
    let head_tag = u32::from_be_bytes(*b"head");
    let records = vec![(cmap_tag, 2, 3), (head_tag, 0, 4), (cmap_tag, 10, 2)];
    assert_eq!(cmap_table(&data, &records), Some(&data[10..12]));
    let records = vec![(cmap_tag, 2, 3), (cmap_tag, 18, 5)];
    assert_eq!(cmap_table(&data, &records), None);
    let records = vec![(cmap_tag, 2, 3), (cmap_tag, u32::MAX, u32::MAX)];
    assert_eq!(cmap_table(&data, &records), None);
    assert_eq!(cmap_table(&data, &vec![(head_tag, 0, 4)]), None);
}

#[test]
fn any_limit_is_accepted_and_a_count_within_it_is_exact() {
    assert_eq!(subtable_codepoints(&[0, 0], u64::MAX), Ok(256));
    assert_eq!(subtable_codepoints(&format2_empty(), u64::MAX), Ok(256));
    assert_eq!(subtable_codepoints(&format4(0x20, 0x7E), u64::MAX), Ok(96));
    assert_eq!(subtable_codepoints(&format4(0x7E, 0x20), u64::MAX), Ok(2));
    assert_eq!(subtable_codepoints(&[0, 6, 0, 0, 0, 0, 0, 0, 0xFF, 0xFF], u64::MAX), Ok(0));
    // Past the limit the count stops at once, no later than the full count.
    let groups = format12(&[(0, 9), (0, 9), (0, 9)]);
    assert_eq!(subtable_codepoints(&groups, u64::MAX), Ok(30));
    assert_eq!(subtable_codepoints(&groups, 30), Ok(30));
    assert_eq!(subtable_codepoints(&groups, 12), Ok(20));
    assert_eq!(cmap_codepoints(&cmap(3, &format12(&[(0, 9)])), u64::MAX), Ok(30));
}
