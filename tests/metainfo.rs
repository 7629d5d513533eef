use bittorrent::bencode::DecodeError;
use bittorrent::metainfo::{Hashes, Keys, Metainfo, MetainfoError};
use sha1::Digest;

fn pieces40() -> Vec<u8> {
    (0u8..40).collect()
}

fn info_bytes() -> Vec<u8> {
    let mut b = b"d6:lengthi512000e4:name8:file.bin12:piece lengthi262144e6:pieces40:".to_vec();
    b.extend_from_slice(&pieces40());
    b.push(b'e');
    b
}

fn manifest() -> Vec<u8> {
    let mut b = b"d8:announce18:http://t.example/a4:info".to_vec();
    b.extend_from_slice(&info_bytes());
    b.push(b'e');
    b
}

#[test]
fn single_file_manifest_is_read() {
    let m = Metainfo::from_bytes(&manifest()).unwrap();
    assert_eq!(m.tracker_url, "http://t.example/a");
    assert_eq!(m.info.name, "file.bin");
    assert_eq!(m.info.piece_length, 262144);
    assert_eq!(m.info.pieces.0.len(), 2);
    assert_eq!(m.info.pieces.0[1][0], 20);
    match m.info.keys {
        Keys::SingleFile { length } => assert_eq!(length, 512000),
        Keys::MultiFile { .. } => panic!("expected a single file"),
    }
}

#[test]
fn canonical_bytes_and_info_hash() {
    let m = Metainfo::from_bytes(&manifest()).unwrap();
    assert_eq!(m.info.canonical_bytes(), info_bytes());
    let expected: [u8; 20] = sha1::Sha1::digest(&info_bytes()).into();
    assert_eq!(m.info_hash(), expected);
    assert_eq!(m.info_hash(), m.info_hash());
    assert_ne!(m.info_hash().to_vec(), m.info.canonical_bytes()[..20].to_vec());
}

#[test]
fn info_hash_ignores_source_field_order() {
    let mut b = b"d8:announce1:a4:infod4:name8:file.bin6:pieces40:".to_vec();
    b.extend_from_slice(&pieces40());
    b.extend_from_slice(b"12:piece lengthi262144e6:lengthi512000eee");
    let m = Metainfo::from_bytes(&b).unwrap();
    let expected: [u8; 20] = sha1::Sha1::digest(&info_bytes()).into();
    assert_eq!(m.info_hash(), expected);
}

#[test]
fn multi_file_manifest_is_read() {
    let b = b"d8:announce1:a4:infod5:filesld6:lengthi3e4:pathl1:a1:beed6:lengthi4e4:pathl1:ceee4:name3:dir12:piece lengthi16e6:pieces0:ee";
    let m = Metainfo::from_bytes(b).unwrap();
    match &m.info.keys {
        Keys::MultiFile { files } => {
            assert_eq!(files.len(), 2);
            assert_eq!(files[0].length, 3);
            assert_eq!(files[0].path, vec!["a".to_string(), "b".to_string()]);
            assert_eq!(files[1].path, vec!["c".to_string()]);
        },
        Keys::SingleFile { .. } => panic!("expected files"),
    }
    let info = b"d5:filesld6:lengthi3e4:pathl1:a1:beed6:lengthi4e4:pathl1:ceee4:name3:dir12:piece lengthi16e6:pieces0:e";
    assert_eq!(m.info.canonical_bytes(), info.to_vec());
}

#[test]
fn hashes_split_in_twenty_byte_records() {
    let h = Hashes::from_bytes(&pieces40()).unwrap();
    assert_eq!(h.0.len(), 2);
    assert_eq!(h.0[0][19], 19);
    assert_eq!(h.to_bytes(), pieces40());
    assert_eq!(Hashes::from_bytes(&[0u8; 21]).unwrap_err(), MetainfoError::Alignment);
}

#[test]
fn manifest_errors() {
    let layout_both = b"d8:announce1:a4:infod5:filesle6:lengthi1e4:name1:n12:piece lengthi1e6:pieces0:ee";
    assert_eq!(Metainfo::from_bytes(layout_both).unwrap_err(), MetainfoError::Layout);
    let layout_none = b"d8:announce1:a4:infod4:name1:n12:piece lengthi1e6:pieces0:ee";
    assert_eq!(Metainfo::from_bytes(layout_none).unwrap_err(), MetainfoError::Layout);
    let bad_pieces = b"d8:announce1:a4:infod6:lengthi1e4:name1:n12:piece lengthi1e6:pieces3:abcee";
    assert_eq!(Metainfo::from_bytes(bad_pieces).unwrap_err(), MetainfoError::Alignment);
    let no_info = b"d8:announce1:ae";
    assert_eq!(Metainfo::from_bytes(no_info).unwrap_err(), MetainfoError::Missing);
    let bad_name = b"d8:announce1:a4:infod6:lengthi1e4:name1:\xff12:piece lengthi1e6:pieces0:ee";
    assert_eq!(Metainfo::from_bytes(bad_name).unwrap_err(), MetainfoError::Encoding);
    let name_int = b"d8:announce1:a4:infod6:lengthi1e4:namei1e12:piece lengthi1e6:pieces0:ee";
    assert_eq!(Metainfo::from_bytes(name_int).unwrap_err(), MetainfoError::WrongType);
    assert_eq!(Metainfo::from_bytes(b"d8:announce").unwrap_err(), MetainfoError::Decode(DecodeError::Malformed));
}

#[test]
fn total_length_sums_files() {
    let b = b"d8:announce1:a4:infod5:filesld6:lengthi3e4:pathl1:aeed6:lengthi4e4:pathl1:ceee4:name3:dir12:piece lengthi16e6:pieces0:ee";
    let m = Metainfo::from_bytes(b).unwrap();
    assert_eq!(m.info.total_length(), Some(7));
    let single = Metainfo::from_bytes(&manifest()).unwrap();
    assert_eq!(single.info.total_length(), Some(512000));
    let big = format!(
        "d8:announce1:a4:infod5:filesld6:lengthi{m}e4:pathl1:aeed6:lengthi1e4:pathl1:ceee4:name3:dir12:piece lengthi16e6:pieces0:ee",
        m = usize::MAX
    );
    let m = Metainfo::from_bytes(big.as_bytes()).unwrap();
    assert_eq!(m.info.total_length(), None);
}
