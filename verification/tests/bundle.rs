use quickwit::bundle::{
    bundle_header, decode_trailer, encode_trailer, read_range, BundleEntry,
};
use quickwit::ErrorKind;

fn entry(name: &[u8], offset: u64, length: u64) -> BundleEntry {
    BundleEntry { name: name.to_vec(), offset, length }
}

#[test]
fn trailer_round_trip() {
    let entries = vec![
        entry(b"term-dict", 8, 100),
        entry(b"postings", 108, 50),
        entry(b"", 158, 0),
    ];
    let encoded = encode_trailer(&entries).unwrap();
    let decoded = decode_trailer(&encoded).unwrap();
    assert_eq!(decoded.len(), 3);
    for (before, after) in entries.iter().zip(decoded.iter()) {
        assert_eq!(before.name, after.name);
        assert_eq!(before.offset, after.offset);
        assert_eq!(before.length, after.length);
    }
}

#[test]
fn empty_trailer_round_trip() {
    let encoded = encode_trailer(&Vec::new()).unwrap();
    assert_eq!(encoded.len(), 4);
    assert_eq!(decode_trailer(&encoded).unwrap().len(), 0);
}

#[test]
fn truncated_trailer_is_rejected() {
    let entries = vec![entry(b"doc-store", 8, 40)];
    let mut encoded = encode_trailer(&entries).unwrap();
    encoded.pop();
    assert!(matches!(decode_trailer(&encoded), Err(ErrorKind::InvalidArgument)));
    assert!(matches!(decode_trailer(&vec![1, 2]), Err(ErrorKind::InvalidArgument)));
}

#[test]
fn trailing_garbage_is_rejected() {
    let entries = vec![entry(b"doc-store", 8, 40)];
    let mut encoded = encode_trailer(&entries).unwrap();
    encoded.push(0);
    assert!(matches!(decode_trailer(&encoded), Err(ErrorKind::InvalidArgument)));
}

#[test]
fn header_carries_magic_and_version() {
    let header = bundle_header(1);
    assert_eq!(&header[0..4], b"QSPL");
    assert_eq!(&header[4..8], &1u32.to_le_bytes());
}

#[test]
fn read_range_returns_the_named_bytes() {
    let bundle = b"QSPL....term-dict-bytes".to_vec();
    assert_eq!(read_range(&bundle, 8, 9).unwrap(), b"term-dict".to_vec());
    assert_eq!(read_range(&bundle, 0, 4).unwrap(), b"QSPL".to_vec());
    assert!(matches!(read_range(&bundle, 20, 10), Err(ErrorKind::InvalidArgument)));
}
