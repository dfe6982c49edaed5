use byteserver::records::{DataHeader, FileHeader, TransactionHeader, HEADER_MARKER};
use byteserver::util::{p64, push_bytes, push_u16, push_u32, push_u64};

fn file_header_sample(previous: &[u8]) -> Vec<u8> {
    let mut sample = vec![0u8; 0];
    sample.extend_from_slice(&HEADER_MARKER);
    sample.extend_from_slice(&[0, 0, 0, 0, 0, 0, 16, 0]); // 4096
    sample.extend_from_slice(&[0, 0, 0, 0, 64, 0, 0, 0]); // 1<<30
    sample.extend_from_slice(&vec![0u8, previous.len() as u8][..]);
    sample.extend_from_slice(&previous);
    sample.extend_from_slice(&vec![0; 4066 - previous.len()]);
    sample.extend_from_slice(&[0, 0, 0, 0, 0, 0, 16, 0]); // 4096
    sample
}

#[test]
fn read_file_header() {
    let h = FileHeader::read(&file_header_sample(b"")).unwrap();
    assert_eq!(&h.previous, "");
    assert_eq!(h.alignment, 1 << 30);

    let h = FileHeader::read(&file_header_sample(b"previous")).unwrap();
    assert_eq!(&h.previous, "previous");
    assert_eq!(h.alignment, 1 << 30);
}

#[test]
fn write_file_header() {
    let h = FileHeader { previous: String::new(), alignment: 1 << 30 };
    assert_eq!(h.write(), file_header_sample(b""));

    let h = FileHeader { previous: String::from("previous"), alignment: 1 << 30 };
    assert_eq!(h.write(), file_header_sample(b"previous"));
}

#[test]
fn read_transaction_header() {
    // The header is read after the record marker.
    let mut cursor: Vec<u8> = Vec::new();
    push_u64(&mut cursor, 9999);
    push_bytes(&mut cursor, &p64(1234567890));
    push_u32(&mut cursor, 2);
    push_u16(&mut cursor, 11);
    push_u16(&mut cursor, 22);
    push_u32(&mut cursor, 33);

    let h = TransactionHeader::read(&cursor, 0).unwrap();
    assert_eq!(
        h,
        TransactionHeader {
            length: 9999,
            id: p64(1234567890),
            ndata: 2,
            luser: 11,
            ldesc: 22,
            lext: 33,
        }
    );
}

#[test]
fn file_header_rejects_bad_magic_and_short_input() {
    let mut bad = file_header_sample(b"");
    bad[0] = b'x';
    assert!(FileHeader::read(&bad).is_err());
    assert!(FileHeader::read(&vec![0u8; 100]).is_err());
    // A previous-file name that is not UTF-8.
    assert!(FileHeader::read(&file_header_sample(&[0xff, 0xfe])).is_err());
    let mut trailer = file_header_sample(b"");
    trailer[4095] = 1;
    assert!(FileHeader::read(&trailer).is_err());
}

#[test]
fn new_file_header_has_default_alignment() {
    let h = FileHeader::new();
    assert_eq!(h.alignment, 1u64 << 32);
    let bytes = h.write();
    assert_eq!(bytes.len(), 4096);
    assert_eq!(&bytes[0..4], b"fs2 ");
    assert_eq!(FileHeader::read(&bytes).unwrap().alignment, 1u64 << 32);
}

#[test]
fn data_header_round_trip() {
    let h = DataHeader { length: 3, id: p64(5), tid: p64(6), previous: 4096, offset: 4200 };
    let mut v: Vec<u8> = Vec::new();
    h.write(&mut v);
    assert_eq!(v.len(), 36);
    assert_eq!(&v[0..4], &[0, 0, 0, 3]);
    assert_eq!(DataHeader::read(&v, 0).unwrap(), h);
    assert!(DataHeader::read(&v, 1).is_err());
    assert!(TransactionHeader::read(&v, 10).is_err());
}
