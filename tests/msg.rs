use byteserver::msg::{parse_message, sencode, size_vec, Zeo, ZeoIter};

fn sample_stream() -> Vec<u8> {
    let mut buf: Vec<u8> = vec![];
    // Handshake, M5
    buf.extend_from_slice(b"\x00\x00\x00\x02M5");
    // (1, 'register', '1', false)
    buf.extend_from_slice(b"\x00\x00\x00\x0f\x93\x01\xa8register\x92\xa11\xc2");
    // (2, 'loadBefore', (b"\0\0\0\0\0\0\0\0", b"\1\1\1\1\1\1\1\1"))
    buf.extend_from_slice(&[
        0, 0, 0, 34, 147, 2, 170, 108, 111, 97, 100, 66, 101, 102, 111, 114, 101, 146, 196, 8, 0,
        0, 0, 0, 0, 0, 0, 0, 196, 8, 1, 1, 1, 1, 1, 1, 1, 1,
    ]);
    buf
}

fn check_stream() {
    let mut it = ZeoIter::new(sample_stream());
    assert_eq!(&it.next_vec().unwrap(), b"M5");
    match it.next().unwrap() {
        Zeo::Register(1, storage, false) => {
            assert_eq!(&storage, "1");
        }
        _ => panic!("bad match"),
    }
    match it.next().unwrap() {
        Zeo::LoadBefore(2, oid, tid) => {
            assert_eq!(oid, [0u8; 8]);
            assert_eq!(tid, [1u8; 8]);
        }
        _ => panic!("bad match"),
    }
}

#[test]
fn parsing() {
    check_stream();
}

#[test]
fn msgparse_works() {
    check_stream();
}

#[test]
fn msg_test_size_vec() {
    assert_eq!(size_vec(vec![1, 2, 3]), vec![0, 0, 0, 3, 1, 2, 3]);
}

#[test]
fn msgencode_test_size_vec() {
    assert_eq!(size_vec(vec![1, 2, 3]), vec![0, 0, 0, 3, 1, 2, 3]);
}

#[test]
fn msg_test_sencode() {
    let v = sencode(1, "R", 42);
    assert_eq!(v, vec![0, 0, 0, 5, 147, 1, 161, 82, 42]);
}

#[test]
fn msgencode_test_sencode() {
    let v = sencode(1, "R", 42);
    assert_eq!(v, vec![0, 0, 0, 5, 147, 1, 161, 82, 42]);
}

#[test]
fn size_vec_of_empty_payload() {
    assert_eq!(size_vec(vec![]), vec![0, 0, 0, 0]);
}

#[test]
fn sencode_wider_values() {
    // A negative id and a two-byte value take their longer forms.
    let v = sencode(-1, "E", 300);
    assert_eq!(v, vec![0, 0, 0, 7, 147, 0xff, 161, 69, 0xcd, 1, 44]);
}

#[test]
fn end_of_stream_and_partial_frames() {
    let mut it = ZeoIter::new(vec![0, 0, 0, 5, 147]);
    assert!(it.next_vec().is_none());
    assert!(matches!(it.next(), Ok(Zeo::End)));
    it.feed(&[1, 161, 82, 42]);
    assert_eq!(it.next_vec().unwrap(), vec![147, 1, 161, 82, 42]);
    assert!(matches!(it.next(), Ok(Zeo::End)));
}

#[test]
fn heartbeats_are_skipped() {
    let mut it = ZeoIter::new(vec![0, 0, 0, 2, 147, 255]);
    it.feed(&sencode(7, "ping", 0)[..]);
    match it.next().unwrap() {
        Zeo::Ping(7) => {}
        other => panic!("unexpected {:?}", other),
    }
}

#[test]
fn parse_transaction_messages() {
    // [5, "vote", [42]]
    let vote = vec![147, 5, 164, 118, 111, 116, 101, 145, 42];
    assert_eq!(parse_message(&vote).unwrap(), Zeo::Vote(5, 42));
    // [6, "tpc_finish", [42]]
    let mut finish = vec![147, 6, 170];
    finish.extend_from_slice(b"tpc_finish");
    finish.extend_from_slice(&[145, 42]);
    assert_eq!(parse_message(&finish).unwrap(), Zeo::TpcFinish(6, 42));
    // [0, "storea", [oid, serial, data, 42]]
    let mut storea = vec![147, 0, 166];
    storea.extend_from_slice(b"storea");
    storea.extend_from_slice(&[148, 196, 8, 0, 0, 0, 0, 0, 0, 0, 3, 196, 8, 0, 0, 0, 0, 0, 0, 0, 0]);
    storea.extend_from_slice(&[196, 3, 116, 116, 116, 42]);
    assert_eq!(
        parse_message(&storea).unwrap(),
        Zeo::Storea([0, 0, 0, 0, 0, 0, 0, 3], [0; 8], b"ttt".to_vec(), 42)
    );
}

#[test]
fn parse_rejects_bad_messages() {
    // Not a three-element array.
    assert!(parse_message(&vec![146, 1, 2]).is_err());
    // Unknown method.
    let mut bad = vec![147, 1, 163];
    bad.extend_from_slice(b"xyz");
    bad.push(144);
    assert!(parse_message(&bad).is_err());
}
