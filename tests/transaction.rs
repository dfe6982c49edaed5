use byteserver::records::{DataHeader, TransactionHeader, DATA_HEADER_SIZE, TRANSACTION_HEADER_LENGTH};
use byteserver::transaction::{Transaction, TransactionState};
use byteserver::util::{p64, read_u64_at, Oid, Tid};

fn sorted(mut v: Vec<(Oid, Tid)>) -> Vec<(Oid, Tid)> {
    v.sort();
    v
}

#[test]
fn works_w_dup() {
    let mut trans = Transaction::begin(p64(1234567890), b"user", b"desc", b"{}").unwrap();

    trans.save(p64(0), p64(123456789), &[1; 11]).unwrap();
    trans.save(p64(1), p64(12345678), &[2; 22]).unwrap();
    trans.save(p64(0), p64(123456788), &[3; 33]).unwrap();
    assert_eq!(trans.lock_data().unwrap(), (p64(1234567890), vec![p64(1), p64(0)]));
    trans.locked().unwrap();
    let serials = sorted(trans.serials().unwrap());
    assert_eq!(serials, vec![(p64(0), p64(123456788)), (p64(1), p64(12345678))]);
    assert_eq!(trans.get_data(&p64(0)).unwrap(), vec![3; 33]);
    assert_eq!(trans.get_data(&p64(1)).unwrap(), vec![2; 22]);
    trans.set_previous(&p64(0), 7777).unwrap();

    trans.pack().unwrap();

    let mut file: Vec<u8> = Vec::new();
    let (index, tsize) = trans.stage(p64(1234567891), &mut file).unwrap();

    // Now, we'll verify the saved data.
    let l = file.len() as u64;
    assert_eq!(tsize, l);
    assert_eq!(&file[0..4], b"PPPP");
    let th = TransactionHeader::read(&file, 4).unwrap();
    assert_eq!(
        th,
        TransactionHeader { length: l, id: p64(1234567891), ndata: 2, luser: 4, ldesc: 4, lext: 2 }
    );
    assert_eq!(&file[32..36], b"user");
    assert_eq!(&file[36..40], b"desc");
    assert_eq!(&file[40..42], b"{}");

    let dh1 = DataHeader::read(&file, 42).unwrap();
    assert_eq!(
        dh1,
        DataHeader {
            length: 22,
            id: p64(1),
            tid: p64(1234567891),
            previous: 0,
            offset: TRANSACTION_HEADER_LENGTH + 14,
        }
    );
    assert_eq!(file[78..100].to_vec(), vec![2; 22]);

    let dh0 = DataHeader::read(&file, 100).unwrap();
    assert_eq!(
        dh0,
        DataHeader {
            length: 33,
            id: p64(0),
            tid: p64(1234567891),
            previous: 7777,
            offset: dh1.offset + DATA_HEADER_SIZE + dh1.length as u64,
        }
    );
    assert_eq!(file[136..169].to_vec(), vec![3; 33]);

    assert_eq!(read_u64_at(&file, 169), l); // Check redundant length

    assert_eq!(index.len(), 2);
    assert_eq!(index.get(0), Some(dh0.offset));
    assert_eq!(index.get(1), Some(dh1.offset));
    assert_eq!(trans.state(), TransactionState::Voted);
}

#[test]
fn works_wo_dup() {
    let mut trans = Transaction::begin(p64(1234567890), b"user", b"desc", b"{}").unwrap();

    trans.save(p64(0), p64(123456789), &[1; 11]).unwrap();
    trans.save(p64(1), p64(12345678), &[2; 22]).unwrap();
    assert_eq!(trans.lock_data().unwrap(), (p64(1234567890), vec![p64(1), p64(0)]));
    trans.locked().unwrap();
    let serials = sorted(trans.serials().unwrap());
    assert_eq!(serials, vec![(p64(0), p64(123456789)), (p64(1), p64(12345678))]);
    assert_eq!(trans.get_data(&p64(0)).unwrap(), vec![1; 11]);
    assert_eq!(trans.get_data(&p64(1)).unwrap(), vec![2; 22]);
    trans.set_previous(&p64(0), 7777).unwrap();

    trans.pack().unwrap();

    let mut file: Vec<u8> = Vec::new();
    let (index, tsize) = trans.stage(p64(1234567891), &mut file).unwrap();

    let l = file.len() as u64;
    assert_eq!(tsize, l);
    assert_eq!(&file[0..4], b"PPPP");
    let th = TransactionHeader::read(&file, 4).unwrap();
    assert_eq!(
        th,
        TransactionHeader { length: l, id: p64(1234567891), ndata: 2, luser: 4, ldesc: 4, lext: 2 }
    );
    assert_eq!(&file[32..36], b"user");
    assert_eq!(&file[36..40], b"desc");
    assert_eq!(&file[40..42], b"{}");

    let dh0 = DataHeader::read(&file, 42).unwrap();
    assert_eq!(
        dh0,
        DataHeader {
            length: 11,
            id: p64(0),
            tid: p64(1234567891),
            previous: 7777,
            offset: TRANSACTION_HEADER_LENGTH + 14,
        }
    );
    assert_eq!(file[78..89].to_vec(), vec![1; 11]);

    let dh1 = DataHeader::read(&file, 89).unwrap();
    assert_eq!(
        dh1,
        DataHeader {
            length: 22,
            id: p64(1),
            tid: p64(1234567891),
            previous: 0,
            offset: dh0.offset + DATA_HEADER_SIZE + dh0.length as u64,
        }
    );
    assert_eq!(file[125..147].to_vec(), vec![2; 22]);

    assert_eq!(read_u64_at(&file, 147), l); // Check redundant length

    assert_eq!(index.len(), 2);
    assert_eq!(index.get(0), Some(dh0.offset));
    assert_eq!(index.get(1), Some(dh1.offset));
}

#[test]
fn operations_in_the_wrong_state_fail() {
    let mut trans = Transaction::begin(p64(1), b"", b"", b"").unwrap();
    assert!(trans.serials().is_err());
    assert!(trans.get_data(&p64(0)).is_err());
    assert!(trans.pack().is_err());
    assert!(trans.unlocked().is_err());
    let mut out: Vec<u8> = Vec::new();
    assert!(trans.stage(p64(2), &mut out).is_err());
    assert!(out.is_empty());
    trans.locked().unwrap();
    assert!(trans.save(p64(0), p64(0), b"x").is_err());
    assert!(trans.lock_data().is_err());
    assert!(trans.locked().is_err());
    assert!(trans.get_data(&p64(9)).is_err());
    trans.unlocked().unwrap();
    trans.save(p64(0), p64(0), b"x").unwrap();
}

#[test]
fn empty_transaction_stages_a_bare_record() {
    let mut trans = Transaction::begin(p64(1), b"", b"", b"").unwrap();
    trans.locked().unwrap();
    trans.pack().unwrap();
    let mut out = vec![9u8; 3];
    let (index, len) = trans.stage(p64(2), &mut out).unwrap();
    assert_eq!(len, 40);
    assert_eq!(out.len(), 43);
    assert_eq!(index.len(), 0);
    assert_eq!(read_u64_at(&out, 35), 40);
}
