use byteserver::errors::POSError;
use byteserver::index::{save_index, Index};
use byteserver::storage::{Conflict, FileStorage, LoadBeforeResult, Notice};
use byteserver::tid::next;
use byteserver::transaction::Transaction;
use byteserver::util::{p64, u64_of, Tid, Z64};

const MAXTID: Tid = [0x7f, 0xff, 0xff, 0xff, 0xff, 0xff, 0xff, 0xff];

fn now() -> Tid {
    p64(1000)
}

fn lock(fs: &mut FileStorage, trans: &mut Transaction) {
    fs.lock(trans).unwrap();
    assert_eq!(fs.take_notices(), vec![Notice::Locked(trans.id())]);
    trans.locked().unwrap();
}

#[test]
fn store() {
    let mut fs = FileStorage::open(Vec::new(), None).unwrap();
    fs.add_client(0);
    fs.add_client(1);
    fs.add_client(2);

    // First transaction:
    let mut trans = fs.tpc_begin(&now(), b"", b"", b"").unwrap();
    trans.save(p64(0), Z64, b"zzzz").unwrap();
    trans.save(p64(1), Z64, b"oooo").unwrap();
    lock(&mut fs, &mut trans);
    let conflicts = fs.stage(&mut trans, &now()).unwrap();
    assert_eq!(conflicts.len(), 0);

    fs.tpc_finish(&trans.id(), 0).unwrap();
    let notices = fs.take_notices();
    let tid0 = match &notices[2] {
        Notice::Finished(0, tid, len, size) => {
            assert_eq!(*len, 2);
            assert_eq!(*size, 4216);
            *tid
        }
        other => panic!("bad message {:?}", other),
    };
    assert_eq!(notices.len(), 3);
    assert_eq!(notices[0], Notice::Invalidate(1, tid0, vec![p64(0), p64(1)]));
    assert_eq!(notices[1], Notice::Invalidate(2, tid0, vec![p64(0), p64(1)]));
    assert_eq!(fs.last_transaction(), tid0);

    match fs.load_before(&p64(1), &next(&tid0)).unwrap() {
        LoadBeforeResult::Loaded(data, tid, None) => {
            assert_eq!(data, b"oooo".to_vec());
            assert_eq!(tid, tid0);
        }
        r => panic!("unexpeted result {:?}", r),
    }

    // A client whose delivery failed is dropped.
    fs.remove_client(2);

    // Second, conflict and then success:
    let mut trans = fs.tpc_begin(&now(), b"", b"", b"").unwrap();
    trans.save(p64(1), Z64, b"ooo1").unwrap();
    lock(&mut fs, &mut trans);
    let conflicts = fs.stage(&mut trans, &now()).unwrap();
    assert_eq!(
        conflicts,
        vec![Conflict { oid: p64(1), serial: Z64, committed: tid0, data: b"ooo1".to_vec() }]
    );

    trans.save(p64(1), tid0, b"ooo2").unwrap();
    lock(&mut fs, &mut trans);
    let conflicts = fs.stage(&mut trans, &now()).unwrap();
    assert_eq!(conflicts.len(), 0);

    fs.tpc_finish(&trans.id(), 0).unwrap();
    let notices = fs.take_notices();
    assert_eq!(notices.len(), 2);
    let tid1 = match &notices[1] {
        Notice::Finished(0, tid, len, size) => {
            assert_eq!(*len, 2);
            assert_eq!(*size, 4296);
            *tid
        }
        other => panic!("bad message {:?}", other),
    };
    assert_eq!(notices[0], Notice::Invalidate(1, tid1, vec![p64(1)]));
    assert_eq!(fs.last_transaction(), tid1);
    assert_eq!(fs.client_count(), 2);

    match fs.load_before(&p64(1), &tid1).unwrap() {
        LoadBeforeResult::Loaded(data, tid, Some(end)) => {
            assert_eq!(data, b"oooo".to_vec());
            assert_eq!(tid, tid0);
            assert_eq!(end, tid1);
        }
        r => panic!("unexpeted result {:?}", r),
    }

    match fs.load_before(&p64(1), &next(&tid1)).unwrap() {
        LoadBeforeResult::Loaded(data, tid, None) => {
            assert_eq!(data, b"ooo2".to_vec());
            assert_eq!(tid, tid1);
        }
        r => panic!("unexpeted result {:?}", r),
    }

    // Reopening the log gives the same answers.
    let reopened = FileStorage::open(fs.log().clone(), None).unwrap();
    assert_eq!(reopened.last_transaction(), tid1);
    match reopened.load_before(&p64(1), &tid1).unwrap() {
        LoadBeforeResult::Loaded(data, tid, Some(end)) => {
            assert_eq!(data, b"oooo".to_vec());
            assert_eq!((tid, end), (tid0, tid1));
        }
        r => panic!("unexpeted result {:?}", r),
    }
    match reopened.load_before(&p64(1), &next(&tid1)).unwrap() {
        LoadBeforeResult::Loaded(data, tid, None) => {
            assert_eq!(data, b"ooo2".to_vec());
            assert_eq!(tid, tid1);
        }
        r => panic!("unexpeted result {:?}", r),
    }
    assert_eq!(reopened.last_oid(), 1);
}

#[test]
fn abort() {
    let mut fs = FileStorage::open(Vec::new(), None).unwrap();
    fs.add_client(0);

    let mut trans = fs.tpc_begin(&now(), b"", b"", b"").unwrap();
    trans.save(p64(0), Z64, b"zzzz").unwrap();
    lock(&mut fs, &mut trans);
    let length = fs.log().len();

    // Abort releases the lock, so we can start over:
    fs.tpc_abort(&trans.id());
    assert_eq!(fs.log().len(), length);

    let mut trans = fs.tpc_begin(&now(), b"", b"", b"").unwrap();
    trans.save(p64(0), Z64, b"zzzz").unwrap();
    lock(&mut fs, &mut trans);
    let conflicts = fs.stage(&mut trans, &now()).unwrap();
    assert_eq!(conflicts.len(), 0);
    fs.tpc_abort(&trans.id());

    // Abort releases locks *and* prevents the transaction from committing.
    // We'll go again, which would fail if the previous attempts had
    // committed:
    let mut trans = fs.tpc_begin(&now(), b"", b"", b"").unwrap();
    trans.save(p64(0), Z64, b"zzzz").unwrap();
    lock(&mut fs, &mut trans);
    let conflicts = fs.stage(&mut trans, &now()).unwrap();
    assert_eq!(conflicts.len(), 0);
    fs.tpc_finish(&trans.id(), 0).unwrap();
    let notices = fs.take_notices();
    assert_eq!(notices.len(), 1);
    assert!(matches!(notices[0], Notice::Finished(0, _, 1, _)));
}

#[test]
fn open_empty_has_no_objects() {
    let fs = FileStorage::open(Vec::new(), None).unwrap();
    assert!(matches!(fs.load_before(&p64(0), &MAXTID), Ok(LoadBeforeResult::PosKeyError)));
    assert_eq!(fs.last_transaction(), Z64);
    assert_eq!(fs.log().len(), 4096);
}

#[test]
fn invalidations_go_to_other_clients() {
    let mut fs = FileStorage::open(Vec::new(), None).unwrap();
    fs.add_client(10);
    fs.add_client(11);
    let mut trans = fs.tpc_begin(&now(), b"", b"", b"").unwrap();
    trans.save(p64(3), Z64, b"ttt").unwrap();
    lock(&mut fs, &mut trans);
    assert!(fs.stage(&mut trans, &now()).unwrap().is_empty());
    fs.tpc_finish(&trans.id(), 10).unwrap();
    let notices = fs.take_notices();
    let t2 = fs.last_transaction();
    assert_eq!(notices.len(), 2);
    assert_eq!(notices[0], Notice::Invalidate(11, t2, vec![p64(3)]));
    match &notices[1] {
        Notice::Finished(10, t, len, size) => {
            assert_eq!((*t, *len), (t2, 1));
            assert_eq!(*size, fs.log().len() as u64);
        }
        other => panic!("bad message {:?}", other),
    }
}

#[test]
fn uncommitted_record_is_ignored_on_reopen() {
    let mut fs = FileStorage::open(Vec::new(), None).unwrap();
    let mut trans = fs.tpc_begin(&now(), b"", b"", b"").unwrap();
    trans.save(p64(5), Z64, b"lost").unwrap();
    lock(&mut fs, &mut trans);
    assert!(fs.stage(&mut trans, &now()).unwrap().is_empty());
    // The record is in the log, still marked PPPP: as after a crash.
    let log = fs.log().clone();
    let reopened = FileStorage::open(log.clone(), None).unwrap();
    assert!(matches!(reopened.load_before(&p64(5), &MAXTID), Ok(LoadBeforeResult::PosKeyError)));
    assert_eq!(reopened.last_transaction(), Z64);
    // A record cut short at the end of the log is ignored too.
    let cut = log[..log.len() - 10].to_vec();
    let reopened = FileStorage::open(cut, None).unwrap();
    assert_eq!(reopened.last_transaction(), Z64);
}

#[test]
fn finishes_are_published_in_vote_order() {
    let mut fs = FileStorage::open(Vec::new(), None).unwrap();
    fs.add_client(1);
    fs.add_client(2);
    fs.add_client(3);
    let mut a = fs.tpc_begin(&now(), b"", b"", b"").unwrap();
    a.save(p64(1), Z64, b"a").unwrap();
    let mut b = fs.tpc_begin(&now(), b"", b"", b"").unwrap();
    b.save(p64(2), Z64, b"b").unwrap();
    lock(&mut fs, &mut a);
    assert!(fs.stage(&mut a, &now()).unwrap().is_empty());
    lock(&mut fs, &mut b);
    assert!(fs.stage(&mut b, &now()).unwrap().is_empty());
    // b finishes first, but is published only after a.
    fs.tpc_finish(&b.id(), 2).unwrap();
    assert!(fs.take_notices().is_empty());
    assert_eq!(fs.last_transaction(), Z64);
    fs.tpc_finish(&a.id(), 1).unwrap();
    let tids: Vec<u64> = fs
        .take_notices()
        .iter()
        .filter_map(|n| match n {
            Notice::Invalidate(3, t, _) => Some(u64_of(t)),
            _ => None,
        })
        .collect();
    assert_eq!(tids.len(), 2);
    assert!(tids[0] < tids[1]);
    assert_eq!(u64_of(&fs.last_transaction()), tids[1]);
}

#[test]
fn waiting_vote_is_granted_on_release() {
    let mut fs = FileStorage::open(Vec::new(), None).unwrap();
    let mut a = fs.tpc_begin(&now(), b"", b"", b"").unwrap();
    a.save(p64(1), Z64, b"a").unwrap();
    let mut b = fs.tpc_begin(&now(), b"", b"", b"").unwrap();
    b.save(p64(1), Z64, b"b").unwrap();
    fs.lock(&a).unwrap();
    fs.lock(&b).unwrap();
    assert_eq!(fs.take_notices(), vec![Notice::Locked(a.id())]);
    fs.tpc_abort(&a.id());
    assert_eq!(fs.take_notices(), vec![Notice::Locked(b.id())]);
}

#[test]
fn unknown_errors() {
    let mut fs = FileStorage::open(Vec::new(), None).unwrap();
    assert_eq!(fs.tpc_finish(&p64(77), 0), Err(POSError::Transaction));
    let mut trans = fs.tpc_begin(&now(), b"", b"", b"").unwrap();
    trans.save(p64(4), p64(99), b"x").unwrap();
    lock(&mut fs, &mut trans);
    assert_eq!(fs.stage(&mut trans, &now()), Err(POSError::Key(p64(4))));
    let oids = fs.new_oids();
    assert_eq!(oids.len(), 100);
    assert_eq!(oids[0], p64(1));
    assert_eq!(oids[99], p64(100));
    assert_eq!(fs.new_oids()[0], p64(101));
    assert!(FileStorage::open(vec![0u8; 5000], None).is_err());
}

#[test]
fn tids_increase_even_with_a_stale_clock() {
    let mut fs = FileStorage::open(Vec::new(), None).unwrap();
    let t1 = fs.new_tid(&p64(500)).unwrap();
    let t2 = fs.new_tid(&p64(400)).unwrap();
    assert_eq!(t1, p64(500));
    assert_eq!(t2, p64(501));
}

#[test]
fn reopen_with_sidecar() {
    let mut fs = FileStorage::open(Vec::new(), None).unwrap();
    let mut trans = fs.tpc_begin(&now(), b"", b"", b"").unwrap();
    trans.save(p64(8), Z64, b"eight").unwrap();
    lock(&mut fs, &mut trans);
    assert!(fs.stage(&mut trans, &now()).unwrap().is_empty());
    fs.tpc_finish(&trans.id(), 0).unwrap();
    let log = fs.log().clone();
    let n = log.len();

    // A sidecar captured at the end of the log is taken as it is.
    let mut index = Index::new();
    index.insert(8, 4096 + 32);
    let mut start = [0u8; 8];
    start.copy_from_slice(&log[4108..4116]);
    let mut end = [0u8; 8];
    end.copy_from_slice(&log[n - 8..n]);
    let sidecar = save_index(&index, n as u64, &start, &end);
    let reopened = FileStorage::open(log.clone(), Some(sidecar)).unwrap();
    match reopened.load_before(&p64(8), &MAXTID).unwrap() {
        LoadBeforeResult::Loaded(data, _, None) => assert_eq!(data, b"eight".to_vec()),
        r => panic!("unexpeted result {:?}", r),
    }

    // One that does not fit the log is ignored: the log is replayed.
    let stale = save_index(&Index::new(), n as u64, &p64(1), &p64(2));
    let reopened = FileStorage::open(log, Some(stale)).unwrap();
    assert_eq!(reopened.last_transaction(), fs.last_transaction());
    assert!(matches!(reopened.load_before(&p64(8), &MAXTID), Ok(LoadBeforeResult::Loaded(_, _, None))));
}

#[test]
fn stage_exhausted_and_state_errors() {
    let mut fs = FileStorage::open(Vec::new(), None).unwrap();
    let mut trans = fs.tpc_begin(&now(), b"", b"", b"").unwrap();
    trans.save(p64(1), Z64, b"x").unwrap();
    // Not yet voting.
    assert_eq!(fs.stage(&mut trans, &now()), Err(POSError::State));
    lock(&mut fs, &mut trans);
    let length = fs.log().len();
    assert!(fs.stage(&mut trans, &now()).unwrap().is_empty());
    assert!(fs.log().len() > length);
}

#[test]
fn abort_frees_objects_for_the_next_lock() {
    let mut fs = FileStorage::open(Vec::new(), None).unwrap();
    let mut a = fs.tpc_begin(&now(), b"", b"", b"").unwrap();
    a.save(p64(0), Z64, b"zzzz").unwrap();
    lock(&mut fs, &mut a);
    let length = fs.log().len();
    fs.tpc_abort(&a.id());
    assert_eq!(fs.log().len(), length);
    assert!(fs.take_notices().is_empty());
    let mut b = fs.tpc_begin(&now(), b"", b"", b"").unwrap();
    b.save(p64(0), Z64, b"zzzz").unwrap();
    // Granted at once: the aborted transaction no longer holds p64(0).
    lock(&mut fs, &mut b);
    assert!(fs.stage(&mut b, &now()).unwrap().is_empty());
}
