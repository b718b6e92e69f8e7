use cubby::diff::{Diff, DiffPeerState, Insert};
use cubby::hlc::Hlc;
use cubby::memory::MemStore;
use cubby::opset::OpSet;
use cubby::peer_id::PeerId;
use rand::RngCore;
use roaring::RoaringTreemap;

fn random_bytes(n: usize) -> Vec<u8> {
    let mut v = vec![0u8; n];
    rand::rng().fill_bytes(&mut v);
    v
}

fn sync(from: &MemStore, to: &mut MemStore) {
    let request = to.request_diff();
    let diff = from.build_diff(request);
    to.integrate_diff(diff);
}

fn k(s: &str) -> Vec<u8> {
    s.as_bytes().to_vec()
}

#[test]
fn basic_sync() {
    // all writes within one tick of the clock
    let pt = 1_628_999_999_946_752;
    let mut a = MemStore::new("alice");
    let mut b = MemStore::new("bob");
    for _ in 0..1000 {
        a.insert_at(random_bytes(16), random_bytes(128), pt);
        b.insert_at(random_bytes(16), random_bytes(128), pt);
    }
    let request = a.request_diff();
    assert!(request.index_size() <= 2200);
    let diff = b.build_diff(request);
    a.integrate_diff(diff);

    let request = b.request_diff();
    assert!(request.index_size() <= 2200);
    let diff = a.build_diff(request);
    b.integrate_diff(diff);

    assert_eq!(a.entries(), b.entries());
    assert_eq!(a.len(), 2000);
    assert_eq!(b.len(), 2000);
}

#[test]
fn transactional_compression() {
    let mut a = MemStore::new("alice");
    let mut b = MemStore::new("bob");
    let mut txn = a.begin();
    for _ in 0..2000 {
        txn.insert(random_bytes(16), random_bytes(128));
    }
    txn.commit(&mut a);

    let request = b.request_diff();
    assert_eq!(request.index_size(), 8);
    let diff = a.build_diff(request);
    b.integrate_diff(diff);
    assert_eq!(a.entries(), b.entries());
    assert_eq!(b.len(), 2000);
}

#[test]
fn opset_push() {
    let mut a = MemStore::new("alice").with_opset();
    let mut b = MemStore::new("bob");
    for _ in 0..2000 {
        a.insert(random_bytes(16), random_bytes(128));
    }
    let opset = a.take_opset();
    b.integrate_opset(opset);
    assert_eq!(a.entries(), b.entries());
    assert_eq!(a.take_opset().inserts.len(), 0);
}

#[test]
fn lww_conflict() {
    let pt = 1_628_999_999_946_752;
    let mut a = MemStore::new("alice");
    let mut b = MemStore::new("bob");
    a.insert_at(k("k"), k("vA"), pt);
    b.insert_at(k("k"), k("vB"), pt);

    let request = a.request_diff();
    let diff = b.build_diff(request);
    a.integrate_diff(diff);
    sync(&a, &mut b);

    // equal HLCs: "bob" is the greater author
    assert_eq!(a.get(&k("k")), Some(&k("vB")));
    assert_eq!(b.get(&k("k")), Some(&k("vB")));
    assert_eq!(a.entries(), b.entries());
}

fn alice_live(s: &MemStore) -> Vec<u64> {
    let request = s.request_diff();
    for (id, state) in request.0.iter() {
        if id.as_slice() == b"alice" {
            return state.index.iter().collect();
        }
    }
    Vec::new()
}

#[test]
fn delete_of_newest_write_waits_for_bookmark() {
    // a delete is sent only for HLCs below the responder's bookmark, so the
    // removal of the author's newest write travels once it has written again
    let mut a = MemStore::new("alice");
    let mut b = MemStore::new("bob");
    a.insert(k("k"), k("v"));
    sync(&a, &mut b);
    a.remove(&k("k"));
    sync(&a, &mut b);
    assert_eq!(b.get(&k("k")), Some(&k("v")));
    a.insert(k("other"), k("w"));
    sync(&a, &mut b);
    assert_eq!(b.get(&k("k")), None);
    assert_eq!(a.entries(), b.entries());
}

#[test]
fn delete_propagation_after_later_write() {
    let mut a = MemStore::new("alice");
    let mut b = MemStore::new("bob");
    a.insert(k("k"), k("v"));
    sync(&a, &mut b);
    assert_eq!(b.get(&k("k")), Some(&k("v")));
    let first = alice_live(&b);
    assert_eq!(first.len(), 1);
    assert_eq!(a.remove(&k("k")), Some(k("v")));
    a.insert(k("later"), k("w"));
    sync(&a, &mut b);
    assert_eq!(b.get(&k("k")), None);
    assert_eq!(b.len(), 1);
    // B no longer lists the first write as live for A
    assert!(!alice_live(&b).contains(&first[0]));
}

#[test]
fn partial_bookmark_diff_keeps_undelivered_delete() {
    let mut a = MemStore::new("alice");
    let mut b = MemStore::new("bob");
    a.insert(k("e1"), k("1"));
    a.insert(k("e2"), k("2"));
    a.insert(k("e3"), k("3"));
    sync(&a, &mut b);
    a.remove(&k("e2"));
    b.remove(&k("e3"));
    // B has seen only up to e3 from A: its delete of e3 is not sent
    sync(&b, &mut a);
    assert_eq!(a.get(&k("e3")), Some(&k("3")));
    // A's write e4 carries the delete of e2 along to B
    a.insert(k("e4"), k("4"));
    sync(&a, &mut b);
    assert_eq!(b.get(&k("e2")), None);
    assert_eq!(b.get(&k("e4")), Some(&k("4")));
    assert_eq!(b.len(), 2);
    // B's block for A now holds only the delete of e3, and such a block
    // is not sent
    let diff = b.build_diff(a.request_diff());
    for (id, _) in diff.0.iter() {
        assert!(id.as_slice() != b"alice");
    }
    sync(&b, &mut a);
    assert_eq!(a.get(&k("e3")), Some(&k("3")));
    assert_eq!(a.len(), 3);
}

#[test]
fn block_with_only_deletes_is_dropped() {
    let mut a = MemStore::new("alice");
    let mut b = MemStore::new("bob");
    a.insert(k("x"), k("1"));
    a.insert(k("y"), k("2"));
    sync(&a, &mut b);
    sync(&b, &mut a);
    a.remove(&k("x"));
    let request = b.request_diff();
    let diff = a.build_diff(request);
    let mut alice_blocks = 0;
    let mut bob_blocks = 0;
    for (id, block) in diff.0.iter() {
        if id.as_slice() == b"alice" {
            alice_blocks += 1;
        }
        if id.as_slice() == b"bob" {
            // nothing to send and nothing to delete: sent for its bookmark
            assert!(block.inserts.is_empty());
            assert!(block.deletes.is_empty());
            bob_blocks += 1;
        }
    }
    assert_eq!(alice_blocks, 0);
    assert_eq!(bob_blocks, 1);
}

#[test]
fn insert_and_remove_return_prior_values() {
    let mut a = MemStore::new("alice");
    assert_eq!(a.id(), "alice");
    assert_eq!(a.insert(k("x"), k("1")), None);
    assert_eq!(a.insert(k("x"), k("2")), Some(k("1")));
    assert_eq!(a.len(), 1);
    assert_eq!(a.remove(&k("x")), Some(k("2")));
    assert_eq!(a.remove(&k("x")), None);
    assert!(a.is_empty());
}

#[test]
fn entries_in_key_order() {
    let mut a = MemStore::new("alice");
    a.insert(k("b"), k("2"));
    a.insert(k("a"), k("1"));
    a.insert(k("ab"), k("3"));
    let e = a.entries();
    let keys: Vec<Vec<u8>> = e.iter().iter().map(|(key, _)| key.clone()).collect();
    assert_eq!(keys, vec![k("a"), k("ab"), k("b")]);
    assert_eq!(e.get(&k("ab")), Some(&k("3")));
    assert_eq!(e.get(&k("zz")), None);
}

#[test]
fn transaction_stages_until_commit() {
    let mut a = MemStore::new("alice");
    a.insert(k("gone"), k("0"));
    let mut txn = a.begin();
    txn.insert(k("x"), k("1"));
    txn.insert(k("y"), k("2"));
    txn.insert(k("x"), k("3"));
    txn.remove(&k("gone"));
    assert_eq!(a.len(), 1);
    txn.commit(&mut a);
    assert_eq!(a.get(&k("x")), Some(&k("3")));
    assert_eq!(a.get(&k("y")), Some(&k("2")));
    assert_eq!(a.get(&k("gone")), None);
    assert_eq!(a.len(), 2);
}

#[test]
fn aborted_transaction_changes_nothing() {
    let mut a = MemStore::new("alice");
    let mut txn = a.begin();
    txn.insert(k("x"), k("1"));
    txn.abort();
    assert!(a.is_empty());
}

#[test]
fn transaction_gives_consecutive_hlcs() {
    let mut a = MemStore::new("alice");
    let mut txn = a.begin();
    for i in 0..100u32 {
        txn.insert(i.to_be_bytes().to_vec(), k("v"));
    }
    txn.commit(&mut a);
    let request = a.request_diff();
    let index = &request.0[0].1.index;
    let v: Vec<u64> = index.iter().collect();
    assert_eq!(v.len(), 100);
    for w in v.windows(2) {
        assert_eq!(w[1], w[0] + 1);
    }
    assert_eq!(request.0[0].1.bookmark.to_u64(), v[99]);
}

#[test]
fn diff_is_idempotent() {
    let mut a = MemStore::new("alice");
    let mut b = MemStore::new("bob");
    b.insert(k("p"), k("1"));
    b.insert(k("q"), k("2"));
    a.insert(k("q"), k("3"));
    let d1 = b.build_diff(a.request_diff());
    let d2 = b.build_diff(a.request_diff());
    a.integrate_diff(d1);
    let once = a.entries();
    a.integrate_diff(d2);
    assert_eq!(a.entries(), once);
}

fn single_insert_diff(peer: &str, key: &str, value: &str, hlc: u64) -> Diff {
    let block = DiffPeerState {
        inserts: vec![Insert { key: k(key), value: k(value), hlc: Hlc::from_u64(hlc) }],
        deletes: RoaringTreemap::new(),
        bookmark: Hlc::from_u64(hlc),
    };
    Diff(vec![(PeerId::from_str(peer), block)])
}

#[test]
fn diffs_commute() {
    let mut c1 = MemStore::new("carol");
    c1.integrate_diff(single_insert_diff("x", "k", "from x", 0x10000));
    c1.integrate_diff(single_insert_diff("y", "k", "from y", 0x10000));
    let mut c2 = MemStore::new("carol");
    c2.integrate_diff(single_insert_diff("y", "k", "from y", 0x10000));
    c2.integrate_diff(single_insert_diff("x", "k", "from x", 0x10000));
    assert_eq!(c1.entries(), c2.entries());
    assert_eq!(c1.get(&k("k")), Some(&k("from y")));
}

#[test]
fn newer_hlc_wins_over_author() {
    let mut c = MemStore::new("carol");
    c.integrate_diff(single_insert_diff("z", "k", "old", 0x10000));
    c.integrate_diff(single_insert_diff("a", "k", "new", 0x20000));
    assert_eq!(c.get(&k("k")), Some(&k("new")));
    c.integrate_diff(single_insert_diff("z", "k", "stale", 0x10001));
    assert_eq!(c.get(&k("k")), Some(&k("new")));
}

#[test]
fn build_diff_sends_only_unseen_writes() {
    let mut a = MemStore::new("alice");
    let mut b = MemStore::new("bob");
    a.insert(k("1"), k("a"));
    sync(&a, &mut b);
    a.insert(k("2"), k("b"));
    let diff = a.build_diff(b.request_diff());
    let mut sent = 0;
    for (id, block) in diff.0.iter() {
        if id.as_slice() == b"alice" {
            assert_eq!(block.inserts.len(), 1);
            assert_eq!(block.inserts[0].key, k("2"));
            assert!(block.deletes.is_empty());
            sent += 1;
        }
    }
    assert_eq!(sent, 1);
}

#[test]
fn opset_merge_joins_inserts_and_deletes() {
    let mut o1 = OpSet::new(PeerId::from_str("p"));
    o1.add_insert(Insert { key: k("a"), value: k("1"), hlc: Hlc::from_u64(1) });
    o1.add_delete(PeerId::from_str("q"), Hlc::from_u64(5));
    let mut o2 = OpSet::new(PeerId::from_str("p"));
    o2.add_insert(Insert { key: k("b"), value: k("2"), hlc: Hlc::from_u64(2) });
    o2.add_delete(PeerId::from_str("q"), Hlc::from_u64(6));
    o2.add_delete(PeerId::from_str("r"), Hlc::from_u64(7));
    o1.merge(o2);
    assert_eq!(o1.inserts.len(), 2);
    assert_eq!(o1.inserts[1].key, k("b"));
    assert_eq!(o1.deletes.len(), 2);
    let q: Vec<u64> = o1.deletes[0].1.iter().collect();
    assert_eq!(q, vec![5, 6]);
}

#[test]
fn opset_carries_deletes() {
    let mut a = MemStore::new("alice").with_opset();
    let mut b = MemStore::new("bob");
    a.insert(k("x"), k("1"));
    a.insert(k("y"), k("2"));
    b.integrate_opset(a.take_opset());
    assert_eq!(b.len(), 2);
    a.remove(&k("x"));
    b.integrate_opset(a.take_opset());
    assert_eq!(a.entries(), b.entries());
    assert_eq!(b.get(&k("x")), None);
}

#[test]
fn peer_id_order_and_bytes() {
    let a = PeerId::from_str("alice");
    let b = PeerId::from(b"bob".to_vec());
    assert!(a.less_than(&b));
    assert!(!b.less_than(&a));
    assert!(a.same(&a.copy()));
    assert_eq!(b.as_slice(), b"bob");
    assert!(PeerId::from_str("ab").less_than(&PeerId::from_str("abc")));
}

#[test]
fn commit_at_gives_hlcs_from_the_given_time() {
    let pt = 1_628_999_999_946_752;
    let mut a = MemStore::new("alice");
    let mut txn = a.begin();
    txn.insert(k("x"), k("1"));
    txn.insert(k("y"), k("2"));
    txn.insert(k("z"), k("3"));
    txn.remove(&k("y"));
    txn.commit_at(&mut a, pt);
    let request = a.request_diff();
    let v: Vec<u64> = request.0[0].1.index.iter().collect();
    // y was un-staged: x and z take pt and pt + 1, in staging order
    assert_eq!(v, vec![pt, pt + 1]);
    assert_eq!(request.0[0].1.bookmark.to_u64(), pt + 1);
    assert_eq!(a.get(&k("x")), Some(&k("1")));
    assert_eq!(a.get(&k("y")), None);
    assert_eq!(a.get(&k("z")), Some(&k("3")));
}

#[test]
fn index_size_sums_blocks() {
    let mut a = MemStore::new("alice");
    let b = MemStore::new("bob");
    a.insert(k("x"), k("1"));
    sync(&b, &mut a);
    let request = a.request_diff();
    let mut total = 0;
    for (_, state) in request.0.iter() {
        assert_eq!(state.index_size(), state.index.serialized_size());
        total += state.index_size();
    }
    assert_eq!(request.index_size(), total);
    assert!(total > 16);
}

#[test]
fn unnamed_peer_gets_whole_live_set() {
    let mut a = MemStore::new("alice");
    a.insert(k("x"), k("1"));
    a.insert(k("y"), k("2"));
    a.remove(&k("x"));
    let b = MemStore::new("bob");
    let diff = a.build_diff(b.request_diff());
    let mut seen = 0;
    for (id, block) in diff.0.iter() {
        if id.as_slice() == b"alice" {
            assert_eq!(block.inserts.len(), 1);
            assert_eq!(block.inserts[0].key, k("y"));
            assert!(block.deletes.is_empty());
            seen += 1;
        }
    }
    assert_eq!(seen, 1);
}
