use ipfs_embed::Block;
use ipfs_embed::Cid;
use ipfs_embed::Completion;
use ipfs_embed::Error;
use ipfs_embed::GetResult;
use ipfs_embed::Ipfs;
use ipfs_embed::NetworkEvent;
use ipfs_embed::StorageService;

use libipld::cid::Cid as ExtCid;
use libipld::multihash::Code;
use libipld::multihash::MultihashDigest;
use libipld::raw::RawCodec;
use libipld::store::DefaultParams;

fn create_store() -> Ipfs {
    let storage = StorageService::open(10);
    Ipfs::new(storage, 1, vec!["/memory/1".to_string()], 5000)
}

fn create_block(bytes: &[u8]) -> Block {
    let b = libipld::Block::<DefaultParams>::encode(RawCodec, Code::Sha2_256, bytes).unwrap();
    Block::new(Cid::from_bytes(b.cid().to_bytes()), b.data().to_vec())
}

/// Route one store's outgoing traffic to another: wants are answered
/// from the source store, provided blocks flow back as received blocks.
fn route(dst: &mut Ipfs, src: &mut Ipfs, now: u64) {
    for _ in 0..8 {
        for act in dst.take_actions() {
            if let ipfs_embed::NetworkAction::Want(c, _) = act {
                src.handle_network_event(NetworkEvent::ReceivedWant(2, c, 1000));
            }
        }
        for act in src.take_actions() {
            if let ipfs_embed::NetworkAction::SendTo(_, c, data) = act {
                dst.handle_network_event(NetworkEvent::ReceivedBlock(1, c, data));
            }
        }
        dst.tick(now);
        src.tick(now);
    }
}

fn sync_alias(dst: &mut Ipfs, src: &mut Ipfs, name: &[u8], cid: &Cid) {
    for _ in 0..16 {
        match dst.alias(&name.to_vec(), Some(cid), 0) {
            Ok(()) => return,
            Err(Error::BlockNotFound(_)) => route(dst, src, 0),
            Err(e) => panic!("unexpected alias error {:?}", e),
        }
    }
    panic!("alias did not converge");
}

#[test]
fn test_local_store() {
    let mut store = create_store();
    let block = create_block(b"test_local_store");
    store.insert(&block).unwrap();
    match store.get(block.cid(), 0) {
        GetResult::Local(block2) => assert_eq!(block.data(), block2.data()),
        GetResult::Pending(_) => panic!("expected a local hit"),
    }
}

#[test]
fn test_exchange_mdns() {
    let mut store1 = create_store();
    let mut store2 = create_store();
    let block = create_block(b"test_exchange_mdns");
    store1.insert(&block).unwrap();
    let pending = match store2.get(block.cid(), 0) {
        GetResult::Local(_) => panic!("store2 must not have the block yet"),
        GetResult::Pending(w) => w,
    };
    route(&mut store2, &mut store1, 0);
    let done = store2.take_completions();
    assert_eq!(done.len(), 1);
    match &done[0] {
        Completion::Delivered(w, block2) => {
            assert_eq!(*w, pending);
            assert_eq!(block.data(), block2.data());
        }
        other => panic!("expected a delivery, got {:?}", completion_name(other)),
    }
}

#[test]
fn test_received_want_before_insert() {
    let mut store1 = create_store();
    let mut store2 = create_store();
    let block = create_block(b"test_received_want_before_insert");
    // the want goes out first
    let pending = match store2.get(block.cid(), 100) {
        GetResult::Local(_) => panic!("store2 must not have the block yet"),
        GetResult::Pending(w) => w,
    };
    for act in store2.take_actions() {
        if let ipfs_embed::NetworkAction::Want(c, _) = act {
            store1.handle_network_event(NetworkEvent::ReceivedWant(2, c, 1000));
        }
    }
    // nothing is delivered while the remote has not inserted
    assert!(store2.take_completions().is_empty());
    // the remote inserts later and advertises; the block then flows back
    store1.insert(&block).unwrap();
    store1.tick(200);
    let mut delivered = false;
    for act in store1.take_actions() {
        if let ipfs_embed::NetworkAction::Send(c, data) = act {
            store2.handle_network_event(NetworkEvent::ReceivedBlock(1, c, data));
            delivered = true;
        }
    }
    assert!(delivered);
    let done = store2.take_completions();
    assert_eq!(done.len(), 1);
    match &done[0] {
        Completion::Delivered(w, block2) => {
            assert_eq!(*w, pending);
            assert_eq!(block.data(), block2.data());
        }
        other => panic!("expected a delivery, got {:?}", completion_name(other)),
    }
}

#[test]
fn test_exchange_kad() {
    let store0 = create_store();
    let bootstrap = (store0.external_addresses()[0].clone(), store0.local_peer_id());
    assert_eq!(bootstrap.1, 1);
    let mut store1 = create_store();
    let mut store2 = create_store();
    let block = create_block(b"test_exchange_kad");
    store1.insert(&block).unwrap();
    match store2.get(block.cid(), 0) {
        GetResult::Local(_) => panic!("store2 must not have the block yet"),
        GetResult::Pending(_) => {}
    }
    route(&mut store2, &mut store1, 1000);
    let done = store2.take_completions();
    assert_eq!(done.len(), 1);
    match &done[0] {
        Completion::Delivered(_, block2) => assert_eq!(block.data(), block2.data()),
        other => panic!("expected a delivery, got {:?}", completion_name(other)),
    }
}

#[test]
fn test_provider_not_found() {
    let mut store1 = create_store();
    let block = create_block(b"test_provider_not_found");
    let pending = match store1.get(block.cid(), 0) {
        GetResult::Local(_) => panic!("the block was never inserted"),
        GetResult::Pending(w) => w,
    };
    // before the timeout nothing resolves
    store1.tick(4999);
    assert!(store1.take_completions().is_empty());
    // at the timeout the caller observes the block as not found
    store1.tick(5000);
    let done = store1.take_completions();
    assert_eq!(done.len(), 1);
    match &done[0] {
        Completion::TimedOut(w, c) => {
            assert_eq!(*w, pending);
            assert_eq!(c.bytes(), block.cid().bytes());
        }
        other => panic!("expected a timeout, got {:?}", completion_name(other)),
    }
}

fn completion_name(c: &Completion) -> &'static str {
    match c {
        Completion::Delivered(_, _) => "delivered",
        Completion::TimedOut(_, _) => "timed out",
    }
}

fn create_cbor_block(map: Vec<(&str, libipld::Ipld)>) -> Block {
    let mut m = std::collections::BTreeMap::new();
    for (k, v) in map {
        m.insert(k.to_string(), v);
    }
    let b = libipld::Block::<DefaultParams>::encode(
        libipld::cbor::DagCborCodec,
        Code::Sha2_256,
        &libipld::Ipld::StringMap(m),
    )
    .unwrap();
    Block::new(Cid::from_bytes(b.cid().to_bytes()), b.data().to_vec())
}

fn ext_cid(c: &Cid) -> libipld::Ipld {
    libipld::Ipld::Link(ExtCid::try_from(c.bytes().as_slice()).unwrap())
}

#[test]
fn test_sync() {
    let mut local1 = create_store();
    let mut local2 = create_store();
    let a1 = create_cbor_block(vec![("a", libipld::Ipld::Integer(0))]);
    let b1 = create_cbor_block(vec![("b", libipld::Ipld::Integer(0))]);
    let c1 = create_cbor_block(vec![(
        "c",
        libipld::Ipld::List(vec![ext_cid(a1.cid()), ext_cid(b1.cid())]),
    )]);
    let b2 = create_cbor_block(vec![("b", libipld::Ipld::Integer(1))]);
    let c2 = create_cbor_block(vec![(
        "c",
        libipld::Ipld::List(vec![ext_cid(a1.cid()), ext_cid(b2.cid())]),
    )]);
    let x = b"x";

    local1.insert(&a1).unwrap();
    local1.insert(&b1).unwrap();
    local1.insert(&c1).unwrap();
    local1.alias(&x.to_vec(), Some(c1.cid()), 0).unwrap();
    assert_eq!(local1.pinned(a1.cid()), Some(true));
    assert_eq!(local1.pinned(b1.cid()), Some(true));
    assert_eq!(local1.pinned(c1.cid()), Some(true));

    sync_alias(&mut local2, &mut local1, x, c1.cid());
    assert_eq!(local2.pinned(a1.cid()), Some(true));
    assert_eq!(local2.pinned(b1.cid()), Some(true));
    assert_eq!(local2.pinned(c1.cid()), Some(true));

    local2.insert(&b2).unwrap();
    local2.insert(&c2).unwrap();
    local2.alias(&x.to_vec(), Some(c2.cid()), 0).unwrap();
    assert_eq!(local2.pinned(a1.cid()), Some(true));
    assert_eq!(local2.pinned(b1.cid()), Some(false));
    assert_eq!(local2.pinned(c1.cid()), Some(false));
    assert_eq!(local2.pinned(b2.cid()), Some(true));
    assert_eq!(local2.pinned(c2.cid()), Some(true));

    sync_alias(&mut local1, &mut local2, x, c2.cid());
    assert_eq!(local1.pinned(a1.cid()), Some(true));
    assert_eq!(local1.pinned(b1.cid()), Some(false));
    assert_eq!(local1.pinned(c1.cid()), Some(false));
    assert_eq!(local1.pinned(b2.cid()), Some(true));
    assert_eq!(local1.pinned(c2.cid()), Some(true));

    local2.alias(&x.to_vec(), None, 0).unwrap();
    assert_eq!(local2.pinned(a1.cid()), Some(false));
    assert_eq!(local2.pinned(b1.cid()), Some(false));
    assert_eq!(local2.pinned(c1.cid()), Some(false));
    assert_eq!(local2.pinned(b2.cid()), Some(false));
    assert_eq!(local2.pinned(c2.cid()), Some(false));

    local1.alias(&x.to_vec(), None, 0).unwrap();
    assert_eq!(local1.pinned(a1.cid()), Some(false));
    assert_eq!(local1.pinned(b1.cid()), Some(false));
    assert_eq!(local1.pinned(c1.cid()), Some(false));
    assert_eq!(local1.pinned(b2.cid()), Some(false));
    assert_eq!(local1.pinned(c2.cid()), Some(false));
}

#[test]
fn test_resolve_tracks_alias() {
    let mut store = create_store();
    let block = create_block(b"resolve me");
    store.insert(&block).unwrap();
    assert!(store.resolve(&b"name".to_vec()).is_none());
    store.alias(&b"name".to_vec(), Some(block.cid()), 0).unwrap();
    let c = store.resolve(&b"name".to_vec()).unwrap();
    assert_eq!(c.bytes(), block.cid().bytes());
    store.alias(&b"name".to_vec(), None, 0).unwrap();
    assert!(store.resolve(&b"name".to_vec()).is_none());
}

#[test]
fn test_alias_missing_descendant_reports_first_gap() {
    let mut store = create_store();
    let a = create_cbor_block(vec![("a", libipld::Ipld::Integer(7))]);
    let parent = create_cbor_block(vec![("c", libipld::Ipld::List(vec![ext_cid(a.cid())]))]);
    store.insert(&parent).unwrap();
    match store.alias(&b"r".to_vec(), Some(parent.cid()), 0) {
        Err(Error::BlockNotFound(m)) => assert_eq!(m.bytes(), a.cid().bytes()),
        other => panic!("expected the missing child, got {:?}", other.is_ok()),
    }
    // the aborted alias left nothing behind
    assert!(store.resolve(&b"r".to_vec()).is_none());
}

#[test]
fn test_insert_rejects_undecodable_bytes() {
    let mut store = create_store();
    // a CID that names the dag-cbor codec over bytes that are not CBOR
    let data = vec![0xffu8];
    let mh = Code::Sha2_256.digest(&data);
    let cid = ExtCid::new_v1(0x71, mh);
    let block = Block::new(Cid::from_bytes(cid.to_bytes()), data);
    assert_eq!(store.insert(&block), Err(Error::CodecFailure));
}

#[test]
fn test_cid_round_trip() {
    let block = create_block(b"round trip");
    let parsed = ExtCid::try_from(block.cid().bytes().as_slice()).unwrap();
    assert_eq!(parsed.to_bytes(), *block.cid().bytes());
}

#[test]
fn test_sweep_evicts_only_unpinned() {
    let storage = StorageService::open(1);
    let mut store = Ipfs::new(storage, 1, vec!["/memory/1".to_string()], 5000);
    let pinned = create_block(b"sweep keep");
    let loose1 = create_block(b"sweep loose one");
    let loose2 = create_block(b"sweep loose two");
    store.insert(&pinned).unwrap();
    store.insert(&loose1).unwrap();
    store.insert(&loose2).unwrap();
    store.alias(&b"keep".to_vec(), Some(pinned.cid()), 0).unwrap();
    store.sweep();
    // the pinned block survives, bit for bit
    match store.get(pinned.cid(), 0) {
        GetResult::Local(b) => assert_eq!(b.data(), pinned.data()),
        GetResult::Pending(_) => panic!("the pinned block must survive the sweep"),
    }
    assert_eq!(store.pinned(pinned.cid()), Some(true));
    // the cache came back under its bound: at most one loose block left
    let loose_left = [&loose1, &loose2]
        .iter()
        .filter(|b| matches!(store.get(b.cid(), 0), GetResult::Local(_)))
        .count();
    assert!(loose_left <= 1);
    // the removals are retracted from the network on the next tick
    store.tick(0);
    let unprovides = store
        .take_actions()
        .into_iter()
        .filter(|a| matches!(a, ipfs_embed::NetworkAction::Unprovide(_)))
        .count();
    assert_eq!(unprovides + loose_left, 2);
}

#[test]
fn test_referrers_inverse_of_children() {
    let mut store = create_store();
    let a = create_cbor_block(vec![("a", libipld::Ipld::Integer(3))]);
    let b = create_cbor_block(vec![("b", libipld::Ipld::Integer(4))]);
    let p = create_cbor_block(vec![(
        "c",
        libipld::Ipld::List(vec![ext_cid(a.cid()), ext_cid(b.cid())]),
    )]);
    store.insert(&a).unwrap();
    store.insert(&b).unwrap();
    store.insert(&p).unwrap();
    // ids are assigned on first sight, in insert order starting at zero
    let refs_of_a = store_referrers(&store, 0);
    let refs_of_p = store_referrers(&store, 2);
    assert_eq!(refs_of_a, vec![2]);
    assert_eq!(refs_of_p, Vec::<u64>::new());
}

fn store_referrers(store: &Ipfs, id: u64) -> Vec<u64> {
    let ids = store.referrers(&ipfs_embed::Id::from_u64(id));
    let mut out = Vec::new();
    let mut iter = ids.iter();
    while let Some(i) = iter.next() {
        out.push(i.to_u64());
    }
    out
}

#[test]
fn test_expiry_cancels_each_want_once() {
    let mut store = create_store();
    let b1 = create_block(b"expire one");
    let b2 = create_block(b"expire two");
    match store.get(b1.cid(), 0) {
        GetResult::Pending(_) => {}
        GetResult::Local(_) => panic!("never inserted"),
    }
    match store.get(b2.cid(), 0) {
        GetResult::Pending(_) => {}
        GetResult::Local(_) => panic!("never inserted"),
    }
    store.take_actions();
    store.tick(5000);
    let cancels: Vec<Vec<u8>> = store
        .take_actions()
        .into_iter()
        .filter_map(|a| match a {
            ipfs_embed::NetworkAction::Cancel(c) => Some(c.bytes().clone()),
            _ => None,
        })
        .collect();
    assert_eq!(cancels.len(), 2);
    assert_ne!(cancels[0], cancels[1]);
    assert!(cancels.contains(b1.cid().bytes()));
    assert!(cancels.contains(b2.cid().bytes()));
    // both callers observe the blocks as not found
    assert_eq!(store.take_completions().len(), 2);
}
