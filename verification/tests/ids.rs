use ipfs_embed::Error;
use ipfs_embed::Id;
use ipfs_embed::Ids;
use ipfs_embed::LiveSet;

#[test]
fn test_id_big_endian_bytes() {
    let id = Id::from_u64(0x0102030405060708);
    assert_eq!(id.to_bytes(), vec![1, 2, 3, 4, 5, 6, 7, 8]);
    assert_eq!(id.to_u64(), 0x0102030405060708);
    assert_eq!(Id::from_u64(7).to_bytes(), vec![0, 0, 0, 0, 0, 0, 0, 7]);
}

#[test]
fn test_ids_push_get_iter() {
    let mut ids = Ids::new();
    assert_eq!(ids.len(), 0);
    ids.push(Id::from_u64(3));
    ids.push(Id::from_u64(700));
    ids.push(Id::from_u64(u64::MAX));
    assert_eq!(ids.len(), 3);
    assert_eq!(ids.get(0).to_u64(), 3);
    assert_eq!(ids.get(1).to_u64(), 700);
    assert_eq!(ids.get(2).to_u64(), u64::MAX);
    assert!(ids.contains_id(700));
    assert!(!ids.contains_id(701));
    let mut iter = ids.iter();
    let mut seen = Vec::new();
    while let Some(id) = iter.next() {
        seen.push(id.to_u64());
    }
    assert_eq!(seen, vec![3, 700, u64::MAX]);
}

#[test]
fn test_ids_concat() {
    let mut a = Ids::new();
    a.push(Id::from_u64(1));
    a.push(Id::from_u64(2));
    let mut b = Ids::new();
    b.push(Id::from_u64(9));
    let c = Ids::new();
    let parts = vec![a, b, c];
    let whole = Ids::concat(&parts);
    assert_eq!(whole.len(), 3);
    assert_eq!(whole.get(0).to_u64(), 1);
    assert_eq!(whole.get(1).to_u64(), 2);
    assert_eq!(whole.get(2).to_u64(), 9);
}

#[test]
fn test_live_set_counts_distinct() {
    let mut live = LiveSet::new();
    assert_eq!(live.len(), 0);
    assert!(!live.contains(&Id::from_u64(5)));
    live.add(&Id::from_u64(5)).unwrap();
    live.add(&Id::from_u64(5)).unwrap();
    live.add(&Id::from_u64(6)).unwrap();
    assert_eq!(live.len(), 2);
    assert!(live.contains(&Id::from_u64(5)));
    assert!(live.contains(&Id::from_u64(6)));
    // one occurrence of 5 goes, one stays
    live.delete(&Id::from_u64(5));
    assert!(live.contains(&Id::from_u64(5)));
    assert_eq!(live.len(), 2);
    live.delete(&Id::from_u64(5));
    assert!(!live.contains(&Id::from_u64(5)));
    assert_eq!(live.len(), 1);
    // deleting a missing id changes nothing
    live.delete(&Id::from_u64(42));
    assert_eq!(live.len(), 1);
}

#[test]
fn test_live_set_saturates() {
    let mut live = LiveSet::with_capacity(1);
    let mut saturated = false;
    let mut v: u64 = 0;
    while v < 64 {
        if live.add(&Id::from_u64(v)) == Err(Error::FilterSaturated) {
            saturated = true;
            break;
        }
        v += 1;
    }
    assert!(saturated);
}
