use std::str::FromStr;

use accumulator::mmr::{get_pair_node, hash_and_put_pair, hash_pair, State};
use accumulator::store::Store;
use cid::Cid;
use fvm_ipld_encoding::{from_slice, to_vec};

#[test]
fn test_constructor() {
    let mut store = Store::new();
    let state = State::new(&mut store);
    assert!(state.is_ok());
    let state = state.unwrap();
    let expected = Cid::from_str("bafy2bzacedijw74yui7otvo63nfl3hdq2vdzuy7wx2tnptwed6zml4vvz7wee")
        .unwrap();
    assert_eq!(state.peaks.as_bytes().as_slice(), expected.to_bytes().as_slice());
    assert_eq!(state.leaf_count(), 0);
}

#[test]
fn test_hash_and_put_pair() {
    let mut store = Store::new();
    let mut state = State::new(&mut store).unwrap();

    let obj1 = vec![1, 2, 3];
    let obj2 = vec![1, 2, 3];
    let cid1 = state
        .push(&mut store, &to_vec(&obj1).unwrap())
        .expect("push1 failed")
        .root;
    let cid2 = state
        .push(&mut store, &to_vec(&obj2).unwrap())
        .expect("push2 failed")
        .root;

    let pair_cid = hash_and_put_pair(&mut store, Some(&cid1), Some(&cid2))
        .expect("hash_and_put_pair failed");
    let merkle_node = get_pair_node(&store, &pair_cid).expect("reading the pair node failed");
    assert_eq!(merkle_node.0.as_bytes(), cid1.as_bytes());
    assert_eq!(merkle_node.1.as_bytes(), cid2.as_bytes());
}

#[test]
fn test_hash_pair() {
    let mut store = Store::new();
    let mut state = State::new(&mut store).unwrap();

    let obj1 = vec![1, 2, 3];
    let obj2 = vec![1, 2, 3];
    let cid1 = state
        .push(&mut store, &to_vec(&obj1).unwrap())
        .expect("push1 failed")
        .root;
    let cid2 = state
        .push(&mut store, &to_vec(&obj2).unwrap())
        .expect("push2 failed")
        .root;

    // Compare hash_pair and hash_and_put_pair and make sure they result in the same CID.
    let hash1 = hash_pair(Some(&cid1), Some(&cid2)).expect("hash_pair failed");
    let hash2 = hash_and_put_pair(&mut store, Some(&cid1), Some(&cid2))
        .expect("hash_and_put_pair failed");
    assert_eq!(hash1.as_bytes(), hash2.as_bytes());
}

#[test]
fn test_push_simple() {
    let mut store = Store::new();
    let mut state = State::new(&mut store).unwrap();
    let obj = vec![1, 2, 3];
    let res = state
        .push(&mut store, &to_vec(&obj).unwrap())
        .expect("push failed");
    assert_eq!(
        res.root.as_bytes(),
        state.get_root(&store).expect("get_root failed").as_bytes()
    );
    assert_eq!(res.index, 0);
    assert_eq!(state.leaf_count(), 1);
}

#[test]
fn test_get_peaks() {
    let mut store = Store::new();
    let mut state = State::new(&mut store).unwrap();
    let obj = vec![1, 2, 3];
    assert!(state.push(&mut store, &to_vec(&obj).unwrap()).is_ok());
    assert_eq!(state.leaf_count(), 1);
    let peaks = state.get_peaks(&store);
    assert!(peaks.is_ok());
    let peaks = peaks.unwrap();
    assert_eq!(peaks.len(), 1);
    let expected = Cid::from_str("bafy2bzacebltuz74cvzod3x7cx3eledj4gn5vjcer7znymoq56htf2e3cclok")
        .unwrap();
    assert_eq!(peaks[0].as_bytes().as_slice(), expected.to_bytes().as_slice());
}

#[test]
fn test_bag_peaks() {
    let mut store = Store::new();
    let mut state = State::new(&mut store).unwrap();
    let mut root = Cid::default().to_bytes();
    for i in 1..=11u64 {
        let res = state.push(&mut store, &to_vec(&vec![i]).unwrap()).unwrap();
        root = res.root.as_bytes().clone();
        assert_eq!(res.index, i - 1);
    }
    let peaks = state.get_peaks(&store).unwrap();
    assert_eq!(peaks.len(), 3);
    assert_eq!(state.leaf_count(), 11);
    assert_eq!(
        &root,
        state.get_root(&store).expect("get_root failed").as_bytes()
    );
}

#[test]
fn test_get_obj_basic() {
    let mut store = Store::new();
    let mut state = State::new(&mut store).unwrap();

    state.push(&mut store, &to_vec(&vec![0]).unwrap()).unwrap();
    assert_eq!(state.peak_count(), 1);
    assert_eq!(state.leaf_count(), 1);
    let item0: Vec<i32> =
        from_slice(&state.get_leaf_at(&store, 0u64).unwrap().unwrap()).unwrap();
    assert_eq!(item0, vec![0]);

    state.push(&mut store, &to_vec(&vec![1]).unwrap()).unwrap();
    assert_eq!(state.peak_count(), 1);
    assert_eq!(state.leaf_count(), 2);
    let item0: Vec<i32> =
        from_slice(&state.get_leaf_at(&store, 0u64).unwrap().unwrap()).unwrap();
    let item1: Vec<i32> =
        from_slice(&state.get_leaf_at(&store, 1u64).unwrap().unwrap()).unwrap();
    assert_eq!(item0, vec![0]);
    assert_eq!(item1, vec![1]);

    state.push(&mut store, &to_vec(&vec![2]).unwrap()).unwrap();
    assert_eq!(state.peak_count(), 2);
    assert_eq!(state.leaf_count(), 3);
    let item0: Vec<i32> =
        from_slice(&state.get_leaf_at(&store, 0u64).unwrap().unwrap()).unwrap();
    let item1: Vec<i32> =
        from_slice(&state.get_leaf_at(&store, 1u64).unwrap().unwrap()).unwrap();
    let item2: Vec<i32> =
        from_slice(&state.get_leaf_at(&store, 2u64).unwrap().unwrap()).unwrap();
    assert_eq!(item0, vec![0]);
    assert_eq!(item1, vec![1]);
    assert_eq!(item2, vec![2]);
}

#[test]
fn test_get_obj() {
    let mut store = Store::new();
    let mut state = State::new(&mut store).unwrap();
    for i in 0..31u64 {
        state.push(&mut store, &to_vec(&vec![i]).unwrap()).unwrap();
        assert_eq!(state.leaf_count(), i + 1);

        // As more items are added to the accumulator, ensure each item remains gettable at
        // each phase of the growth of the inner tree structures.
        for j in 0..i {
            let item: Vec<u64> =
                from_slice(&state.get_leaf_at(&store, j).unwrap().unwrap()).unwrap();
            assert_eq!(item, vec![j]);
        }
    }
    assert_eq!(state.peak_count(), 5);
}
