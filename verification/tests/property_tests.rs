use accumulator::error::Error;
use accumulator::mmr::{get_pair_node, hash_pair, State};
use accumulator::store::Store;
use cid::Cid;
use fvm_ipld_encoding::to_vec;

#[test]
fn test_empty_root_is_null_commitment() {
    let mut store = Store::new();
    let state = State::new(&mut store).unwrap();
    let root = state.get_root(&store).expect("get_root failed");
    assert_eq!(root.as_bytes(), &Cid::default().to_bytes());
    assert_eq!(root.as_bytes().as_slice(), &[1u8, 0u8, 0u8, 0u8]);
}

#[test]
fn test_single_peak_root_is_promoted() {
    let mut store = Store::new();
    let mut state = State::new(&mut store).unwrap();
    state
        .push(&mut store, &to_vec(&vec![7, 8, 9]).unwrap())
        .unwrap();
    let root = state.get_root(&store).unwrap();
    let peaks = state.get_peaks(&store).unwrap();
    assert_eq!(peaks.len(), 1);
    assert_eq!(root.as_bytes(), peaks[0].as_bytes());
}

#[test]
fn test_out_of_range_index_is_absent() {
    let mut store = Store::new();
    let mut state = State::new(&mut store).unwrap();
    assert_eq!(state.get_leaf_at(&store, 0).unwrap(), None);
    for i in 0..5u64 {
        state.push(&mut store, &to_vec(&vec![i]).unwrap()).unwrap();
    }
    for i in 5..10u64 {
        assert_eq!(state.get_leaf_at(&store, i).unwrap(), None);
    }
    assert_eq!(state.get_leaf_at(&store, u64::MAX).unwrap(), None);
}

#[test]
fn test_cross_instance_determinism() {
    let mut store_a = Store::new();
    let mut state_a = State::new(&mut store_a).unwrap();
    let mut store_b = Store::new();
    let mut state_b = State::new(&mut store_b).unwrap();

    for i in 0..20u64 {
        let data = to_vec(&vec![i, i + 1]).unwrap();
        let res_a = state_a.push(&mut store_a, &data).unwrap();
        let res_b = state_b.push(&mut store_b, &data).unwrap();
        assert_eq!(res_a.root.as_bytes(), res_b.root.as_bytes());
        assert_eq!(res_a.index, res_b.index);
        assert_eq!(state_a.peaks.as_bytes(), state_b.peaks.as_bytes());

        let peaks_a = state_a.get_peaks(&store_a).unwrap();
        let peaks_b = state_b.get_peaks(&store_b).unwrap();
        assert_eq!(peaks_a.len(), peaks_b.len());
        for (pa, pb) in peaks_a.iter().zip(peaks_b.iter()) {
            assert_eq!(pa.as_bytes(), pb.as_bytes());
        }
    }
}

#[test]
fn test_peak_count_is_popcount() {
    let mut store = Store::new();
    let mut state = State::new(&mut store).unwrap();
    assert_eq!(state.peak_count(), 0);
    for i in 1..=32u64 {
        state.push(&mut store, &to_vec(&vec![i]).unwrap()).unwrap();
        assert_eq!(state.leaf_count(), i);
        assert_eq!(state.peak_count(), i.count_ones());
        let peaks = state.get_peaks(&store).unwrap();
        assert_eq!(peaks.len() as u32, i.count_ones());
    }
}

#[test]
fn test_hash_pair_requires_both_children() {
    let mut store = Store::new();
    let mut state = State::new(&mut store).unwrap();
    let c = state
        .push(&mut store, &to_vec(&vec![1]).unwrap())
        .unwrap()
        .root;
    assert!(matches!(hash_pair(None, Some(&c)), Err(Error::InvalidArgument)));
    assert!(matches!(hash_pair(Some(&c), None), Err(Error::InvalidArgument)));
    assert!(matches!(hash_pair(None, None), Err(Error::InvalidArgument)));
}

#[test]
fn test_leaf_block_is_not_a_pair_node() {
    let mut store = Store::new();
    let mut state = State::new(&mut store).unwrap();
    state.push(&mut store, &to_vec(&vec![1, 2, 3]).unwrap()).unwrap();
    // With a single leaf the only peak is the leaf block itself, which does
    // not have the shape of a pair node.
    let leaf = &state.get_peaks(&store).unwrap()[0];
    assert!(matches!(get_pair_node(&store, leaf), Err(Error::Corrupt)));
}

#[test]
fn test_unresolvable_handle_is_not_found() {
    let mut store = Store::new();
    let mut state = State::new(&mut store).unwrap();
    state.push(&mut store, &to_vec(&vec![4]).unwrap()).unwrap();
    // The handle only resolves in the store the peaks list was written to.
    // Root and peak queries surface the failure; the best-effort lookup
    // collapses it into an absent result.
    let other = Store::new();
    assert!(matches!(state.get_root(&other), Err(Error::NotFound)));
    assert!(matches!(state.get_peaks(&other), Err(Error::NotFound)));
    assert_eq!(state.get_leaf_at(&other, 0).unwrap(), None);
}

#[test]
fn test_roots_stable_after_reload() {
    let mut store = Store::new();
    let mut state = State::new(&mut store).unwrap();
    for i in 0..13u64 {
        let res = state.push(&mut store, &to_vec(&vec![i]).unwrap()).unwrap();
        // The root reported by push is the bag of the freshly republished
        // peaks list, so reloading and re-bagging must reproduce it.
        let reloaded = state.get_root(&store).unwrap();
        assert_eq!(res.root.as_bytes(), reloaded.as_bytes());
        assert_eq!(res.index, i);
    }
}
