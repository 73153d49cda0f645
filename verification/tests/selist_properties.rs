use seqlist::list::selist::SEList;
use seqlist::IndexOutOfRange;

#[test]
fn selist_boundary_empty() {
    // add(0, x) on an empty list succeeds; get/remove/set at 0 on an empty
    // list report the index error
    let mut l: SEList<char> = SEList::new(2);
    assert_eq!(l.get(0), Err(IndexOutOfRange));
    assert_eq!(l.remove(0), Err(IndexOutOfRange));
    assert_eq!(l.set(0, 'x'), Err(IndexOutOfRange));
    assert_eq!(l.size(), 0);

    l.add(0, 'x').unwrap();
    assert_eq!(l.size(), 1);
    assert_eq!(l.get(0), Ok('x'));
    assert_eq!(l.add(5, 'y'), Err(IndexOutOfRange));
}

#[test]
fn selist_scenario_b2() {
    // with b = 2: four appends then an insertion in the middle
    let mut l: SEList<char> = SEList::new(2);
    l.push_back('a');
    l.push_back('b');
    l.push_back('c');
    l.push_back('d');
    assert_eq!(l.size(), 4);
    assert_eq!(l.get(0), Ok('a'));
    assert_eq!(l.get(1), Ok('b'));
    assert_eq!(l.get(2), Ok('c'));
    assert_eq!(l.get(3), Ok('d'));

    l.add(2, 'x').unwrap();
    assert_eq!(l.get(2), Ok('x'));
    assert_eq!(l.get(3), Ok('c'));
    assert_eq!(l.get(4), Ok('d'));
    assert_eq!(l.size(), 5);
}

#[test]
fn selist_round_trip() {
    // add(i, x) immediately followed by remove(i) restores the sequence
    for b in 1..5 {
        let mut l: SEList<u32> = SEList::new(b);
        for k in 0..12 {
            l.push_back(k);
        }
        for i in 0..=12 {
            l.add(i, 777).unwrap();
            assert_eq!(l.size(), 13);
            let back = l.remove(i).unwrap();
            assert_eq!(back, 777);
            assert_eq!(l.size(), 12);
            for k in 0..12 {
                assert_eq!(l.get(k as usize), Ok(k as u32));
            }
        }
    }
}

#[test]
fn selist_spread_fills_blocks() {
    // repeated front insertion forces the overflow path on every block size
    for b in 1..6 {
        let mut l: SEList<usize> = SEList::new(b);
        for k in 0..50 {
            l.add(0, k).unwrap();
        }
        assert_eq!(l.size(), 50);
        for k in 0..50 {
            assert_eq!(l.get(k), Ok(49 - k));
        }
    }
}

#[test]
fn selist_gather_drains_blocks() {
    // removing from the front forces the underflow path and node removal
    for b in 1..6 {
        let mut l: SEList<usize> = SEList::new(b);
        for k in 0..50 {
            l.push_back(k);
        }
        for k in 0..50 {
            let x = l.remove(0).unwrap();
            assert_eq!(x, k);
            assert_eq!(l.size(), 49 - k);
        }
        assert_eq!(l.get(0), Err(IndexOutOfRange));
    }
}

/// A tiny deterministic generator, so the stress run is reproducible.
fn next_rand(state: &mut u64) -> u64 {
    *state = state.wrapping_mul(6364136223846793005).wrapping_add(1442695040888963407);
    *state >> 33
}

#[test]
fn selist_matches_reference_array() {
    // random adds and removes at random valid indices against a plain
    // vector model: size tracks the net count and every position agrees
    let mut l: SEList<u64> = SEList::new(3);
    let mut model: Vec<u64> = Vec::new();
    let mut state: u64 = 0x5eed;
    let mut adds: usize = 0;
    let mut removes: usize = 0;
    for step in 0..2000u64 {
        let r = next_rand(&mut state);
        if model.is_empty() || r % 3 != 0 {
            let i = (next_rand(&mut state) as usize) % (model.len() + 1);
            l.add(i, step).unwrap();
            model.insert(i, step);
            adds += 1;
        } else {
            let i = (next_rand(&mut state) as usize) % model.len();
            let got = l.remove(i).unwrap();
            let want = model.remove(i);
            assert_eq!(got, want);
            removes += 1;
        }
        assert_eq!(l.size(), model.len());
    }
    assert_eq!(l.size(), adds - removes);
    for (i, v) in model.iter().enumerate() {
        assert_eq!(l.get(i), Ok(*v));
    }
}
