use seqlist::list::dllist::DLList;
use seqlist::list::selist::SEList;
use seqlist::list::selist::bdeque::BDeque;
use seqlist::list::slist::SLList;

#[test]
fn dllist_test_1() {
    let mut l: DLList<usize> = DLList::new();

    let slice = &[0, 1, 2, 3, 4];
    for &i in slice {
        l.push_back(i);
    }

    for i in 0..l.size() {
        assert_eq!(l.get(i), Some(i));
    }

    assert_eq!(l.size(), slice.len());

    l.add(111, 3).unwrap();
    assert_eq!(l.size(), slice.len() + 1);
    assert_eq!(l.get(3), Some(111));
    assert_eq!(l.get(4), Some(3));

    l.set(444, 4).unwrap();

    assert_eq!(l.get(4), Some(444));
    l.remove(1);
    assert_eq!(l.size(), slice.len());
    assert_eq!(l.get(1), Some(2));
}

#[test]
fn bdeque_test_array_dequeue_1() {
    let mut dq: BDeque<char> = BDeque::new(10);
    for c in "abcdef".chars() {
        dq.add(0, c);
    }

    for c in "abcdef".chars().rev() {
        let x = dq.remove(0);
        assert_eq!(x, c);
    }
}

#[test]
fn mod_test_1() {
    let mut l: SEList<i32> = SEList::new(4);
    for i in 0..10 {
        l.push_back(i);
    }

    let _ = l.set(1, 1000);

    for i in 0..=10 {
        let _ = l.get(i);
    }
    assert_eq!(l.get(1), Ok(1000));
}

#[test]
fn test_sllist_1() {
    let mut sllist: SLList<char> = SLList::new();
    sllist.push('a');
    sllist.push('b');
    sllist.add('c');
    assert_eq!(sllist.pop(), Some('b'));
    assert_eq!(sllist.pop(), Some('a'));
    assert_eq!(sllist.pop(), Some('c'));
}

#[test]
fn dllist_front_back() {
    let mut l: DLList<char> = DLList::new();
    l.push_back('b');
    l.push_front('a');
    l.push_back('c');
    assert_eq!(l.get(0), Some('a'));
    assert_eq!(l.get(1), Some('b'));
    assert_eq!(l.get(2), Some('c'));
    assert_eq!(l.get(3), None);
    assert_eq!(l.remove(5), None);
    assert_eq!(l.remove(0), Some('a'));
    assert_eq!(l.size(), 2);
}

#[test]
fn sllist_pop_empty() {
    let mut sllist: SLList<u8> = SLList::new();
    assert_eq!(sllist.pop(), None);
    sllist.add(7);
    assert_eq!(sllist.size(), 1);
    assert_eq!(sllist.pop(), Some(7));
    assert_eq!(sllist.pop(), None);
}

#[test]
fn bdeque_shifts_both_sides() {
    // inserting near the front shifts the front; near the back, the back
    let mut dq: BDeque<u32> = BDeque::new(7);
    for k in 0..6 {
        dq.push_back(k);
    }
    dq.add(1, 99);
    assert_eq!(dq.size(), 7);
    assert_eq!(dq.get(0), Ok(0));
    assert_eq!(dq.get(1), Ok(99));
    assert_eq!(dq.get(2), Ok(1));
    let x = dq.remove(5);
    assert_eq!(x, 4);
    assert_eq!(dq.get(5), Ok(5));
    let y = dq.remove(1);
    assert_eq!(y, 99);
    for (k, want) in [0u32, 1, 2, 3, 5].iter().enumerate() {
        assert_eq!(dq.get(k), Ok(*want));
    }
}
