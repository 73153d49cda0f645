use seqlist::array::ArrayStack;
use seqlist::array::dual_array_deque::DualArrayDeque;
use seqlist::array::deque::ArrayDeque;
use seqlist::array::queue::ArrayQueue;
use seqlist::array::rootish_array_stack::RootishArrayStack;
use seqlist::IndexOutOfRange;

#[test]
fn array_test_index() {
    let mut arr: ArrayStack<i32> = ArrayStack::new(3);
    arr.add(0, 1).unwrap();
    arr.add(1, 2).unwrap();
    arr.add(2, 3).unwrap();

    assert_eq!(arr.get(1), Ok(2));
    arr.set(1, 3).unwrap();
    assert_eq!(arr.get(1), Ok(3));
}

#[test]
fn array_test_resize() {
    let mut arr: ArrayStack<usize> = ArrayStack::new(4);
    arr.add(0, 2).unwrap();
    assert_eq!(arr.get(0), Ok(2));
    arr.add(0, 3).unwrap();
    assert_eq!(arr.get(0), Ok(3));
    arr.add(1, 4).unwrap();
    assert_eq!(arr.get(1), Ok(4));
    let _ = arr.remove(1).unwrap();
    assert_eq!(arr.get(1), Ok(2));
    arr.add(1, 3).unwrap();
    assert_eq!(arr.get(1), Ok(3));
    assert_eq!(arr.get(2), Ok(2));
    arr.add(0, 1).unwrap();
}

#[test]
fn stack_test_index() {
    let mut arr: seqlist::array::stack::ArrayStack<i32> = seqlist::array::stack::ArrayStack::new(3);
    arr.add(0, 1).unwrap();
    arr.add(1, 2).unwrap();
    arr.add(2, 3).unwrap();

    assert_eq!(arr.get(1), Ok(2));
    arr.set(1, 3).unwrap();
    assert_eq!(arr.get(1), Ok(3));
}

#[test]
fn stack_test_resize() {
    let mut arr: seqlist::array::stack::ArrayStack<usize> =
        seqlist::array::stack::ArrayStack::new(4);
    arr.add(0, 2).unwrap();
    assert_eq!(arr.get(0), Ok(2));
    arr.add(0, 3).unwrap();
    assert_eq!(arr.get(0), Ok(3));
    arr.add(1, 4).unwrap();
    assert_eq!(arr.get(1), Ok(4));
    let _ = arr.remove(1).unwrap();
    assert_eq!(arr.get(1), Ok(2));
    arr.add(1, 3).unwrap();
    assert_eq!(arr.get(1), Ok(3));
    assert_eq!(arr.get(2), Ok(2));
    arr.add(0, 1).unwrap();
}

#[test]
fn deque_test_array_dequeue_1() {
    let mut dq: ArrayDeque<char> = ArrayDeque::new(1);
    dq.add(0, 'a').unwrap();
    dq.add(1, 'b').unwrap();
    dq.add(0, 'c').unwrap();
    let elem = dq.remove(0).unwrap();
    assert_eq!(elem, 'c');
    dq.add(2, 'd').unwrap();
    dq.add(3, 'e').unwrap();
    let elem = dq.remove(3).unwrap();
    assert_eq!(elem, 'e');
    let elem = dq.remove(1).unwrap();
    assert_eq!(elem, 'b');
}

#[test]
fn test_dualarraydeque() {
    let mut dad: DualArrayDeque<char> = DualArrayDeque::new();
    dad.add(0, 'a').unwrap();
    dad.add(1, 'b').unwrap();
    dad.add(2, 'c').unwrap();
    dad.add(3, 'd').unwrap();

    assert_eq!(dad.get(0), Ok('a'));
    assert_eq!(dad.get(1), Ok('b'));
    assert_eq!(dad.get(2), Ok('c'));
    assert_eq!(dad.get(3), Ok('d'));
    dad.add(3, 'x').unwrap();
    dad.add(4, 'y').unwrap();

    let elem = dad.remove(0).unwrap();
    assert_eq!(elem, 'a');
    assert_eq!(dad.get(0), Ok('b'));
    assert_eq!(dad.get(1), Ok('c'));
    assert_eq!(dad.get(2), Ok('x'));
    assert_eq!(dad.get(3), Ok('y'));
    assert_eq!(dad.get(4), Ok('d'));
}

#[test]
fn test_array_queue_1() {
    let mut q: ArrayQueue<char> = ArrayQueue::new(1);
    q.add('a');
    q.add('b');
    let elem = q.remove().unwrap();
    assert_eq!(elem, 'a');
    q.add('c');
    let elem = q.remove().unwrap();
    assert_eq!(elem, 'b');
}

#[test]
fn rootish_array_stack_test_1() {
    let mut ras: RootishArrayStack<char> = RootishArrayStack::new();
    ras.add(0, 'a').unwrap();
    ras.add(0, 'b').unwrap();
    ras.add(1, 'c').unwrap();
    ras.add(0, 'd').unwrap();
    let _ = ras.remove(0).unwrap();
}

#[test]
fn array_errors() {
    let mut arr: ArrayStack<u8> = ArrayStack::new(0);
    assert_eq!(arr.get(0), Err(IndexOutOfRange));
    assert_eq!(arr.remove(0), Err(IndexOutOfRange));
    assert_eq!(arr.set(0, 1), Err(IndexOutOfRange));
    assert_eq!(arr.add(1, 1), Err(IndexOutOfRange));

    let mut dq: ArrayDeque<u8> = ArrayDeque::new(0);
    assert_eq!(dq.remove(0), Err(IndexOutOfRange));
    assert_eq!(dq.add(1, 9), Err(IndexOutOfRange));

    let mut q: ArrayQueue<u8> = ArrayQueue::new(0);
    assert_eq!(q.remove(), Err(IndexOutOfRange));

    let mut dad: DualArrayDeque<u8> = DualArrayDeque::new();
    assert_eq!(dad.remove(0), Err(IndexOutOfRange));
    assert_eq!(dad.add(1, 9), Err(IndexOutOfRange));

    let mut ras: RootishArrayStack<u8> = RootishArrayStack::new();
    assert_eq!(ras.get(0), Err(IndexOutOfRange));
    assert_eq!(ras.set(0, 1), Err(IndexOutOfRange));
    assert_eq!(ras.remove(0), Err(IndexOutOfRange));
    assert_eq!(ras.add(1, 1), Err(IndexOutOfRange));
}

#[test]
fn rootish_many_elements() {
    let mut ras: RootishArrayStack<usize> = RootishArrayStack::new();
    for i in 0..40 {
        ras.add(i, i).unwrap();
    }
    assert_eq!(ras.size(), 40);
    for i in 0..40 {
        assert_eq!(ras.get(i), Ok(i));
    }
    for _ in 0..35 {
        let _ = ras.remove(0).unwrap();
    }
    assert_eq!(ras.size(), 5);
    for i in 0..5 {
        assert_eq!(ras.get(i), Ok(35 + i));
    }
}
