use rpn_calc::{CustomStack, MAX_STACK_SIZE};

#[test]
fn pops_in_reverse_push_order() {
    let mut s: CustomStack<u32> = CustomStack::new();
    for v in [1, 2, 3, 4, 5] {
        assert_eq!(s.push(v), Ok(()));
    }
    let mut out = Vec::new();
    while let Some(v) = s.pop() {
        out.push(v);
    }
    assert_eq!(out, vec![5, 4, 3, 2, 1]);
    assert!(s.is_empty());
    assert_eq!(s.pop(), None);
}

#[test]
fn push_past_capacity_fails_and_returns_value() {
    let mut s: CustomStack<usize> = CustomStack::new();
    for i in 0..MAX_STACK_SIZE {
        assert_eq!(s.push(i), Ok(()));
    }
    assert_eq!(s.len(), MAX_STACK_SIZE);
    assert_eq!(s.push(999), Err(999));
    assert_eq!(s.len(), MAX_STACK_SIZE);
    assert_eq!(s.peek(), Some(&(MAX_STACK_SIZE - 1)));
}

#[test]
fn multipop_topmost_first() {
    let mut s: CustomStack<u8> = CustomStack::new();
    assert_eq!(s.multipop(3), None);
    s.push_slice(&[1, 2, 3, 4, 5, 6]).unwrap();
    assert_eq!(s.multipop(3), Some(vec![6, 5, 4]));
    assert_eq!(s.peek_all(), &[1, 2, 3]);
    assert_eq!(s.multipop(10), Some(vec![3, 2, 1]));
    assert!(s.is_empty());
}

#[test]
fn peeks_leave_stack_alone() {
    let mut s: CustomStack<u8> = CustomStack::new();
    assert_eq!(s.peek(), None);
    assert_eq!(s.multipeek(2), None);
    s.push_slice(&[1, 2, 3]).unwrap();
    assert_eq!(s.peek(), Some(&3));
    assert_eq!(s.multipeek(2), Some(&[2u8, 3][..]));
    assert_eq!(s.multipeek(9), Some(&[1u8, 2, 3][..]));
    assert_eq!(s.len(), 3);
}

#[test]
fn bulk_pushes_are_all_or_nothing() {
    let mut s: CustomStack<u16> = CustomStack::new();
    let big: Vec<u16> = (0..MAX_STACK_SIZE as u16).collect();
    assert_eq!(s.push_slice(&big[..250]), Ok(()));
    assert_eq!(s.push_slice(&[1, 2, 3, 4, 5, 6, 7]), Err(()));
    assert_eq!(s.len(), 250);
    assert_eq!(s.push_exact_iterator(vec![1, 2, 3, 4, 5, 6, 7]), Err(()));
    assert_eq!(s.push_iterator(vec![1, 2, 3, 4, 5, 6, 7], true), Err(()));
    assert_eq!(s.push_iterator(vec![1, 2, 3, 4, 5, 6, 7], false), Err(()));
    assert_eq!(s.len(), 250);
    assert_eq!(s.push_exact_iterator(vec![7, 8]), Ok(()));
    assert_eq!(s.push_iterator(vec![9], false), Ok(()));
    assert_eq!(s.multipeek(3), Some(&[7u16, 8, 9][..]));
    s.clear();
    assert!(s.is_empty());
}
