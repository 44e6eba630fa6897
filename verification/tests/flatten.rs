use trace_flatten::trace::{flatten, get_flattened_trace, Address, CallFrame, FlatTrace, TraceOutcome};

fn addr(n: u64) -> Address {
    Address::new(0, 0, n)
}

#[test]
fn empty_tree() {
    let frame = CallFrame { to: None, input: vec![], calls: vec![] };
    let mut flattened = FlatTrace::new();
    flatten(&frame, &mut flattened);
    assert_eq!(flattened.len(), 0);
}

#[test]
fn simple_call() {
    let a = addr(1);
    let frame = CallFrame { to: Some(a), input: vec![0xde, 0xad], calls: vec![] };
    let mut flattened = FlatTrace::new();
    flatten(&frame, &mut flattened);
    assert_eq!(flattened.len(), 1);
    assert_eq!(flattened.get(&a), Some(&vec![0xde, 0xad]));
}

#[test]
fn creation_calls_ignored() {
    let a = addr(1);
    let child = CallFrame { to: Some(a), input: vec![7], calls: vec![] };
    let root = CallFrame { to: None, input: vec![1, 2, 3], calls: vec![child] };
    let mut flattened = FlatTrace::new();
    flatten(&root, &mut flattened);
    assert_eq!(flattened.len(), 1);
    assert_eq!(flattened.get(&a), Some(&vec![7]));
}

#[test]
fn last_write_wins() {
    let a = addr(1);
    let child = CallFrame { to: Some(a), input: vec![2], calls: vec![] };
    let root = CallFrame { to: Some(a), input: vec![1], calls: vec![child] };
    let mut flattened = FlatTrace::new();
    flatten(&root, &mut flattened);
    assert_eq!(flattened.len(), 1);
    assert_eq!(flattened.get(&a), Some(&vec![2]));
}

#[test]
fn last_sibling_wins() {
    let a = addr(1);
    let first = CallFrame { to: Some(a), input: vec![1], calls: vec![] };
    let second = CallFrame { to: Some(a), input: vec![2], calls: vec![] };
    let root = CallFrame { to: None, input: vec![], calls: vec![first, second] };
    let mut flattened = FlatTrace::new();
    flatten(&root, &mut flattened);
    assert_eq!(flattened.len(), 1);
    assert_eq!(flattened.get(&a), Some(&vec![2]));
}

#[test]
fn sibling_independence() {
    let a = addr(1);
    let b = addr(2);
    let left = CallFrame { to: Some(a), input: vec![10], calls: vec![] };
    let right = CallFrame { to: Some(b), input: vec![20], calls: vec![] };
    let root = CallFrame { to: None, input: vec![], calls: vec![left, right] };
    let mut flattened = FlatTrace::new();
    flatten(&root, &mut flattened);
    assert_eq!(flattened.len(), 2);
    assert_eq!(flattened.get(&a), Some(&vec![10]));
    assert_eq!(flattened.get(&b), Some(&vec![20]));
}

#[test]
fn deep_nesting() {
    let mut frame = CallFrame { to: Some(addr(49)), input: vec![49], calls: vec![] };
    for n in (0..49u64).rev() {
        frame = CallFrame { to: Some(addr(n)), input: vec![n as u8], calls: vec![frame] };
    }
    let mut flattened = FlatTrace::new();
    flatten(&frame, &mut flattened);
    assert_eq!(flattened.len(), 50);
    for n in 0..50u64 {
        assert_eq!(flattened.get(&addr(n)), Some(&vec![n as u8]));
    }
}

#[test]
fn absent_address_not_recorded() {
    let a = addr(1);
    let frame = CallFrame { to: Some(a), input: vec![1], calls: vec![] };
    let mut flattened = FlatTrace::new();
    flatten(&frame, &mut flattened);
    assert_eq!(flattened.get(&addr(2)), None);
}

#[test]
fn accumulator_keeps_earlier_entries() {
    let a = addr(1);
    let b = addr(2);
    let first = CallFrame { to: Some(a), input: vec![1], calls: vec![] };
    let second = CallFrame { to: Some(b), input: vec![2], calls: vec![] };
    let mut flattened = FlatTrace::new();
    flatten(&first, &mut flattened);
    flatten(&second, &mut flattened);
    assert_eq!(flattened.len(), 2);
    assert_eq!(flattened.get(&a), Some(&vec![1]));
    assert_eq!(flattened.get(&b), Some(&vec![2]));
}

#[test]
fn trace_failure_absorbed() {
    assert!(get_flattened_trace(TraceOutcome::Failed).is_none());
    assert!(get_flattened_trace(TraceOutcome::Unsupported).is_none());
}

#[test]
fn trace_call_tree_flattened() {
    let a = addr(1);
    let frame = CallFrame { to: Some(a), input: vec![5], calls: vec![] };
    let flattened = get_flattened_trace(TraceOutcome::CallTree(frame)).expect("a call-tree yields a mapping");
    assert_eq!(flattened.len(), 1);
    assert_eq!(flattened.get(&a), Some(&vec![5]));
}
