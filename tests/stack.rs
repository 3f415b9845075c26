use algo_structures::stack::Stack;
use algo_structures::stack::StackNode;

#[test]
fn test_new_stack() {
    let stack: Stack<i32> = Stack::new();
    assert!(stack.is_empty());
}

#[test]
fn test_push() {
    let mut stack: Stack<i32> = Stack::new();
    stack.push(1);
    assert!(!stack.is_empty());
    assert_eq!(stack.peek(), Some(1));
}

#[test]
fn test_pop() {
    let mut stack: Stack<i32> = Stack::new();
    stack.push(1);
    stack.push(2);
    assert_eq!(stack.pop(), Some(2));
    assert_eq!(stack.pop(), Some(1));
    assert!(stack.is_empty());
}

#[test]
fn test_peek() {
    let mut stack: Stack<i32> = Stack::new();
    assert_eq!(stack.peek(), None);
    stack.push(1);
    assert_eq!(stack.peek(), Some(1));
    stack.push(2);
    assert_eq!(stack.peek(), Some(2));
    stack.pop();
    assert_eq!(stack.peek(), Some(1));
}

#[test]
fn test_is_empty() {
    let mut stack: Stack<i32> = Stack::new();
    assert!(stack.is_empty());
    stack.push(1);
    assert!(!stack.is_empty());
    stack.pop();
    assert!(stack.is_empty());
}

#[test]
fn push_three_pop_three_then_none() {
    let mut stack: Stack<i32> = Stack::new();
    stack.push(1);
    stack.push(2);
    stack.push(3);
    assert_eq!(stack.pop(), Some(3));
    assert_eq!(stack.pop(), Some(2));
    assert_eq!(stack.pop(), Some(1));
    assert_eq!(stack.pop(), None);
    assert!(stack.is_empty());
}

#[test]
fn pops_reverse_many_pushes() {
    let mut stack: Stack<u64> = Stack::new();
    for v in 0..100u64 {
        stack.push(v * 7);
    }
    for v in (0..100u64).rev() {
        assert_eq!(stack.pop(), Some(v * 7));
    }
    assert_eq!(stack.pop(), None);
}

#[test]
fn peek_repeatedly_then_pop() {
    let mut stack: Stack<i32> = Stack::new();
    stack.push(-4);
    stack.push(9);
    for _ in 0..5 {
        assert_eq!(stack.peek(), Some(9));
    }
    assert_eq!(stack.pop(), Some(9));
    assert_eq!(stack.peek(), Some(-4));
}

#[test]
fn stack_interleaved_empty_matches_values() {
    let mut stack: Stack<i32> = Stack::new();
    assert_eq!(stack.pop(), None);
    stack.push(5);
    assert!(!stack.is_empty());
    assert_eq!(stack.pop(), Some(5));
    assert!(stack.is_empty());
    assert_eq!(stack.pop(), None);
    stack.push(6);
    stack.push(7);
    assert_eq!(stack.pop(), Some(7));
    assert!(!stack.is_empty());
    assert_eq!(stack.peek(), Some(6));
    stack.push(8);
    assert_eq!(stack.pop(), Some(8));
    assert_eq!(stack.pop(), Some(6));
    assert!(stack.is_empty());
    assert_eq!(stack.peek(), None);
}

#[test]
fn stack_default_is_empty() {
    let stack: Stack<char> = Stack::default();
    assert!(stack.is_empty());
}

#[test]
fn stack_node_prints_its_item() {
    let below = StackNode::new(3i32, None);
    let node = StackNode::new(42i32, Some(Box::new(below)));
    assert_eq!(node.to_string(), "42");
    assert_eq!(node.previous.as_ref().map(|n| n.item), Some(3));
}
