use algo_structures::queue::Queue;
use algo_structures::queue::QueueNode;

#[test]
fn create_queue() {
    let mut my_queue = Queue::<i32>::default();
    for item in 0..10 {
        my_queue.enqueue(item);
    }
    println!("{:?}", my_queue.is_empty());
}

#[test]
fn enqueue_and_dequeue() {
    let mut my_queue = Queue::<i32>::default();
    for item in 0..2 {
        my_queue.enqueue(item);
    }
    assert_eq!(Some(0), my_queue.dequeue());
    assert_eq!(Some(1), my_queue.dequeue());
    assert_eq!(None, my_queue.dequeue());
    for item in 0..2 {
        my_queue.enqueue(item);
    }
    assert_eq!(Some(0), my_queue.dequeue());
    assert_eq!(Some(1), my_queue.dequeue());
    assert_eq!(None, my_queue.dequeue());
}

#[test]
fn enqueue_two_dequeue_two_twice() {
    let mut q: Queue<i32> = Queue::new();
    q.enqueue(1);
    q.enqueue(2);
    assert_eq!(q.dequeue(), Some(1));
    assert_eq!(q.dequeue(), Some(2));
    assert_eq!(q.dequeue(), None);
    q.enqueue(1);
    q.enqueue(2);
    assert_eq!(q.dequeue(), Some(1));
    assert_eq!(q.dequeue(), Some(2));
    assert!(q.is_empty());
}

#[test]
fn dequeues_keep_enqueue_order() {
    let mut q: Queue<u32> = Queue::new();
    for v in 0..100u32 {
        q.enqueue(v * 3);
    }
    for v in 0..100u32 {
        assert_eq!(q.dequeue(), Some(v * 3));
    }
    assert_eq!(q.dequeue(), None);
    assert!(q.is_empty());
}

#[test]
fn has_one_element_scenario() {
    let mut q: Queue<i32> = Queue::new();
    assert!(!q.has_one_element());
    q.enqueue(10);
    assert!(q.has_one_element());
    q.enqueue(20);
    assert!(!q.has_one_element());
}

#[test]
fn has_one_element_after_dequeues() {
    let mut q: Queue<i32> = Queue::new();
    q.enqueue(1);
    q.enqueue(2);
    q.enqueue(3);
    assert_eq!(q.dequeue(), Some(1));
    assert!(!q.has_one_element());
    assert_eq!(q.dequeue(), Some(2));
    assert!(q.has_one_element());
    assert_eq!(q.dequeue(), Some(3));
    assert!(!q.has_one_element());
    assert!(q.is_empty());
}

#[test]
fn equal_items_are_distinct_nodes() {
    let mut q: Queue<i32> = Queue::new();
    q.enqueue(7);
    q.enqueue(7);
    assert!(!q.has_one_element());
    assert_eq!(q.dequeue(), Some(7));
    assert!(q.has_one_element());
}

#[test]
fn queue_interleaved_reuses_slots() {
    let mut q: Queue<i64> = Queue::new();
    let mut next_in: i64 = 0;
    let mut next_out: i64 = 0;
    for round in 0..50i64 {
        for _ in 0..(round % 4 + 1) {
            q.enqueue(next_in);
            next_in += 1;
            assert!(!q.is_empty());
        }
        for _ in 0..(round % 3 + 1) {
            let got = q.dequeue();
            if next_out < next_in {
                assert_eq!(got, Some(next_out));
                next_out += 1;
            } else {
                assert_eq!(got, None);
            }
            assert_eq!(q.is_empty(), next_out == next_in);
        }
    }
    while next_out < next_in {
        assert_eq!(q.dequeue(), Some(next_out));
        next_out += 1;
    }
    assert!(q.is_empty());
    assert_eq!(q.dequeue(), None);
}

#[test]
fn queue_node_new_keeps_fields() {
    let node = QueueNode::new('q', Some(4));
    assert_eq!(node.item, 'q');
    assert_eq!(node.next, Some(4));
}
