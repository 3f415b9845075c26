use algo_structures::buffer_slice::run;
use algo_structures::buffer_slice::should_change_indexes;
use algo_structures::buffer_slice::write_on_buff_slice;
use algo_structures::buffer_slice::LEN;
use algo_structures::buffer_struct::BufferStruct;

#[test]
fn test_write_on_buffer() {
    let mut buffer = [0i64; LEN];
    write_on_buff_slice(&mut buffer, 10, 0);
    assert_eq!(buffer[0], 10);
}

#[test]
fn test_200_elements() {
    let mut buffer = [0i64; LEN];
    let mut v: Vec<i64> = vec![];
    for l in 0..230 {
        v.push(l);
    }
    run(&mut buffer, v);
    println!("Buffer: {:?}", buffer);
}

#[test]
fn run_wraps_the_first_cursor() {
    let mut buffer = [0i64; LEN];
    let v: Vec<i64> = (0..230).collect();
    run(&mut buffer, v);
    for v in 180..230i64 {
        assert_eq!(buffer[(v % 50) as usize], v);
    }
}

#[test]
fn run_short_input() {
    let mut buffer = [-1i64; LEN];
    run(&mut buffer, vec![7, 8, 9]);
    assert_eq!(&buffer[0..4], &[7, 8, 9, -1]);
}

#[test]
fn should_change_indexes_values() {
    assert!(should_change_indexes(0, 1));
    assert!(!should_change_indexes(0, 2));
    assert!(should_change_indexes(49, 50));
    assert!(should_change_indexes(99, 50));
    assert!(!should_change_indexes(50, 0));
}

#[test]
fn test_buffer() {
    let mut my_buffer = BufferStruct::new(10);
    for l in 0..15 {
        my_buffer.push_element(l);
    }
    println!("{:?}", my_buffer.contents());
}

#[test]
fn buffer_overwrites_through_first_cursor() {
    let mut b = BufferStruct::new(10);
    for l in 0..15 {
        b.push_element(l);
    }
    assert_eq!(b.contents(), &vec![10, 11, 12, 13, 14, 5, 6, 7, 8, 9]);
}

#[test]
fn buffer_cursors_take_turns() {
    let mut b = BufferStruct::new(3);
    for l in 0..6 {
        b.push_element(l);
    }
    assert_eq!(b.contents(), &vec![3, 5, 4]);
}

#[test]
fn buffer_of_one_cell() {
    let mut b = BufferStruct::new(1);
    b.push_element(1);
    b.push_element(2);
    b.push_element(3);
    assert_eq!(b.contents(), &vec![3]);
}

#[test]
fn index_pointer_switches_on_meeting() {
    let mut b = BufferStruct::new(3);
    {
        let p = b.get_index_pointer();
        assert_eq!(*p, 0);
        *p = 1;
    }
    let p = b.get_index_pointer();
    assert_eq!(*p, 2);
}
