use gc_simulator::allocator::{create_free_list_heap, Allocator, AllocatorError};
use gc_simulator::heap::Heap;
use gc_simulator::mem::Status;
use gc_simulator::object::{Object, ObjectTrait, TypeValue};

#[test]
fn test_find_free_block_when_space_is_sufficient() {
    let mut heap = create_free_list_heap(2, vec![(0, 4)]);
    let mut alloc = Allocator {};

    let result = alloc.find_free_block(&mut heap, 3);
    assert_eq!(result, Some(0));
    assert_eq!(heap.free_list.to_vec(), vec![(3, 1)]);
}

#[test]
fn test_suitable_free_block_is_first_block() {
    let mut heap = create_free_list_heap(2, vec![(2, 2), (8, 2)]);
    let mut alloc = Allocator {};

    let result = alloc.find_free_block(&mut heap, 2);

    assert_eq!(result, Some(2));
    assert_eq!(heap.free_list.to_vec(), vec![(8, 2)]);
}

#[test]
fn test_find_free_block_when_space_is_limited() {
    let mut heap = create_free_list_heap(2, vec![(0, 2)]);
    let mut alloc = Allocator {};

    let result = alloc.find_free_block(&mut heap, 3);
    assert_eq!(result, None);
    assert_eq!(heap.free_list.to_vec(), vec![(0, 2)]);
}

// The object is placed at the aligned position (2), not at the start of the
// block it was carved from; the run before the aligned start stays free.
#[test]
fn test_find_free_block_with_given_alignment() {
    let mut heap = create_free_list_heap(2, vec![(1, 4)]);
    let mut alloc = Allocator {};

    let result = alloc.find_free_block(&mut heap, 3);
    assert_eq!(result, Some(2));
    assert_eq!(heap.free_list.to_vec(), vec![(1, 1)]);
}

#[test]
fn split_block_keeps_both_gaps() {
    let mut heap = create_free_list_heap(4, vec![(1, 9)]);
    let mut alloc = Allocator::new();

    alloc.split_block(&mut heap, 1, 9, 4, 6);
    assert_eq!(heap.free_list.to_vec(), vec![(1, 3), (6, 4)]);
}

#[test]
fn allocate_registers_object_at_aligned_start() {

    let mut heap = Heap::new(400, 8);
    let mut alloc = Allocator::new();
    let obj = Object::new(String::from("a"), TypeValue::Int(1));
    let copy = obj.clone();

    let addr = alloc.allocate(&mut heap, obj, true).unwrap();
    assert_eq!(addr, 0);
    assert_eq!(heap.objects.get(&0), Some(&copy));
    assert!(heap.roots.contains(&0));
    assert_eq!(heap.free_list.to_vec(), vec![(144, 256)]);
    assert_eq!(heap.memory[143].status, Status::Allocated);
    assert_eq!(heap.memory[144].status, Status::Free);
}

#[test]
fn allocate_fails_when_nothing_fits() {

    let mut heap = Heap::new(100, 0);
    let mut alloc = Allocator::new();
    let obj = Object::new(String::from("a"), TypeValue::Int(1));

    assert_eq!(alloc.allocate(&mut heap, obj, false), Err(AllocatorError::FailedToAllocated));
    assert_eq!(heap.free_list.to_vec(), vec![(0, 100)]);
    assert!(heap.objects.is_empty());
}
