use gc_simulator::heap::{Heap, HeapError};
use gc_simulator::mem::Status;
use gc_simulator::object::{Field, Object, ObjectTrait, TypeValue};

#[test]
fn test_create_new_heap() {
    let heap = Heap::new(100, 0);
    assert_eq!(heap.memory.len(), 100);
    assert_eq!(heap.calculate_free_memory(), 100);
    assert_eq!(heap.objects.is_empty(), true);
}

#[test]
fn test_next_object_address() {
    let mut heap = Heap::new(100, 0);

    let obj1 = Object::create_random_object(Some("o1"));
    let obj2 = Object::create_random_object(Some("o2"));
    let obj3 = Object::create_random_object(Some("o3"));

    heap.objects.insert(obj1.get_address(), obj1.to_owned());
    heap.objects.insert(obj2.get_address(), obj2.to_owned());
    heap.objects.insert(obj3.get_address(), obj3.to_owned());

    assert_eq!(heap.next_object(obj1.get_address() - 1), Some(&obj1));
    assert_eq!(heap.next_object(obj1.get_address()), Some(&obj2));
    assert_eq!(heap.next_object(obj2.get_address()), Some(&obj3));

    assert_eq!(heap.next_object(obj3.get_address()), None);
    assert_eq!(heap.next_object(obj3.get_address() + 10), None);
}

#[test]
fn test_last_object_addr() {
    let mut h = Heap::new(100, 0);

    assert_eq!(h.last_object(), None);

    let obj1 = Object::create_random_object(Some("o1"));
    h.objects.insert(obj1.get_address(), obj1.to_owned());
    assert_eq!(h.last_object(), Some(&obj1));

    let obj2 = Object::create_random_object(Some("o2"));
    h.objects.insert(obj2.get_address(), obj2.to_owned());
    assert_eq!(h.last_object(), Some(&obj2));
}

#[test]
fn test_next_prev_object_address() {
    let mut h = Heap::new(100, 0);

    let o1 = Object::create_random_object(Some("o1"));
    let o2 = Object::create_random_object(Some("o2"));
    let o3 = Object::create_random_object(Some("o3"));

    h.objects.insert(o1.get_address(), o1.to_owned());
    h.objects.insert(o2.get_address(), o2.to_owned());
    h.objects.insert(o3.get_address(), o3.to_owned());

    assert_eq!(h.next_object(o1.get_address()), Some(&o2));
    assert_eq!(h.next_object(o2.get_address()), Some(&o3));
    assert_eq!(h.next_object(o3.get_address()), None);

    assert_eq!(h.prev_object(o1.get_address() - 100), None);
    assert_eq!(h.next_object(o3.get_address() + 100), None);
}

#[test]
fn test_calculate_free_memory() {
    let heap = Heap::new(100, 4);
    assert_eq!(heap.calculate_free_memory(), 100);
}

#[test]
fn test_merge_free_ranges() {
    let mut heap = Heap::new(100, 4);
    heap.merge_free_ranges().unwrap();
    assert_eq!(heap.calculate_free_memory(), 100);
}

#[test]
fn test_align_position() {
    let h = Heap::new(100, 4);

    assert_eq!(h.aligned_position(0), 0);
    assert_eq!(h.aligned_position(1), 4);
    assert_eq!(h.aligned_position(2), 4);
    assert_eq!(h.aligned_position(3), 4);
    assert_eq!(h.aligned_position(4), 4);
    assert_eq!(h.aligned_position(5), 8);

    let h = Heap::new(100, 8);

    assert_eq!(h.aligned_position(0), 0);
    assert_eq!(h.aligned_position(5), 8);
    assert_eq!(h.aligned_position(8), 8);
    assert_eq!(h.aligned_position(9), 16);
}

#[test]
fn test_no_align() {
    let h = Heap::new(100, 0);

    for i in 0..10 {
        assert_eq!(h.aligned_position(i), i);
    }
}

#[test]
fn prev_object_finds_the_closest_lower_address() {
    let mut h = Heap::new(100, 0);
    let o1 = Object::create_random_object(Some("o1"));
    let o2 = Object::create_random_object(Some("o2"));
    h.objects.insert(o1.get_address(), o1.to_owned());
    h.objects.insert(o2.get_address(), o2.to_owned());

    assert_eq!(h.prev_object(o2.get_address()), Some(&o1));
    assert_eq!(h.prev_object(o2.get_address() + 1), Some(&o2));
    assert_eq!(h.prev_object(o1.get_address()), None);
}

#[test]
fn addresses_are_increasing() {
    let a = Object::new(String::from("a"), TypeValue::Int(1));
    let b = Object::new(String::from("b"), TypeValue::Int(2));
    assert!(a.get_address() < b.get_address());
}

#[test]
fn allocate_object_takes_aligned_first_fit() {
    let mut heap = Heap::new(64, 8);
    let a = heap.allocate_object(5).unwrap();
    assert_eq!(a, 0);
    assert_eq!(heap.objects[&a].header.size, 8);
    assert_eq!(heap.free_list.to_vec(), vec![(8, 56)]);
    let b = heap.allocate_object(3).unwrap();
    assert_eq!(b, 8);
    assert_eq!(b % 8, 0);
    assert_eq!(heap.memory[15].status, Status::Allocated);
    assert_eq!(heap.memory[16].status, Status::Free);
}

#[test]
fn allocate_object_out_of_memory_leaves_free_list() {
    let mut heap = Heap::new(2, 0);
    assert_eq!(heap.allocate_object(3), Err(HeapError::OutOfMemory));
    assert_eq!(heap.free_list.to_vec(), vec![(0, 2)]);
}

#[test]
fn free_memory_plus_live_sizes_is_heap_size() {
    let mut heap = Heap::new(100, 4);
    heap.allocate_object(10).unwrap();
    heap.allocate_object(7).unwrap();
    heap.allocate_object(1).unwrap();
    let live: usize = heap.objects.values().map(|o| o.size()).sum();
    assert_eq!(heap.calculate_free_memory() + live, 100);
}

#[test]
fn find_free_block_reports_aligned_start() {
    let mut heap = Heap::new(20, 4);
    heap.allocate_object(2).unwrap();
    assert_eq!(heap.find_free_block(4), Ok(4));
    assert_eq!(heap.find_free_block(17), Err(HeapError::OutOfMemory));
}

#[test]
fn free_object_returns_span_and_drops_object() {
    let mut heap = Heap::new(32, 0);
    let a = heap.allocate_object(8).unwrap();
    let b = heap.allocate_object(8).unwrap();
    heap.roots.insert(a);
    let obj = heap.objects[&a].clone();
    assert_eq!(heap.free_object(obj), Ok(()));
    assert!(!heap.objects.contains_key(&a));
    assert!(!heap.roots.contains(&a));
    assert_eq!(heap.free_list.to_vec(), vec![(0, 8), (16, 16)]);
    let gone = heap.objects[&b].clone();
    heap.free_object(gone).unwrap();
    assert_eq!(heap.free_list.to_vec(), vec![(0, 32)]);
}

#[test]
fn free_object_not_live_fails() {
    let mut heap = Heap::new(32, 0);
    let obj = Object::new(String::from("x"), TypeValue::Int(1));
    assert_eq!(heap.free_object(obj), Err(HeapError::FailedToFreed));
}

#[test]
fn lookup_reads_reference_fields() {
    let mut heap = Heap::new(64, 0);
    let a = heap.allocate_object(4).unwrap();
    {
        let o = heap.objects.get_mut(&a).unwrap();
        o.fields.push(Field::new_ref(40));
        o.fields.push(Field::new_instance(TypeValue::Int(3)));
        o.fields.push(Field::Ref(gc_simulator::object::Address::NullPtr));
    }
    assert_eq!(heap.lookup(a), Ok(40));
    assert_eq!(heap.lookup(a + 1), Err(HeapError::SegmentFault));
    assert_eq!(heap.lookup(a + 2), Err(HeapError::SegmentFault));
    assert_eq!(heap.lookup(a + 3), Err(HeapError::SegmentFault));
    assert_eq!(heap.lookup(60), Err(HeapError::ObjectNotFound));
}

#[test]
fn move_object_relocates_record() {
    let mut heap = Heap::new(64, 0);
    let a = heap.allocate_object(4).unwrap();
    heap.roots.insert(a);
    let record = heap.objects[&a].clone();
    assert_eq!(heap.move_object(a, 32), Ok(()));
    assert!(!heap.objects.contains_key(&a));
    assert_eq!(heap.objects[&32], record);
    assert!(heap.roots.contains(&32));
    assert!(!heap.roots.contains(&a));
    assert_eq!(heap.free_list.to_vec(), vec![(0, 64)]);
}

#[test]
fn move_object_errors() {
    let mut heap = Heap::new(64, 0);
    let a = heap.allocate_object(4).unwrap();
    let b = heap.allocate_object(4).unwrap();
    assert_eq!(heap.move_object(50, 10), Err(HeapError::SegmentFault));
    assert_eq!(heap.move_object(a, b + 2), Err(HeapError::CannotMoveObject));
    assert_eq!(heap.move_object(a, usize::MAX - 1), Err(HeapError::CannotMoveObject));
    assert!(heap.objects.contains_key(&a));
}

#[test]
fn refresh_rebuilds_cells_and_is_idempotent() {
    let mut heap = Heap::new(16, 0);
    let a = heap.allocate_object(4).unwrap();
    heap.memory[10].status = Status::Allocated;
    heap.refresh().unwrap();
    let first: Vec<Status> = heap.memory.iter().map(|m| m.status).collect();
    heap.refresh().unwrap();
    let second: Vec<Status> = heap.memory.iter().map(|m| m.status).collect();
    assert_eq!(first, second);
    assert_eq!(first[a], Status::Allocated);
    assert_eq!(first[3], Status::Allocated);
    assert_eq!(first[4], Status::Free);
    assert_eq!(first[10], Status::Free);
}

#[test]
fn refresh_fails_when_object_runs_past_cells() {
    let mut heap = Heap::new(8, 0);
    heap.objects.insert(6, Object::new(String::from("x"), TypeValue::Int(1)));
    heap.memory[0].status = Status::Used;
    assert_eq!(heap.refresh(), Err(HeapError::FailedToAllocated));
    assert_eq!(heap.memory[0].status, Status::Used);
}

#[test]
fn well_formedness_is_checked() {
    let mut heap = Heap::new(32, 0);
    assert!(heap.is_well_formed());
    heap.allocate_object(4).unwrap();
    assert!(heap.is_well_formed());
    heap.free_list.inner = vec![(0, 4), (4, 4)];
    assert!(!heap.is_well_formed());
    heap.free_list.inner = vec![(8, 4), (0, 2)];
    assert!(!heap.is_well_formed());
    heap.free_list.inner = vec![(usize::MAX, 1)];
    assert!(!heap.is_well_formed());
}

#[test]
fn conservation_holds_after_alloc_and_free() {
    let mut heap = Heap::new(64, 4);
    let a = heap.allocate_object(5).unwrap();
    let _b = heap.allocate_object(9).unwrap();
    let c = heap.allocate_object(3).unwrap();
    let total = |h: &Heap| h.calculate_free_memory() + h.objects.values().map(|o| o.size()).sum::<usize>();
    assert_eq!(total(&heap), 64);
    let oa = heap.objects[&a].clone();
    heap.free_object(oa).unwrap();
    assert_eq!(total(&heap), 64);
    let oc = heap.objects[&c].clone();
    heap.free_object(oc).unwrap();
    assert_eq!(total(&heap), 64);
}

