use gc_simulator::allocator::Allocator;
use gc_simulator::gc::{GCStatus, GarbageCollector, TriColor};
use gc_simulator::heap::{Heap, HeapError};
use gc_simulator::object::{Field, Object, ObjectTrait, TypeValue};
use gc_simulator::vm::{Fraction, VirtualMachine};

fn vm_setup() -> VirtualMachine {
    VirtualMachine::new(150, Fraction::new(1, 2), 100, 8).unwrap()
}

fn gc_setup() -> GarbageCollector {
    GarbageCollector::default()
}

#[test]
fn test_initialization_of_objects() {
    let mut vm = vm_setup();
    let mut gc = gc_setup();

    for i in 0..10 {
        let obj = Object::create_random_object(Some(&format!("obj{}", i)));
        vm.heap.objects.insert(i, obj);
    }

    assert_eq!(
        vm.heap
            .objects
            .values()
            .all(|o| o.header.marked == TriColor::White),
        true
    );

    gc.initialize_colors(&mut vm);

    assert!(vm
        .heap
        .objects
        .values()
        .all(|o| o.header.marked == TriColor::White));
}

#[test]
fn test_initialize_colors() {
    let mut vm = vm_setup();
    let mut gc = gc_setup();

    let obj1 = Object::create_random_object(Some("obj1"));
    let obj2 = Object::create_random_object(Some("obj2"));

    vm.heap.objects.insert(1, obj1);
    vm.heap.objects.insert(2, obj2);

    gc.initialize_colors(&mut vm);

    for obj in vm.heap.objects.values() {
        assert_eq!(obj.header.marked, TriColor::White);
    }
}

#[test]
fn test_update_color() {
    let mut vm = vm_setup();
    let gc = gc_setup();

    let obj = Object::create_random_object(Some("obj"));
    vm.heap.objects.insert(1, obj);

    gc.update_color(1, TriColor::Gray, &mut vm);

    if let Some(obj) = vm.heap.objects.get(&1) {
        assert_eq!(obj.header.marked, TriColor::Gray);
    } else {
        panic!("Object not found");
    }
}

#[test]
fn test_mark_roots() {
    let mut heap = Heap::new(100, 0);
    let mut gc = gc_setup();

    // add some root addresses
    heap.roots.insert(1);
    heap.roots.insert(2);

    // add objects to the heap
    let obj1 = Object::create_random_object(Some("obj1"));
    let obj2 = Object::create_random_object(Some("obj2"));
    heap.objects.insert(1, obj1);
    heap.objects.insert(2, obj2);

    // mark roots
    gc.mark_roots(&mut heap);

    // check that roots are marked as gray color
    for addr in heap.roots.iter() {
        if let Some(obj) = heap.objects.get(addr) {
            assert_eq!(obj.header.marked, TriColor::Gray);
        } else {
            panic!("Object not found");
        }
    }
}

// `obj1` refers to `obj2`, which does not live in the heap: tracing meets a
// dangling reference and aborts the phase (`None`), after `obj1` was
// scanned.
#[test]
fn test_mark_phase() {
    let mut heap = Heap::new(100, 0);
    let gc = gc_setup();

    let mut obj1 = Object::create_random_object(Some("obj1"));
    let obj2 = Object::create_random_object(Some("obj2"));

    obj1.add_reference(obj2.clone());

    heap.roots.insert(1);
    heap.objects.insert(1, obj1);

    let result = gc.mark_phase(&mut heap);

    for obj in heap.objects.values() {
        assert_eq!(obj.header.marked, TriColor::Black);
    }

    assert!(result.is_none());
}

#[test]
fn test_start_gc() {
    let mut heap = Heap::new(100, 0);
    let mut gc = GarbageCollector::default();

    let result = gc.start_gc(&mut heap);

    assert!(result.is_some());
}

fn named(name: &str, v: i32) -> Object {
    Object::new(String::from(name), TypeValue::Int(v))
}

/// B, then A (referring to B, a root), then C; returns (heap, a, b, c).
fn three_objects() -> (Heap, usize, usize, usize) {
    let mut heap = Heap::new(1000, 0);
    let mut alloc = Allocator::new();
    let b = alloc.allocate(&mut heap, named("B", 2), false).unwrap();
    let mut a_obj = named("A", 1);
    a_obj.fields.push(Field::new_ref(b));
    let a = alloc.allocate(&mut heap, a_obj, true).unwrap();
    let c = alloc.allocate(&mut heap, named("C", 3), false).unwrap();
    (heap, a, b, c)
}

#[test]
fn mark_reaches_via_one_hop() {
    let (mut heap, a, b, c) = three_objects();
    let gc = gc_setup();

    assert!(gc.mark_phase(&mut heap).is_some());
    assert_eq!(heap.objects[&a].header.marked, TriColor::Black);
    assert_eq!(heap.objects[&b].header.marked, TriColor::Black);
    assert_eq!(heap.objects[&c].header.marked, TriColor::White);
}

#[test]
fn start_gc_runs_a_full_cycle() {
    let (mut heap, a, b, c) = three_objects();
    let mut gc = gc_setup();

    assert_eq!(gc.start_gc(&mut heap), Some(true));
    let live: Vec<usize> = heap.objects.keys().cloned().collect();
    assert_eq!(live, vec![b, a]);
    assert!(!heap.objects.contains_key(&c));
    assert_eq!(heap.free_list.to_vec(), vec![(296, 704)]);
    assert!(heap.objects.values().all(|o| o.header.marked == TriColor::White));
    assert_eq!(gc.gc_status, GCStatus::Idle);
}

#[test]
fn start_gc_aborts_on_dangling_reference() {
    let (mut heap, a, _b, _c) = three_objects();
    heap.objects.get_mut(&a).unwrap().references.insert(9999);
    let mut gc = gc_setup();

    assert_eq!(gc.start_gc(&mut heap), None);
    assert_eq!(heap.objects.len(), 3);
    assert!(heap.objects.values().all(|o| o.header.marked == TriColor::White));
}

#[test]
fn sweep_reclaims_unreachable() {
    let (mut heap, a, b, c) = three_objects();
    assert_eq!((b, a, c), (0, 144, 296));
    assert_eq!(heap.free_list.to_vec(), vec![(440, 560)]);
    let mut gc = gc_setup();

    assert_eq!(gc.collect(&mut heap), Ok(()));
    let live: Vec<usize> = heap.objects.keys().cloned().collect();
    assert_eq!(live, vec![b, a]);
    assert_eq!(heap.free_list.to_vec(), vec![(296, 704)]);
    assert!(heap.objects.values().all(|o| o.header.marked == TriColor::White));
    assert_eq!(gc.gc_status, GCStatus::Idle);
}

#[test]
fn collect_keeps_cycles_reachable_and_drops_unrooted_ones() {
    let mut heap = Heap::new(1000, 0);
    let mut alloc = Allocator::new();
    let x = alloc.allocate(&mut heap, named("X", 1), true).unwrap();
    let y = alloc.allocate(&mut heap, named("Y", 2), false).unwrap();
    let z = alloc.allocate(&mut heap, named("Z", 3), false).unwrap();
    let w = alloc.allocate(&mut heap, named("W", 4), false).unwrap();
    // X -> Y -> X (cycle from a root); Z <-> W (cycle, unrooted)
    heap.objects.get_mut(&x).unwrap().references.insert(y);
    heap.objects.get_mut(&y).unwrap().references.insert(x);
    heap.objects.get_mut(&z).unwrap().references.insert(w);
    heap.objects.get_mut(&w).unwrap().references.insert(z);

    let mut gc = gc_setup();
    assert_eq!(gc.collect(&mut heap), Ok(()));
    let live: Vec<usize> = heap.objects.keys().cloned().collect();
    assert_eq!(live, vec![x, y]);
    assert_eq!(heap.calculate_free_memory() + 2 * 144, 1000);
}

#[test]
fn collect_aborts_on_dangling_reference() {
    let (mut heap, a, _b, _c) = three_objects();
    heap.objects.get_mut(&a).unwrap().references.insert(9999);
    let before = heap.free_list.to_vec();
    let mut gc = gc_setup();

    assert_eq!(gc.collect(&mut heap), Err(HeapError::ObjectNotFound));
    assert_eq!(heap.objects.len(), 3);
    assert_eq!(heap.free_list.to_vec(), before);
    assert!(heap.objects.values().all(|o| o.header.marked == TriColor::White));
}

#[test]
fn sweep_keeps_black_and_reclaims_white() {
    let (mut heap, a, b, c) = three_objects();
    let mut gc = gc_setup();
    heap.objects.get_mut(&a).unwrap().header.marked = TriColor::Black;
    heap.objects.get_mut(&b).unwrap().header.marked = TriColor::Black;

    gc.sweep(&mut heap);
    assert!(heap.objects.contains_key(&a));
    assert!(heap.objects.contains_key(&b));
    assert!(!heap.objects.contains_key(&c));
    assert_eq!(heap.objects[&a].header.marked, TriColor::White);
    assert!(heap.roots.contains(&a));
}
