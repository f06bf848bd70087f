use gc_simulator::heap::HeapError;
use gc_simulator::object::{Field, Object, ObjectTrait, TypeValue};
use gc_simulator::vm::{Fraction, OpCode, VMError, VirtualMachine};
use gc_simulator::gc::TriColor;

const THRESHOLD: Fraction = Fraction { numerator: 3, denominator: 4 };

#[test]
fn test_new_vm() {
    let max_stack_size = 10;
    let vm = VirtualMachine::new(max_stack_size, THRESHOLD, 100, 0).unwrap();

    assert_eq!(vm.max_stack_size, max_stack_size);
    assert_eq!(vm.stack, vec![]);
    assert_eq!(vm.first_object, None);
    assert_eq!(vm.num_objects, 0);
}

#[test]
fn test_max_stack_size_exceed_max_int() {
    let max_stack_size = usize::MAX;
    let vm = VirtualMachine::new(max_stack_size, THRESHOLD, 100, 0).unwrap();

    assert_eq!(vm.max_stack_size, max_stack_size);
    assert_eq!(vm.stack, vec![]);
    assert_eq!(vm.first_object, None);
    assert_eq!(vm.num_objects, 0);
}

#[test]
fn test_push_objects_to_vm() {
    let max_stack_size = 10;
    let mut vm = VirtualMachine::new(max_stack_size, THRESHOLD, 100, 0).unwrap();

    for i in 0..max_stack_size - 1 {
        let value = Object::new(String::from(format!("test{}", i)), TypeValue::Int(i as i32));
        vm.push(value).unwrap();
    }

    assert_eq!(vm.len(), max_stack_size - 1);
}

#[test]
fn test_stack_overflow() {
    let max_stack_size = 10;
    let mut vm = VirtualMachine::new(max_stack_size, THRESHOLD, 100, 0).unwrap();

    for i in 0..max_stack_size {
        let value = Object::new(String::from(format!("test{}", i)), TypeValue::Int(i as i32));
        vm.push(value).unwrap();
    }

    assert_eq!(vm.len(), max_stack_size);
    assert_eq!(
        vm.push(Object::new(String::from("test"), TypeValue::Int(1)))
            .unwrap_err(),
        VMError::StackOverflow
    );
}

#[test]
fn test_pop() {
    let max_stack_size = 10;
    let mut vm = VirtualMachine::new(max_stack_size, THRESHOLD, 100, 0).unwrap();

    for i in 0..max_stack_size {
        let value = Object::new(String::from(format!("test{}", i)), TypeValue::Int(i as i32));
        vm.push(value).unwrap();

        assert_eq!(vm.stack.len(), i + 1);
        println!("stack: {:?}", vm.stack);
        println!("-----------\n");
        println!("heap: {:?}", vm.heap);
    }
}

#[test]
fn stack_underflow() {
    let max_stack_size = 10;
    let mut vm = VirtualMachine::new(max_stack_size, THRESHOLD, 100, 0).unwrap();

    assert_eq!(vm.pop().unwrap_err(), VMError::StackUnderflow);
}

#[test]
fn test_op_code() {
    let max_stack_size = 10;
    let mut vm = VirtualMachine::new(max_stack_size, THRESHOLD, 100, 0).unwrap();

    let value = Object::new(String::from("test"), TypeValue::Int(1));
    vm.push(value).unwrap();
    vm.pop().unwrap();

    assert_eq!(vm.op_codes.len(), 2);
    assert_eq!(vm.op_codes[0], OpCode::Push(TypeValue::Int(1)));
    assert_eq!(vm.op_codes[1], OpCode::Pop);
}

#[test]
fn test_get_first_object() {
    let max_stack_size = 500;
    let mut vm = VirtualMachine::new(max_stack_size, THRESHOLD, 100, 0).unwrap();

    let value = Object::new(String::from("test"), TypeValue::Int(1));
    vm.push(value.clone()).unwrap();

    assert_eq!(vm.first_object, Some(value));

    vm.pop().unwrap();
    assert_eq!(vm.first_object, None);
}

#[test]
fn threshold_is_fraction_of_stack_size() {
    let vm = VirtualMachine::new(10, THRESHOLD, 100, 0).unwrap();
    assert_eq!(vm.threshold, 7);
    let vm = VirtualMachine::new(10, Fraction::new(50, 1), 100, 0).unwrap();
    assert_eq!(vm.threshold, 500);
    let vm = VirtualMachine::new(usize::MAX, Fraction::new(99, 1), 100, 0).unwrap();
    assert_eq!(vm.threshold, usize::MAX);
}

#[test]
fn threshold_out_of_range_is_rejected() {
    for f in [Fraction::new(0, 1), Fraction::new(100, 1), Fraction::new(250, 2), Fraction::new(1, 0)] {
        assert_eq!(VirtualMachine::new(10, f, 100, 0).unwrap_err(), VMError::InvalidRangeOfThreshold);
    }
}

#[test]
fn second_push_overflows_a_one_slot_stack() {
    let mut vm = VirtualMachine::new(1, THRESHOLD, 100, 0).unwrap();
    vm.push(Object::new(String::from("a"), TypeValue::Int(1))).unwrap();
    assert_eq!(
        vm.push(Object::new(String::from("b"), TypeValue::Int(2))),
        Err(VMError::StackOverflow)
    );
    assert_eq!(vm.op_codes.last(), Some(&OpCode::Halt));
    assert_eq!(vm.len(), 1);
}

#[test]
fn underflow_journals_halt() {
    let mut vm = VirtualMachine::new(1, THRESHOLD, 100, 0).unwrap();
    assert_eq!(vm.pop(), Err(VMError::StackUnderflow));
    assert_eq!(vm.op_codes, vec![OpCode::Halt]);
    assert!(vm.is_empty());
}

#[test]
fn process_object_darkens_step_by_step() {
    let mut vm = VirtualMachine::new(4, THRESHOLD, 1000, 0).unwrap();
    let b = vm.heap.allocate_object(8).unwrap();
    let a = vm.heap.allocate_object(8).unwrap();
    vm.heap.objects.get_mut(&a).unwrap().fields.push(Field::new_ref(b));
    vm.heap.roots.insert(a);
    vm.init_object();
    vm.process_roots();
    assert_eq!(vm.heap.objects[&a].header.marked, TriColor::Gray);
    assert_eq!(vm.heap.objects[&b].header.marked, TriColor::White);

    let mut grays = Vec::new();
    assert_eq!(vm.process_object(a, &mut grays), Ok(false));
    assert_eq!(vm.heap.objects[&a].header.marked, TriColor::Black);
    assert_eq!(vm.heap.objects[&b].header.marked, TriColor::Gray);
    assert_eq!(grays, vec![b]);
    assert_eq!(vm.op_codes.last(), Some(&OpCode::Mark(a, 16)));
    assert_eq!(vm.process_object(a, &mut grays), Ok(true));
    assert_eq!(vm.process_object(12345, &mut grays), Ok(false));
}

#[test]
fn process_object_reports_dangling_reference() {
    let mut vm = VirtualMachine::new(4, THRESHOLD, 1000, 0).unwrap();
    let a = vm.heap.allocate_object(8).unwrap();
    vm.heap.objects.get_mut(&a).unwrap().references.insert(777);
    vm.heap.roots.insert(a);
    vm.process_roots();
    let mut grays = Vec::new();
    assert_eq!(vm.process_object(a, &mut grays), Err(HeapError::ObjectNotFound));
}

#[test]
fn force_collect_reclaims_and_journals_sweep() {
    let mut vm = VirtualMachine::new(4, THRESHOLD, 64, 0).unwrap();
    let a = vm.heap.allocate_object(8).unwrap();
    let _b = vm.heap.allocate_object(8).unwrap();
    vm.heap.roots.insert(a);
    assert_eq!(vm.force_collect(), Ok(()));
    assert_eq!(vm.heap.objects.len(), 1);
    assert_eq!(vm.heap.calculate_free_memory(), 56);
    assert_eq!(vm.op_codes.last(), Some(&OpCode::Sweep));
}

#[test]
fn reset_heap_keeps_alignment() {
    let mut vm = VirtualMachine::new(4, THRESHOLD, 64, 8).unwrap();
    vm.heap.allocate_object(8).unwrap();
    assert_eq!(vm.reset_heap(32), Some(true));
    assert_eq!(vm.heap.memory.len(), 32);
    assert_eq!(vm.heap.alignment, 8);
    assert!(vm.heap.objects.is_empty());
}
