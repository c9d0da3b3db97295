use minigc::object::Object;
use minigc::object::ObjectType;
use minigc::vm::VM;
use minigc::vm::VmError;

#[test]
fn scalar_roots_all_survive() {
    let mut vm = VM::new();
    vm.push_int(10).unwrap();
    vm.push_int(20).unwrap();
    vm.push_int(30).unwrap();

    vm.gc();

    assert_eq!(vm.stack_size(), 3);
    assert_eq!(vm.num_objects, 3);
    assert_eq!(vm.heap[0], Some(Object { marked: false, value: ObjectType::Int(10) }));
    assert_eq!(vm.heap[1], Some(Object { marked: false, value: ObjectType::Int(20) }));
    assert_eq!(vm.heap[2], Some(Object { marked: false, value: ObjectType::Int(30) }));
}

#[test]
fn collect_reclaims_unrooted() {
    let mut vm = VM::new();
    vm.push_int(10).unwrap();
    vm.push_int(20).unwrap();
    vm.push_int(30).unwrap();

    vm.pop().unwrap();
    vm.pop().unwrap();

    vm.gc();

    assert_eq!(vm.num_objects, 1);
    assert!(vm.heap[0].is_some());
    assert!(vm.heap[1].is_none());
    assert!(vm.heap[2].is_none());
}

#[test]
fn count_matches_live_slots_after_collect() {
    let mut vm = VM::new();
    vm.push_int(1).unwrap();
    vm.push_int(2).unwrap();
    vm.push_int(3).unwrap();
    vm.push_int(4).unwrap();
    vm.push_pair().unwrap();
    vm.pop().unwrap();

    vm.gc();

    let live = vm.heap.iter().filter(|slot| slot.is_some()).count();
    assert_eq!(vm.num_objects, live);
}

#[test]
fn pair_children_are_popped_operands() {
    let mut vm = VM::new();
    vm.push_int(10).unwrap();
    vm.push_int(20).unwrap();

    vm.push_pair().unwrap();

    assert_eq!(vm.stack_size(), 1);
    assert_eq!(vm.num_objects, 3);
    assert_eq!(
        vm.heap[2],
        Some(Object { marked: false, value: ObjectType::Pair { head: 0, tail: 1 } })
    );
}

#[test]
fn pair_keeps_children_alive() {
    let mut vm = VM::new();
    vm.push_int(10).unwrap();
    vm.push_int(20).unwrap();
    vm.push_pair().unwrap();

    vm.gc();

    assert_eq!(vm.num_objects, 3);
    assert!(vm.heap[0].is_some());
    assert!(vm.heap[1].is_some());
    assert!(vm.heap[2].is_some());
}

#[test]
fn discarding_sole_root_reclaims_everything() {
    let mut vm = VM::new();
    vm.push_int(10).unwrap();
    vm.push_int(20).unwrap();
    vm.push_int(30).unwrap();
    vm.push_int(40).unwrap();
    vm.push_pair().unwrap();
    vm.push_pair().unwrap();
    vm.push_pair().unwrap();

    vm.pop().unwrap();

    vm.gc();

    assert_eq!(vm.num_objects, 0);
    assert_eq!(vm.stack_size(), 0);
    for slot in vm.heap.iter() {
        assert!(slot.is_none());
    }
}

#[test]
fn overflow_on_capacity_stack() {
    let mut vm = VM::new();
    for i in 0..256i32 {
        assert!(vm.push_int(i).is_ok());
    }
    for i in 256..300i32 {
        assert_eq!(vm.push_int(i), Err(VmError::StackOverflow));
    }
    assert_eq!(vm.stack_size(), 256);
}

#[test]
fn underflow_on_fresh_vm() {
    let mut vm = VM::new();
    assert_eq!(vm.pop(), Err(VmError::StackUnderflow));
}

#[test]
fn pair_underflow_leaves_vm_unchanged() {
    let mut vm = VM::new();
    vm.push_int(7).unwrap();

    assert_eq!(vm.push_pair(), Err(VmError::StackUnderflow));
    assert_eq!(vm.stack_size(), 1);
    assert_eq!(vm.num_objects, 1);
}

#[test]
fn mark_twice_is_noop() {
    let mut heap: Vec<Option<Object>> = Vec::new();
    heap.push(Some(Object::new(ObjectType::Int(1))));
    heap.push(Some(Object::new(ObjectType::Int(2))));
    heap.push(Some(Object::new(ObjectType::Pair { head: 0, tail: 1 })));

    Object::mark(&mut heap, 2);
    let snapshot = heap.clone();
    Object::mark(&mut heap, 2);

    assert_eq!(heap, snapshot);
    assert!(heap[0].unwrap().marked);
    assert!(heap[1].unwrap().marked);
    assert!(heap[2].unwrap().marked);
}

#[test]
fn mark_handles_shared_children() {
    let mut heap: Vec<Option<Object>> = Vec::new();
    heap.push(Some(Object::new(ObjectType::Int(5))));
    heap.push(Some(Object::new(ObjectType::Pair { head: 0, tail: 0 })));
    heap.push(Some(Object::new(ObjectType::Pair { head: 1, tail: 0 })));

    Object::mark(&mut heap, 2);

    assert!(heap[0].unwrap().marked);
    assert!(heap[1].unwrap().marked);
    assert!(heap[2].unwrap().marked);
}

#[test]
fn mark_leaves_unreachable_unmarked() {
    let mut heap: Vec<Option<Object>> = Vec::new();
    heap.push(Some(Object::new(ObjectType::Int(5))));
    heap.push(Some(Object::new(ObjectType::Int(6))));

    Object::mark(&mut heap, 0);

    assert!(heap[0].unwrap().marked);
    assert!(!heap[1].unwrap().marked);
}

#[test]
fn threshold_doubles_live_set() {
    let mut vm = VM::with_limits(8, 2);
    vm.push_int(1).unwrap();
    vm.push_int(2).unwrap();
    assert_eq!(vm.max_objects, 2);

    vm.push_int(3).unwrap();
    assert_eq!(vm.max_objects, 4);
    assert_eq!(vm.num_objects, 3);

    vm.push_int(4).unwrap();
    assert_eq!(vm.max_objects, 4);

    vm.push_int(5).unwrap();
    assert_eq!(vm.max_objects, 8);
    assert_eq!(vm.num_objects, 5);
}

#[test]
fn drained_heap_collects_on_next_push() {
    let mut vm = VM::with_limits(4, 1);
    vm.push_int(10).unwrap();
    vm.pop().unwrap();
    vm.gc();

    assert_eq!(vm.num_objects, 0);
    assert_eq!(vm.max_objects, 0);

    vm.push_int(11).unwrap();

    assert_eq!(vm.num_objects, 1);
    assert_eq!(vm.max_objects, 0);
    assert!(vm.heap[0].is_none());
    assert!(vm.heap[1].is_some());
}

#[test]
fn with_limits_sets_capacity() {
    let mut vm = VM::with_limits(2, 10);
    vm.push_int(1).unwrap();
    vm.push_int(2).unwrap();
    assert_eq!(vm.push_int(3), Err(VmError::StackOverflow));
    assert_eq!(vm.stack_size(), 2);
}
