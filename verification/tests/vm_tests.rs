use minigc::vm::VM;

#[test]
fn stack_size_used() {
    let mut vm = VM::new();
    vm.push_int(10).unwrap();
    vm.push_int(20).unwrap();
    vm.push_int(30).unwrap();

    vm.gc();

    assert_eq!(vm.stack_size(), 3);
}

#[test]
fn stack_size_equal_in_use() {
    let mut vm = VM::new();
    vm.push_int(10).unwrap();
    vm.push_int(20).unwrap();
    vm.push_int(30).unwrap();

    vm.gc();

    let length = vm.stack.len();

    assert_eq!(vm.stack_size(), length);
}

#[test]
fn stack_collected() {
    let mut vm = VM::new();
    vm.push_int(10).unwrap();
    vm.push_int(20).unwrap();
    vm.push_int(30).unwrap();

    vm.pop().unwrap();
    vm.pop().unwrap();

    vm.gc();

    assert_eq!(vm.stack_size(), 1);
}

#[test]
fn stack_after_collect_is_equal() {
    let mut vm = VM::new();
    vm.push_int(10).unwrap();
    vm.push_int(20).unwrap();
    vm.push_int(30).unwrap();

    vm.pop().unwrap();
    vm.pop().unwrap();

    vm.gc();

    let length = vm.stack.len();

    assert_eq!(vm.stack_size(), length);
}

#[test]
fn stack_nested() {
    let mut vm = VM::new();
    vm.push_int(10).unwrap();
    vm.push_int(20).unwrap();
    vm.push_int(30).unwrap();
    vm.push_int(40).unwrap();

    vm.push_pair().unwrap();
    vm.push_pair().unwrap();
    vm.push_pair().unwrap();

    vm.gc();

    assert_eq!(vm.stack_size(), 1);
}

#[test]
fn stack_nested_count() {
    let mut vm = VM::new();
    vm.push_int(10).unwrap();
    vm.push_int(20).unwrap();
    vm.push_int(30).unwrap();
    vm.push_int(40).unwrap();

    vm.push_pair().unwrap();
    vm.push_pair().unwrap();
    vm.push_pair().unwrap();

    vm.gc();

    assert_eq!(vm.num_objects, 7);
}

#[test]
fn gc_clean() {
    let mut vm = VM::new();
    vm.push_int(10).unwrap();
    vm.push_int(20).unwrap();
    vm.push_int(30).unwrap();
    vm.push_int(40).unwrap();

    vm.push_pair().unwrap();
    vm.push_pair().unwrap();
    vm.push_pair().unwrap();

    vm.pop().unwrap();

    vm.gc();

    assert_eq!(vm.num_objects == 0 && vm.num_objects == vm.stack_size(), true);
}
