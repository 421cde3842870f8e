use rcore::green_thread::{Runtime, State, Task, TaskContext, DEFAULT_STACK_SIZE};

#[test]
fn vec_append() {
    let mut a = vec![2, 3];
    let mut b = vec![3, 4];
    a.append(&mut b);
    println!("{:#?}", a);
}

#[test]
fn new_task_is_available_and_zeroed() {
    let t = Task::new(3);
    assert_eq!(t.id, 3);
    assert_eq!(t.stack.len(), DEFAULT_STACK_SIZE);
    assert!(t.stack.iter().all(|b| *b == 0));
    assert!(t.state == State::Available);
    assert_eq!(t.ctx.x1, 0);
    assert_eq!(t.ctx.nx1, 0);
}

#[test]
fn default_context_is_zero() {
    let c = TaskContext::default();
    assert_eq!(c.x2, 0);
    assert_eq!(c.x27, 0);
}

#[test]
fn runtime_new_builds_task_table() {
    let _rt = Runtime::new();
}

#[test]
fn spawn_takes_the_first_free_task() {
    let mut rt = Runtime::new();
    let i = rt.spawn(0x1000, 0x2000);
    assert_eq!(i, 1);
    let t = rt.task(1);
    assert!(t.state == State::Ready);
    assert_eq!((t.ctx.x1, t.ctx.nx1), (0x2000, 0x1000));
    assert!(rt.task(2).state == State::Available);
    rt.set_stack_top(1, 0x8007);
    assert_eq!(rt.task(1).ctx.x2, 0x8000 - 32);
    assert_eq!(rt.spawn(0x1100, 0x2000), 2);
}
