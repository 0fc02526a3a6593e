use starlark::call_stack::CallStack;

#[test]
fn call_stack_prints_innermost_first() {
    let mut stack = CallStack::default();
    stack.push("f", "f()", "script.star", 8);
    stack.push("g", "g(1)", "script.star", 2);
    assert_eq!(
        "\n    call to g(1) at script.star:3\n    call to f() at script.star:9",
        stack.print_with_newline_before()
    );
}

#[test]
fn empty_call_stack_prints_nothing() {
    let stack = CallStack::default();
    assert_eq!("", stack.print_with_newline_before());
    assert!(!stack.contains("f"));
}

#[test]
fn call_stack_line_numbers_are_one_based() {
    let mut stack = CallStack::default();
    stack.push("h", "h()", "a.star", 0);
    stack.push("h", "h()", "a.star", 99);
    stack.push("k", "k()", "b.star", u32::MAX);
    assert_eq!(
        "\n    call to k() at b.star:4294967296\n    call to h() at a.star:100\n    call to h() at a.star:1",
        stack.print_with_newline_before()
    );
}

#[test]
fn call_stack_contains_pushed_ids() {
    let mut stack = CallStack::default();
    stack.push("f", "f()", "script.star", 8);
    stack.push("g", "g()", "script.star", 9);
    assert!(stack.contains("f"));
    assert!(stack.contains("g"));
    assert!(!stack.contains("h"));
    assert!(!stack.contains("f()"));
}
