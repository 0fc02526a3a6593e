use starlark::recursion::{try_inc, StackDepth, ValueError, MAX_RECURSION};

#[test]
fn recursion_bound_is_enforced_and_restored() {
    let mut depth = StackDepth::new();
    let mut guards = Vec::new();
    for i in 0..MAX_RECURSION {
        assert_eq!(i, depth.get());
        guards.push(try_inc(&mut depth).unwrap());
    }
    assert_eq!(MAX_RECURSION, depth.get());
    assert!(matches!(try_inc(&mut depth), Err(ValueError::TooManyRecursionLevel)));
    assert_eq!(MAX_RECURSION, depth.get());
    while let Some(guard) = guards.pop() {
        guard.release(&mut depth);
    }
    assert_eq!(0, depth.get());
}

#[test]
fn release_restores_recorded_depth() {
    let mut depth = StackDepth::new();
    let outer = try_inc(&mut depth).unwrap();
    let inner = try_inc(&mut depth).unwrap();
    assert_eq!(2, depth.get());
    // leaving through the outer guard first still lands on its recorded depth
    outer.release(&mut depth);
    assert_eq!(0, depth.get());
    inner.release(&mut depth);
    assert_eq!(1, depth.get());
}
