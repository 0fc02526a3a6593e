//! Runtime support for a scripting-language interpreter: resolution of
//! lexically scoped local names to flat storage slots, a bounded recursion
//! depth counter, and a diagnostic call stack.
pub mod call_stack;
pub mod laws;
pub mod locals;
pub mod model;
pub mod recursion;
