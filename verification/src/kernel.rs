//! Kernels that are functions: the same arguments give the same result every time.

use vstd::prelude::*;

verus! {

/// `f` is a function of its argument.
pub open spec fn is_function1<A, R, F: Fn(A) -> R>(f: F) -> bool {
    forall|a: A, x: R, y: R|
        #[trigger] call_ensures(f, (a,), x) && #[trigger] call_ensures(f, (a,), y) ==> x == y
}

/// `f` is a function of its two arguments.
pub open spec fn is_function2<A, B, R, F: Fn(A, B) -> R>(f: F) -> bool {
    forall|a: A, b: B, x: R, y: R|
        #[trigger] call_ensures(f, (a, b), x) && #[trigger] call_ensures(f, (a, b), y) ==> x == y
}

/// `f` is a function of its three arguments.
pub open spec fn is_function3<A, B, C, R, F: Fn(A, B, C) -> R>(f: F) -> bool {
    forall|a: A, b: B, c: C, x: R, y: R|
        #[trigger] call_ensures(f, (a, b, c), x) && #[trigger] call_ensures(f, (a, b, c), y) ==> x == y
}

/// `f` is a function of its four arguments.
pub open spec fn is_function4<A, B, C, D, R, F: Fn(A, B, C, D) -> R>(f: F) -> bool {
    forall|a: A, b: B, c: C, d: D, x: R, y: R|
        #[trigger] call_ensures(f, (a, b, c, d), x) && #[trigger] call_ensures(f, (a, b, c, d), y) ==> x == y
}

/// `f` is a function of its five arguments.
pub open spec fn is_function5<A, B, C, D, E, R, F: Fn(A, B, C, D, E) -> R>(f: F) -> bool {
    forall|a: A, b: B, c: C, d: D, e: E, x: R, y: R|
        #[trigger] call_ensures(f, (a, b, c, d, e), x) && #[trigger] call_ensures(f, (a, b, c, d, e), y) ==> x == y
}

/// `f` is a function of its six arguments.
pub open spec fn is_function6<A, B, C, D, E, G, R, F: Fn(A, B, C, D, E, G) -> R>(f: F) -> bool {
    forall|a: A, b: B, c: C, d: D, e: E, g: G, x: R, y: R|
        #[trigger] call_ensures(f, (a, b, c, d, e, g), x) && #[trigger] call_ensures(f, (a, b, c, d, e, g), y) ==> x == y
}

} // verus!
