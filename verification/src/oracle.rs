//! Measurements that the caller supplies as closures: distances, positions and
//! land tests. Each is a function of its arguments; the contracts speak of the
//! value that it gives.

use vstd::prelude::*;

verus! {

/// `f` can be called on everything and gives one value each time.
pub open spec fn function1<A, B, F: Fn(A) -> B>(f: F) -> bool {
    &&& forall|a: A| #[trigger] call_requires(f, (a,))
    &&& forall|a: A, x: B, y: B|
        #[trigger] call_ensures(f, (a,), x) && #[trigger] call_ensures(f, (a,), y) ==> x == y
}

/// The value of `f`.
pub open spec fn value1<A, B, F: Fn(A) -> B>(f: F, a: A) -> B {
    choose|b: B| call_ensures(f, (a,), b)
}

/// As [`function1`], with two arguments.
pub open spec fn function2<A, B, C, F: Fn(A, B) -> C>(f: F) -> bool {
    &&& forall|a: A, b: B| #[trigger] call_requires(f, (a, b))
    &&& forall|a: A, b: B, x: C, y: C|
        #[trigger] call_ensures(f, (a, b), x) && #[trigger] call_ensures(f, (a, b), y) ==> x == y
}

/// As [`value1`], with two arguments.
pub open spec fn value2<A, B, C, F: Fn(A, B) -> C>(f: F, a: A, b: B) -> C {
    choose|c: C| call_ensures(f, (a, b), c)
}

/// As [`function1`], with three arguments.
pub open spec fn function3<A, B, C, D, F: Fn(A, B, C) -> D>(f: F) -> bool {
    &&& forall|a: A, b: B, c: C| #[trigger] call_requires(f, (a, b, c))
    &&& forall|a: A, b: B, c: C, x: D, y: D|
        #[trigger] call_ensures(f, (a, b, c), x) && #[trigger] call_ensures(f, (a, b, c), y) ==> x
            == y
}

/// As [`value1`], with three arguments.
pub open spec fn value3<A, B, C, D, F: Fn(A, B, C) -> D>(f: F, a: A, b: B, c: C) -> D {
    choose|d: D| call_ensures(f, (a, b, c), d)
}

/// What a call of `f` gave is its value.
pub proof fn lemma_value1<A, B, F: Fn(A) -> B>(f: F, a: A, b: B)
    requires
        function1(f),
        call_ensures(f, (a,), b),
    ensures
        value1(f, a) == b,
{
}

/// What a call of `f` gave is its value.
pub proof fn lemma_value2<A, B, C, F: Fn(A, B) -> C>(f: F, a: A, b: B, c: C)
    requires
        function2(f),
        call_ensures(f, (a, b), c),
    ensures
        value2(f, a, b) == c,
{
}

/// What a call of `f` gave is its value.
pub proof fn lemma_value3<A, B, C, D, F: Fn(A, B, C) -> D>(f: F, a: A, b: B, c: C, d: D)
    requires
        function3(f),
        call_ensures(f, (a, b, c), d),
    ensures
        value3(f, a, b, c) == d,
{
}

/// Calls `f`.
pub fn call1<A, B, F: Fn(A) -> B>(f: &F, a: A) -> (r: B)
    requires
        function1(*f),
    ensures
        r == value1(*f, a),
        call_ensures(*f, (a,), r),
{
    f(a)
}

/// Calls `f`.
pub fn call2<A, B, C, F: Fn(A, B) -> C>(f: &F, a: A, b: B) -> (r: C)
    requires
        function2(*f),
    ensures
        r == value2(*f, a, b),
        call_ensures(*f, (a, b), r),
{
    f(a, b)
}

/// Calls `f`.
pub fn call3<A, B, C, D, F: Fn(A, B, C) -> D>(f: &F, a: A, b: B, c: C) -> (r: D)
    requires
        function3(*f),
    ensures
        r == value3(*f, a, b, c),
        call_ensures(*f, (a, b, c), r),
{
    f(a, b, c)
}

} // verus!
