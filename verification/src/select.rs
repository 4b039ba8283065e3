//! Conditional selection: a two-way choice that evaluates only the branch it
//! picks, and a fallback for optional values.

use vstd::prelude::*;

verus! {

/// Evaluates `on_true` when `condition` holds and `on_false` otherwise, and
/// yields what the evaluated branch produced.
///
/// Only the chosen branch has to be callable: the other one is never run, so
/// nothing is asked of it.
pub fn select_if<R, T: FnOnce() -> R, F: FnOnce() -> R>(
    condition: bool,
    on_true: T,
    on_false: F,
) -> (chosen: R)
    requires
        condition ==> on_true.requires(()),
        !condition ==> on_false.requires(()),
    ensures
        condition ==> on_true.ensures((), chosen),
        !condition ==> on_false.ensures((), chosen),
{
    if condition {
        on_true()
    } else {
        on_false()
    }
}

/// What `or_default` returns: the wrapped value if there is one, else `default`.
pub open spec fn value_or<T>(value: Option<T>, default: T) -> T {
    match value {
        Some(inner) => inner,
        None => default,
    }
}

/// The value inside `value` if it is present, `default` if it is not.
pub fn or_default<T>(value: Option<T>, default: T) -> (chosen: T)
    ensures
        chosen == value_or(value, default),
{
    match value {
        Some(inner) => inner,
        None => default,
    }
}

} // verus!
