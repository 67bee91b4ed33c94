//! What is known of copies of values.

use vstd::prelude::*;

verus! {

/// A clone of a value of type `T` is the value again.
pub open spec fn exact_values<T: Clone>() -> bool {
    forall|value: T, copy: T| #[trigger] cloned(value, copy) ==> copy == value
}

/// Where clones are exact, cloning gives the value and nothing else, and so it is where
/// cloning always gives the value.
pub proof fn law_exact_values<T: Clone>(value: T, copy: T)
    ensures
        exact_values::<T>() && cloned(value, copy) ==> copy == value,
        (forall|x: T, y: T| #[trigger] cloned(x, y) ==> y == x) ==> exact_values::<T>(),
{
}

} // verus!
