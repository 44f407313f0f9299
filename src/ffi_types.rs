use vstd::prelude::*;

verus! {

/// An optional value laid out for callers across a C boundary: `is_some` is
/// `1` when `value` holds a result and `0` when it holds the default.
#[derive(Clone, Copy, Debug)]
pub struct BadOption<T: Sized> {
    pub is_some: i32,
    pub value: T,
}

impl<T: Sized> BadOption<T> {
    pub fn new(maybe_value: Option<T>, default: T) -> (r: BadOption<T>)
        ensures
            r.is_some == (if maybe_value is Some { 1i32 } else { 0i32 }),
            r.value == (match maybe_value {
                Some(v) => v,
                None => default,
            }),
    {
        match maybe_value {
            Some(v) => BadOption { is_some: 1, value: v },
            None => BadOption { is_some: 0, value: default },
        }
    }
}

} // verus!
