use vstd::prelude::*;

pub mod attrs;
pub mod config;
pub mod parser;
pub mod render;
pub mod snippet;
pub mod source;
pub mod syntax;
pub mod text;

verus! {

/// The registration attribute: it hands the annotated item back unchanged.
pub fn snippet<T>(attr: T, item: T) -> (r: T)
    ensures
        r == item,
{
    item
}

/// Turns a fallible result into an optional value, so that processing can go on.
pub fn report_error<T, E>(result: Result<T, E>) -> (r: Option<T>)
    ensures
        r == match result {
            Ok(x) => Some(x),
            Err(_) => None::<T>,
        },
{
    match result {
        Ok(x) => Some(x),
        Err(_) => None,
    }
}

} // verus!
