//! Values in the form that Rust's formatting gives them.
use vstd::prelude::*;

verus! {

/// A text in quotes, escaped as by `{:?}`.
pub uninterp spec fn quoted(text: Seq<char>) -> Seq<char>;

/// A path in quotes, escaped as by `{:?}`.
pub uninterp spec fn quoted_path(path: Seq<char>) -> Seq<char>;

/// A span of time with two decimals and its unit, as by `{:.2?}`.
pub uninterp spec fn duration_text(secs: u64, nanos: u32) -> Seq<char>;

/// `std::fmt::Debug` of `str`: the text in quotes, with escapes. Which characters are escaped is
/// left to the name.
#[verifier::external_body]
pub(crate) fn show_quoted(text: &str) -> (r: String)
    ensures
        r@ == quoted(text@),
{
    format!("{:?}", text)
}

/// `std::fmt::Debug` of `std::path::Path`: the path in quotes, with escapes. Which characters are
/// escaped is left to the name.
#[verifier::external_body]
pub(crate) fn show_path(path: &str) -> (r: String)
    ensures
        r@ == quoted_path(path@),
{
    format!("{:?}", std::path::Path::new(path))
}

/// `std::fmt::Debug` of `std::time::Duration` with a precision of two: the span in the largest unit
/// that fits. How it is rounded is left to the name. `std::time::Duration::new` panics where
/// nanoseconds carry over the largest second.
#[verifier::external_body]
pub(crate) fn show_duration(secs: u64, nanos: u32) -> (r: String)
    requires
        nanos < 1_000_000_000,
    ensures
        r@ == duration_text(secs, nanos),
{
    format!("{:.2?}", std::time::Duration::new(secs, nanos))
}

} // verus!
