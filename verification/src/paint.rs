//! Coloured text for the terminal.
use vstd::prelude::*;

verus! {

/// `r` is `text`, as it is or between the escape sequences that switch `code` on and all styles off.
///
/// Which of the two comes depends on whether colours are enabled in the process.
pub open spec fn painted(r: Seq<char>, text: Seq<char>, code: Seq<char>) -> bool {
    r == text || r == "\x1b["@ + code + "m"@ + text + "\x1b[0m"@
}

/// `yansi::Paint::red`, shown: the text, between the codes 31 and 0 where colours are enabled.
#[verifier::external_body]
pub(crate) fn red(text: &str) -> (r: String)
    ensures
        painted(r@, text@, "31"@),
{
    yansi::Paint::red(text).to_string()
}

/// `yansi::Paint::green`, shown: the text, between the codes 32 and 0 where colours are enabled.
#[verifier::external_body]
pub(crate) fn green(text: &str) -> (r: String)
    ensures
        painted(r@, text@, "32"@),
{
    yansi::Paint::green(text).to_string()
}

/// `yansi::Paint::yellow`, shown: the text, between the codes 33 and 0 where colours are enabled.
#[verifier::external_body]
pub(crate) fn yellow(text: &str) -> (r: String)
    ensures
        painted(r@, text@, "33"@),
{
    yansi::Paint::yellow(text).to_string()
}

/// `yansi::Paint::red` and then `yansi::Painted::bold`, shown: the text, between the codes 1;31
/// and 0 where colours are enabled (attributes are written before colours).
#[verifier::external_body]
pub(crate) fn bold_red(text: &str) -> (r: String)
    ensures
        painted(r@, text@, "1;31"@),
{
    yansi::Paint::red(text).bold().to_string()
}

} // verus!
