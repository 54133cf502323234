use vstd::prelude::*;

verus! {

/// `c` is an ASCII decimal digit.
pub open spec fn is_digit(c: char) -> bool {
    48 <= (c as u32) <= 57
}

/// Value of a string of decimal digits.
pub open spec fn digits_value(t: Seq<char>) -> int
    decreases t.len(),
{
    if t.len() == 0 {
        0
    } else {
        digits_value(t.drop_last()) * 10 + ((t.last() as u32) - 48)
    }
}

/// What `usize::from_str` accepts: an optional `+` followed by one or more decimal
/// digits whose value fits in `usize`.
pub open spec fn usize_text_value(t: Seq<char>) -> Option<usize> {
    let body = if t.len() > 0 && t[0] == '+' { t.drop_first() } else { t };
    if body.len() > 0 && (forall|i: int| 0 <= i < body.len() ==> #[trigger] is_digit(body[i])) && digits_value(body) <= usize::MAX {
        Some(digits_value(body) as usize)
    } else {
        None
    }
}

/// Calls `str::parse::<usize>`. Trusted: it succeeds exactly on the texts that
/// `usize_text_value` accepts, with that value; on failure it returns the error's
/// display text (which texts those are is not stated).
#[verifier::external_body]
pub(crate) fn parse_usize(text: &str) -> (r: Result<usize, String>)
    ensures
        r is Ok <==> usize_text_value(text@) is Some,
        r matches Ok(n) ==> usize_text_value(text@) == Some(n),
{
    match text.parse::<usize>() {
        Ok(n) => Ok(n),
        Err(e) => Err(e.to_string()),
    }
}

/// Calls `str::strip_prefix`. Trusted: it returns the rest of `text` after `prefix`
/// exactly when `text` starts with `prefix`.
#[verifier::external_body]
pub(crate) fn strip_text_prefix<'a>(text: &'a str, prefix: &str) -> (r: Option<&'a str>)
    ensures
        r is Some <==> (prefix@.len() <= text@.len() && text@.subrange(0, prefix@.len() as int) == prefix@),
        r matches Some(rest) ==> rest@ == text@.skip(prefix@.len() as int),
{
    text.strip_prefix(prefix)
}

/// Parses the `--jobs` option: a positive number of concurrent campaign workers.
pub fn parse_jobs(value: &str) -> (r: Result<usize, String>)
    ensures
        r is Ok <==> (usize_text_value(value@) is Some && usize_text_value(value@) != Some(0usize)),
        r matches Ok(n) ==> usize_text_value(value@) == Some(n),
        usize_text_value(value@) == Some(0usize) ==> (r matches Err(m) && m@ == "jobs must be nonzero"@),
{
    match parse_usize(value) {
        Ok(0) => Err(String::from_str("jobs must be nonzero")),
        Ok(jobs) => Ok(jobs),
        Err(error) => Err(error),
    }
}

} // verus!
