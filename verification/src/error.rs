//! The errors of the library.
use vstd::prelude::*;

verus! {

/// Why a selector or a method call was refused.
pub enum Error {
    /// a selector that does not parse: the text and the reason
    InvalidSelector { context: String, reason: String },
    /// a method called with a selector that does not parse
    MethodOnInvalidSelector { method: String, error: String },
    /// a method that cannot be called on the node it was called on
    InvalidTraitMethodCall { method: String, message: String },
}

/// The start of the reason of an error in a nested selector.
pub open spec fn nested_reason() -> Seq<char> {
    "Nested selector parse error at index "@
}

/// An error in a nested selector of the text `s`: an `InvalidSelector`
/// whose context is the end of `s` from where the nested selector failed,
/// and whose reason says so (see `nested_reason`).
pub open spec fn nested_error(e: Error, s: Seq<char>) -> bool {
    match e {
        Error::InvalidSelector { context, reason } => {
            &&& context@.is_suffix_of(s)
            &&& reason@.len() >= nested_reason().len()
            &&& reason@.take(nested_reason().len() as int) == nested_reason()
        },
        _ => false,
    }
}

/// The error of a selector text `s` that does not parse: an
/// `InvalidSelector` whose context is the whole text, or, for a nested
/// selector that fails, the end of the text from there.
pub open spec fn selector_error(e: Error, s: Seq<char>) -> bool {
    ||| e matches Error::InvalidSelector { context, .. } && context@ == s
    ||| nested_error(e, s)
}

/// The end of a part that ends a sequence ends the sequence too.
pub proof fn lemma_suffix_skip(c: Seq<char>, s: Seq<char>, k: int)
    requires
        0 <= k <= s.len(),
        c.is_suffix_of(s.skip(k)),
    ensures
        c.is_suffix_of(s),
{
    assert(s.skip(k).subrange(s.skip(k).len() - c.len(), s.skip(k).len() as int) =~= s.subrange(
        s.len() - c.len(),
        s.len() as int,
    ));
}

/// An `InvalidSelector` error whose reason is `reason` followed by an index.
pub fn invalid_selector(context: &[char], reason: &str, index: usize) -> (e: Error)
    ensures
        e matches Error::InvalidSelector { context: c, reason: r } && c@ == context@ && r@.len() >= reason@.len()
            && r@.take(reason@.len() as int) == reason@,
{
    let mut r = String::from_str(reason);
    let n = index.to_string();
    r.append(n.as_str());
    assert(r@.take(reason@.len() as int) =~= reason@);
    Error::InvalidSelector { context: crate::chars::chars_to_string(context), reason: r }
}

/// An `InvalidSelector` error whose reason is `what`, the text `piece` in
/// quotes, and the index where it stands.
pub fn invalid_selector_at(context: &[char], what: &str, piece: &[char], index: usize) -> (e: Error)
    ensures
        e matches Error::InvalidSelector { context: c, .. } && c@ == context@,
{
    let mut r = String::from_str(what);
    r.append("'");
    let p = crate::chars::chars_to_string(piece);
    r.append(p.as_str());
    r.append("' at index ");
    let n = index.to_string();
    r.append(n.as_str());
    Error::InvalidSelector { context: crate::chars::chars_to_string(context), reason: r }
}

/// An `InvalidSelector` error with the reason `reason` as it is.
pub fn invalid_selector_plain(context: &[char], reason: &str) -> (e: Error)
    ensures
        e matches Error::InvalidSelector { context: c, reason: r } && c@ == context@ && r@ == reason@,
{
    Error::InvalidSelector { context: crate::chars::chars_to_string(context), reason: String::from_str(reason) }
}

/// The message of an error: the kind of failure, then its details.
pub open spec fn error_message(e: &Error) -> Seq<char> {
    match e {
        Error::InvalidSelector { context, reason } => "Invalid selector:'"@ + context@ + "'<"@ + reason@ + ">"@,
        Error::MethodOnInvalidSelector { method, error } => "Call method '"@ + method@ + "' with "@ + error@,
        Error::InvalidTraitMethodCall { method, message } => "Call method '"@ + method@ + "' cause an error: "@
            + message@,
    }
}

impl Error {
    /// The message of the error, as its `Display` shows it.
    pub fn message(&self) -> (s: String)
        ensures
            s@ == error_message(self),
    {
        match self {
            Error::InvalidSelector { context, reason } => {
                let mut s = String::from_str("Invalid selector:'");
                s.append(context.as_str());
                s.append("'<");
                s.append(reason.as_str());
                s.append(">");
                s
            },
            Error::MethodOnInvalidSelector { method, error } => {
                let mut s = String::from_str("Call method '");
                s.append(method.as_str());
                s.append("' with ");
                s.append(error.as_str());
                s
            },
            Error::InvalidTraitMethodCall { method, message } => {
                let mut s = String::from_str("Call method '");
                s.append(method.as_str());
                s.append("' cause an error: ");
                s.append(message.as_str());
                s
            },
        }
    }
}

} // verus!
