//! The library's error values.
//!
//! An error carries a kind tag, a human-readable message, and a marker for
//! errors that originate inside a collaborator (the SQL layer, the connection
//! pool, the serializer) rather than from the request itself.

use vstd::prelude::*;
use vstd::string::StringExecFns;

verus! {

/// Which collaborator an internal error came from.
#[derive(Clone, Copy, Debug, PartialEq, Eq, Structural)]
pub enum InnerKind {
    Sql,
    R2d2,
    SerdeJson,
}

#[derive(Debug)]
pub struct Error {
    kind: String,
    message: String,
    inner: Option<InnerKind>,
}

/// The message of a `SessionExpired` error for the named cookie.
pub open spec fn session_expired_msg(name: Seq<char>) -> Seq<char> {
    "Session for cookie \""@ + name + "\" has expired."@
}

/// The message of a `NoValidCookie` error for the named cookie.
pub open spec fn no_valid_cookie_msg(name: Seq<char>) -> Seq<char> {
    "Missing or invalid cookie \""@ + name + "\" in request."@
}

impl Error {
    pub closed spec fn kind_view(&self) -> Seq<char> {
        self.kind@
    }

    pub closed spec fn message_view(&self) -> Seq<char> {
        self.message@
    }

    pub closed spec fn inner_kind(&self) -> Option<InnerKind> {
        self.inner
    }

    fn new(kind: String, message: String) -> (e: Self)
        ensures
            e.kind_view() == kind@,
            e.message_view() == message@,
            e.inner_kind() is None,
    {
        Error { kind, message, inner: Option::None }
    }

    /// An error of a collaborator, reported as an internal server error.
    pub fn internal(inner: InnerKind) -> (e: Self)
        ensures
            e.kind_view() == "InternalServerError"@,
            e.message_view() == "Internal server error."@,
            e.inner_kind() == Option::Some(inner),
    {
        Error {
            kind: String::from_str("InternalServerError"),
            message: String::from_str("Internal server error."),
            inner: Option::Some(inner),
        }
    }

    /// The session behind the named cookie has expired.
    pub fn session_expired(name: &str) -> (e: Self)
        ensures
            e.kind_view() == "SessionExpired"@,
            e.message_view() == session_expired_msg(name@),
            e.inner_kind() is None,
    {
        let mut m = String::from_str("Session for cookie \"");
        m.append(name);
        m.append("\" has expired.");
        Self::new(String::from_str("SessionExpired"), m)
    }

    /// The caller holds no permission for the attempted operation.
    pub fn unauthorized() -> (e: Self)
        ensures
            e.kind_view() == "Unauthorized"@,
            e.message_view() == "Unauthorized."@,
            e.inner_kind() is None,
    {
        Self::new(String::from_str("Unauthorized"), String::from_str("Unauthorized."))
    }

    /// The request carries no usable value for the named cookie.
    pub fn no_valid_cookie(name: &str) -> (e: Self)
        ensures
            e.kind_view() == "NoValidCookie"@,
            e.message_view() == no_valid_cookie_msg(name@),
            e.inner_kind() is None,
    {
        let mut m = String::from_str("Missing or invalid cookie \"");
        m.append(name);
        m.append("\" in request.");
        Self::new(String::from_str("NoValidCookie"), m)
    }

    /// The error's kind tag.
    pub fn kind(&self) -> (r: &String)
        ensures
            r@ == self.kind_view(),
    {
        &self.kind
    }

    /// The error's human-readable message.
    pub fn message(&self) -> (r: &String)
        ensures
            r@ == self.message_view(),
    {
        &self.message
    }

    /// Whether the error originates inside a collaborator.
    pub fn is_inner(&self) -> (r: bool)
        ensures
            r == (self.inner_kind() is Some),
    {
        self.inner.is_some()
    }
}

/// Maps the SQLSTATE code of a failed query to the library's error: the
/// session-expiry codes raised by the catalog's stored procedures become
/// `SessionExpired` errors for their cookie, everything else is internal.
pub fn error_for_code(code: Option<String>) -> (e: Error)
    ensures
        (match code {
            Option::Some(c) => if c@ == "C2002"@ {
                &&& e.kind_view() == "SessionExpired"@
                &&& e.message_view() == session_expired_msg("USSID"@)
                &&& e.inner_kind() is None
            } else if c@ == "C3001"@ {
                &&& e.kind_view() == "SessionExpired"@
                &&& e.message_view() == session_expired_msg("GSSID"@)
                &&& e.inner_kind() is None
            } else {
                &&& e.kind_view() == "InternalServerError"@
                &&& e.message_view() == "Internal server error."@
                &&& e.inner_kind() == Option::Some(InnerKind::Sql)
            },
            Option::None => {
                &&& e.kind_view() == "InternalServerError"@
                &&& e.message_view() == "Internal server error."@
                &&& e.inner_kind() == Option::Some(InnerKind::Sql)
            },
        }),
{
    match code {
        Option::Some(c) => {
            let user_expired = String::from_str("C2002");
            let guest_expired = String::from_str("C3001");
            if c == user_expired {
                Error::session_expired("USSID")
            } else if c == guest_expired {
                Error::session_expired("GSSID")
            } else {
                Error::internal(InnerKind::Sql)
            }
        },
        Option::None => Error::internal(InnerKind::Sql),
    }
}

} // verus!
