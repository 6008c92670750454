//! Per-request context: shared state and the session identifiers the request
//! carried, if any.

use vstd::prelude::*;
use crate::error::Error;
use crate::model::Key;
use crate::state::State;

verus! {

pub struct Context {
    state: State,
    user_session_id: Option<Key>,
    guest_session_id: Option<Key>,
}

impl Context {
    pub closed spec fn spec_user_session_id(&self) -> Option<Key> {
        self.user_session_id
    }

    pub closed spec fn spec_guest_session_id(&self) -> Option<Key> {
        self.guest_session_id
    }

    pub fn new(state: State, user_session_id: Option<Key>, guest_session_id: Option<Key>) -> (c:
        Context)
        ensures
            c.spec_user_session_id() == user_session_id,
            c.spec_guest_session_id() == guest_session_id,
    {
        Context { state, user_session_id, guest_session_id }
    }

    pub fn state(&self) -> &State {
        &self.state
    }

    /// The user session carried by the request, or a `NoValidCookie` error
    /// for the user session cookie.
    pub fn user_session_id(&self) -> (r: Result<Key, Error>)
        ensures
            self.spec_user_session_id() matches Some(id) ==> r == Result::<Key, Error>::Ok(id),
            self.spec_user_session_id() is None ==> (r matches Err(e) && e.kind_view()
                == "NoValidCookie"@ && e.message_view() == crate::error::no_valid_cookie_msg(
                "USSID"@,
            )),
    {
        if let Option::Some(id) = self.user_session_id {
            Ok(id)
        } else {
            Err(Error::no_valid_cookie("USSID"))
        }
    }

    /// The guest session carried by the request, or a `NoValidCookie` error
    /// for the guest session cookie.
    pub fn guest_session_id(&self) -> (r: Result<Key, Error>)
        ensures
            self.spec_guest_session_id() matches Some(id) ==> r == Result::<Key, Error>::Ok(id),
            self.spec_guest_session_id() is None ==> (r matches Err(e) && e.kind_view()
                == "NoValidCookie"@ && e.message_view() == crate::error::no_valid_cookie_msg(
                "GSSID"@,
            )),
    {
        if let Option::Some(id) = self.guest_session_id {
            Ok(id)
        } else {
            Err(Error::no_valid_cookie("GSSID"))
        }
    }
}

/// The outcome of the guest-session validity check that guards the guest's
/// cart and order queries: an invalid session is reported as expired.
pub fn require_valid_guest_session(ok: bool) -> (r: Result<(), Error>)
    ensures
        ok ==> r is Ok,
        !ok ==> (r matches Err(e) && e.kind_view() == "SessionExpired"@ && e.message_view()
            == crate::error::session_expired_msg("GSSID"@)),
{
    if ok {
        Ok(())
    } else {
        Err(Error::session_expired("GSSID"))
    }
}

} // verus!
