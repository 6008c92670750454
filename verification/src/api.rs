//! The query namespaces of the catalog's public schema.
//!
//! These unit types group the queries a caller can reach: accounts, users,
//! shops, and the guest's carts and orders. The resolvers themselves live
//! with the caller, which owns query execution; the work they delegate —
//! filter clauses, gating, materialization — stands in this library's other
//! modules.

use vstd::prelude::*;

verus! {

pub struct QueryAccount;

pub struct MutationAccount;

pub struct QueryGuest;

pub struct QueryShop;

pub struct QueryUser;

pub struct QueryRoot;

impl QueryRoot {
    pub fn user() -> QueryUser {
        QueryUser
    }

    pub fn shop() -> QueryShop {
        QueryShop
    }

    pub fn guest() -> QueryGuest {
        QueryGuest
    }
}

} // verus!
