//! Row-level value types of the catalog's relational schema.
//!
//! These mirror the database's domain types: access levels, authority kinds,
//! and non-null wrappers around text, integers and identifiers. The caller's
//! query layer converts raw column values into these before they reach the
//! library.

use vstd::prelude::*;
use crate::model::Key;

verus! {

/// An access level granted to a shop member. `NoAccess` denies the guarded
/// operations outright.
#[derive(Clone, Copy, Debug, PartialEq, Eq, Structural)]
pub enum Permission {
    NoAccess,
    ReadOnly,
    All,
}

impl Permission {
    /// Whether this level grants any access at all.
    pub fn grants_access(&self) -> (r: bool)
        ensures
            r == !(*self is NoAccess),
    {
        match self {
            Permission::NoAccess => false,
            Permission::ReadOnly => true,
            Permission::All => true,
        }
    }
}

/// A non-null access level column.
#[derive(Clone, Copy, Debug, PartialEq, Eq, Structural)]
pub struct PermissionNN(pub Permission);

/// The kind of authority a permission applies to.
#[derive(Clone, Copy, Debug, PartialEq, Eq, Structural)]
pub enum Authority {
    TeamAuthority,
    StoreAuthority,
    ProductAuthority,
}

/// A non-null authority column.
#[derive(Clone, Copy, Debug, PartialEq, Eq, Structural)]
pub struct AuthorityNN(pub Authority);

/// A non-null text column.
#[derive(Debug)]
pub struct TextNN(pub String);

/// A non-null, non-zero-length text column.
#[derive(Debug)]
pub struct TextNZ(pub String);

/// A non-null integer column.
#[derive(Clone, Copy, Debug, PartialEq, Eq, Structural)]
pub struct IntNN(pub i32);

/// A non-null identifier column.
#[derive(Clone, Copy, Debug, PartialEq, Eq, Structural)]
pub struct UuidNN(pub Key);

} // verus!
