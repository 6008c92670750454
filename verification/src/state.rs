//! Shared request state: the database connection pool.
//!
//! The pool and its connections are collaborator types, opaque to the
//! library; checking a connection out is the one trusted call. Failures are
//! mapped to the library's own error values.

use vstd::prelude::*;
use crate::error::{Error, InnerKind};

verus! {

/// The pool of plaintext catalog connections. The pool type itself is a
/// collaborator's (its declaration names the collaborator's own trait as a
/// bound, which the verifier does not take), so it is held opaquely; the
/// caller's query layer reaches the pool through the public field.
#[verifier::external_body]
pub struct DbPool {
    pub inner: r2d2::Pool<r2d2_postgres::PostgresConnectionManager<postgres::NoTls>>,
}

/// One checked-out catalog connection, held opaquely for the same reason as
/// the pool.
#[verifier::external_body]
pub struct DbConnection {
    pub inner: r2d2::PooledConnection<r2d2_postgres::PostgresConnectionManager<postgres::NoTls>>,
}

/// Relies on r2d2::Pool::get: checks a connection out of the pool, or fails
/// with the pool's own error, which this wrapper discards. Whether it
/// succeeds depends on the environment, so nothing is promised of the
/// outcome.
#[verifier::external_body]
fn pool_get(pool: &DbPool) -> Option<DbConnection> {
    pool.inner.get().ok().map(|conn| DbConnection { inner: conn })
}

pub struct State {
    db_pool: DbPool,
}

impl State {
    pub fn init(db_pool: DbPool) -> State {
        State { db_pool }
    }

    /// A connection from the pool, or the pool's failure as an internal
    /// error.
    pub fn db_connection(&self) -> (r: Result<DbConnection, Error>)
        ensures
            r matches Err(e) ==> {
                &&& e.kind_view() == "InternalServerError"@
                &&& e.message_view() == "Internal server error."@
                &&& e.inner_kind() == Some(InnerKind::R2d2)
            },
    {
        match pool_get(&self.db_pool) {
            Option::Some(conn) => Ok(conn),
            Option::None => Err(Error::internal(InnerKind::R2d2)),
        }
    }
}

} // verus!
