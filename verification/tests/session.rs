use postgres::NoTls;
use r2d2_postgres::PostgresConnectionManager;
use rowtree::{Context, DbPool, State};

fn test_state() -> State {
    let manager = PostgresConnectionManager::new(
        "host=localhost user=postgres dbname=postgres".parse().unwrap(),
        NoTls,
    );
    let pool = r2d2::Pool::builder()
        .max_size(1)
        .connection_timeout(std::time::Duration::from_millis(200))
        .build_unchecked(manager);
    State::init(DbPool { inner: pool })
}

#[test]
fn context_carries_session_ids() {
    let c = Context::new(test_state(), Some(7), None);
    assert_eq!(c.user_session_id().unwrap(), 7);
    match c.guest_session_id() {
        Err(e) => {
            assert_eq!(e.kind().as_str(), "NoValidCookie");
            assert_eq!(e.message().as_str(), "Missing or invalid cookie \"GSSID\" in request.");
        },
        Ok(_) => panic!(),
    }
}

#[test]
fn context_missing_user_session() {
    let c = Context::new(test_state(), None, Some(9));
    assert_eq!(c.guest_session_id().unwrap(), 9);
    match c.user_session_id() {
        Err(e) => {
            assert_eq!(e.message().as_str(), "Missing or invalid cookie \"USSID\" in request.");
        },
        Ok(_) => panic!(),
    }
}

#[test]
fn db_connection_failure_is_internal() {
    let s = test_state();
    match s.db_connection() {
        Err(e) => {
            assert_eq!(e.kind().as_str(), "InternalServerError");
            assert!(e.is_inner());
        },
        Ok(_) => panic!("no database is expected to be reachable here"),
    }
}
