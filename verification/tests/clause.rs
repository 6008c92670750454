use rowtree::{
    guest_scope_clause, product_search_clause, quoted_uuid, shop_search_suffix, user_search_clause,
    uuid_hyphenated, Clause,
};

const K1: u128 = 0x123e4567e89b12d3a456426614174000;
const K1_STR: &str = "123e4567-e89b-12d3-a456-426614174000";
const K2: u128 = 0xffffffffffffffffffffffffffffffff;

#[test]
fn uuid_hyphenated_known_value() {
    assert_eq!(uuid_hyphenated(K1), K1_STR);
}

#[test]
fn uuid_hyphenated_extremes() {
    assert_eq!(uuid_hyphenated(0), "00000000-0000-0000-0000-000000000000");
    assert_eq!(uuid_hyphenated(K2), "ffffffff-ffff-ffff-ffff-ffffffffffff");
}

#[test]
fn quoted_uuid_wraps_in_quotes() {
    assert_eq!(quoted_uuid(K1), format!("'{}'", K1_STR));
}

#[test]
fn clause_equal_and_like() {
    let c = Clause::equal("id", "'x'");
    assert_eq!(c.inner().as_str(), "id = 'x'");
    let c = Clause::like("name", "'%a%'");
    assert_eq!(c.inner().as_str(), "name LIKE '%a%'");
}

#[test]
fn clause_and_or_chains() {
    let mut c = Clause::new();
    c.and(Clause::equal("a", "1"));
    c.and(Clause::equal("b", "2"));
    assert_eq!(c.inner().as_str(), "a = 1 AND b = 2");
    let mut c = Clause::new();
    c.or(Clause::equal("a", "1"));
    c.or(Clause::equal("b", "2"));
    assert_eq!(c.inner().as_str(), "a = 1 OR b = 2");
}

#[test]
fn clause_parentheses() {
    let mut c = Clause::equal("a", "1");
    c.parentheses();
    assert_eq!(c.inner().as_str(), "(a = 1)");
    // wrapping twice changes nothing
    c.parentheses();
    assert_eq!(c.inner().as_str(), "(a = 1)");
    let mut e = Clause::new();
    e.parentheses();
    assert_eq!(e.where_sql(), "");
}

#[test]
fn clause_where_sql() {
    assert_eq!(Clause::new().where_sql(), "");
    assert_eq!(Clause::equal("a", "1").where_sql(), " WHERE a = 1");
}

#[test]
fn guest_scope_clause_cases() {
    assert_eq!(guest_scope_clause(None, None).where_sql(), "");
    assert_eq!(
        guest_scope_clause(Some(K1), None).where_sql(),
        format!(" WHERE shop_id = '{}'", K1_STR)
    );
    assert_eq!(
        guest_scope_clause(None, Some(K1)).where_sql(),
        format!(" WHERE guest_session_id = '{}'", K1_STR)
    );
    assert_eq!(
        guest_scope_clause(Some(K1), Some(K2)).where_sql(),
        format!(
            " WHERE shop_id = '{}' AND guest_session_id = '{}'",
            K1_STR, "ffffffff-ffff-ffff-ffff-ffffffffffff"
        )
    );
}

#[test]
fn user_search_clause_cases() {
    assert_eq!(user_search_clause(None, None).where_sql(), "");
    assert_eq!(
        user_search_clause(Some(K1), None).where_sql(),
        format!(" WHERE id = '{}'", K1_STR)
    );
    assert_eq!(
        user_search_clause(None, Some("dave")).where_sql(),
        " WHERE upper(name) LIKE upper('%dave%')"
    );
    assert_eq!(
        user_search_clause(Some(K1), Some("dave")).where_sql(),
        format!(" WHERE id = '{}' AND upper(name) LIKE upper('%dave%')", K1_STR)
    );
}

#[test]
fn product_search_clause_cases() {
    assert_eq!(
        product_search_clause(Some(K1), None).where_sql(),
        format!(" WHERE key = '{}'", K1_STR)
    );
    assert_eq!(
        product_search_clause(None, Some("tea")).where_sql(),
        " WHERE upper((product).name) LIKE upper('%tea%')"
    );
}

#[test]
fn shop_search_suffix_cases() {
    assert_eq!(shop_search_suffix(None, None), "");
    assert_eq!(shop_search_suffix(Some(K1), None), format!(" WHERE id = '{}'", K1_STR));
    assert_eq!(
        shop_search_suffix(None, Some("mall")),
        " WHERE name_upper LIKE upper('%mall%')"
    );
    assert_eq!(
        shop_search_suffix(Some(K1), Some("mall")),
        format!(" WHERE id = '{}' AND name_upper LIKE upper('%mall%')", K1_STR)
    );
}
