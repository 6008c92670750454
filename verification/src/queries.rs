//! The filter clauses of the catalog queries.
//!
//! Each query narrows its result set by optional caller-supplied values: a
//! key, a session, a name fragment. These builders turn those options into
//! the exact clause text the queries interpolate.

use vstd::prelude::*;
use vstd::string::StringExecFns;
use crate::clause::Clause;
use crate::ids::{quoted_key, quoted_uuid};
use crate::model::Key;

verus! {

/// `col = '<key>'` as clause text.
pub open spec fn key_equals(col: Seq<char>, k: Key) -> Seq<char> {
    col + " = "@ + quoted_key(k)
}

/// `upper('%<name>%')` as clause text.
pub open spec fn upper_like(name: Seq<char>) -> Seq<char> {
    "upper('%"@ + name + "%')"@
}

/// `col LIKE upper('%<name>%')` as clause text.
pub open spec fn name_like(col: Seq<char>, name: Seq<char>) -> Seq<char> {
    col + " LIKE "@ + upper_like(name)
}

/// Writes the case-folding match pattern for a name fragment.
fn upper_pattern(name: &str) -> (s: String)
    ensures
        s@ == upper_like(name@),
{
    let mut s = String::from_str("upper('%");
    s.append(name);
    s.append("%')");
    s
}

/// The filter of the order and cart queries: by shop, by guest session, by
/// both, or no filter at all.
pub fn guest_scope_clause(shop_id: Option<Key>, guest_session_id: Option<Key>) -> (c: Clause)
    ensures
        shop_id is None && guest_session_id is None ==> c is Empty,
        shop_id is Some && guest_session_id is None ==> c is Entries && c.inner_view()
            == key_equals("shop_id"@, shop_id.unwrap()),
        shop_id is None && guest_session_id is Some ==> c is Entries && c.inner_view()
            == key_equals("guest_session_id"@, guest_session_id.unwrap()),
        shop_id is Some && guest_session_id is Some ==> c is Entries && c.inner_view()
            == key_equals("shop_id"@, shop_id.unwrap()) + " AND "@ + key_equals(
            "guest_session_id"@,
            guest_session_id.unwrap(),
        ),
{
    let mut clause = Clause::new();
    if let Option::Some(s) = shop_id {
        let q = quoted_uuid(s);
        clause.and(Clause::equal("shop_id", q.as_str()));
    }
    if let Option::Some(g) = guest_session_id {
        let q = quoted_uuid(g);
        clause.and(Clause::equal("guest_session_id", q.as_str()));
    }
    clause
}

/// The filter of the user search and of a user's shop listing: by identifier,
/// by name fragment, by both, or no filter at all.
pub fn user_search_clause(id: Option<Key>, name: Option<&str>) -> (c: Clause)
    ensures
        id is None && name is None ==> c is Empty,
        id is Some && name is None ==> c is Entries && c.inner_view() == key_equals(
            "id"@,
            id.unwrap(),
        ),
        id is None && name is Some ==> c is Entries && c.inner_view() == name_like(
            "upper(name)"@,
            name.unwrap()@,
        ),
        id is Some && name is Some ==> c is Entries && c.inner_view() == key_equals(
            "id"@,
            id.unwrap(),
        ) + " AND "@ + name_like("upper(name)"@, name.unwrap()@),
{
    let mut clause = Clause::new();
    if let Option::Some(i) = id {
        let q = quoted_uuid(i);
        clause.and(Clause::equal("id", q.as_str()));
    }
    if let Option::Some(n) = name {
        let p = upper_pattern(n);
        clause.and(Clause::like("upper(name)", p.as_str()));
    }
    clause
}

/// The filter of a shop's product listing: by product key, by name fragment,
/// by both, or no filter at all.
pub fn product_search_clause(key: Option<Key>, name: Option<&str>) -> (c: Clause)
    ensures
        key is None && name is None ==> c is Empty,
        key is Some && name is None ==> c is Entries && c.inner_view() == key_equals(
            "key"@,
            key.unwrap(),
        ),
        key is None && name is Some ==> c is Entries && c.inner_view() == name_like(
            "upper((product).name)"@,
            name.unwrap()@,
        ),
        key is Some && name is Some ==> c is Entries && c.inner_view() == key_equals(
            "key"@,
            key.unwrap(),
        ) + " AND "@ + name_like("upper((product).name)"@, name.unwrap()@),
{
    let mut clause = Clause::new();
    if let Option::Some(k) = key {
        let q = quoted_uuid(k);
        clause.and(Clause::equal("key", q.as_str()));
    }
    if let Option::Some(n) = name {
        let p = upper_pattern(n);
        clause.and(Clause::like("upper((product).name)", p.as_str()));
    }
    clause
}

/// The statement suffix of the shop search: filters by shop identifier and
/// case-folded name fragment, written directly as `WHERE` text.
pub fn shop_search_suffix(id: Option<Key>, name: Option<&str>) -> (s: String)
    ensures
        id is None && name is None ==> s@ == Seq::<char>::empty(),
        id is Some && name is None ==> s@ == " WHERE"@ + " id = "@ + quoted_key(id.unwrap()),
        id is None && name is Some ==> s@ == " WHERE"@ + " name_upper LIKE "@ + upper_like(
            name.unwrap()@,
        ),
        id is Some && name is Some ==> s@ == " WHERE"@ + " id = "@ + quoted_key(id.unwrap())
            + " AND"@ + " name_upper LIKE "@ + upper_like(name.unwrap()@),
{
    let mut s = String::new();
    if let Option::Some(i) = id {
        s.append(" WHERE");
        s.append(" id = ");
        let q = quoted_uuid(i);
        s.append(q.as_str());
    }
    if let Option::Some(n) = name {
        if id.is_none() {
            s.append(" WHERE");
        } else {
            s.append(" AND");
        }
        s.append(" name_upper LIKE ");
        let p = upper_pattern(n);
        s.append(p.as_str());
    }
    s
}

} // verus!
