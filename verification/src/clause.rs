//! SQL `WHERE` clause assembly.
//!
//! A `Clause` is either empty, a chain of conditions, or a parenthesized
//! chain; conditions are appended with `AND` / `OR`. The clause renders to the
//! empty string or to a leading <code> WHERE …</code> suffix.

use vstd::prelude::*;
use vstd::string::StringExecFns;

verus! {

pub enum Clause {
    Empty,
    Entries(String),
    Parentheses(String),
}

impl Clause {
    /// The condition text, without the ` WHERE ` prefix.
    pub open spec fn inner_view(&self) -> Seq<char> {
        match *self {
            Clause::Empty => Seq::<char>::empty(),
            Clause::Entries(s) => s@,
            Clause::Parentheses(s) => s@,
        }
    }

    pub fn new() -> (c: Self)
        ensures
            c is Empty,
    {
        Clause::Empty
    }

    /// The condition `left = right`.
    pub fn equal(left: &str, right: &str) -> (c: Self)
        ensures
            c is Entries,
            c.inner_view() == left@ + " = "@ + right@,
    {
        let mut s = String::from_str(left);
        s.append(" = ");
        s.append(right);
        Clause::Entries(s)
    }

    /// The condition `left LIKE right`.
    pub fn like(left: &str, right: &str) -> (c: Self)
        ensures
            c is Entries,
            c.inner_view() == left@ + " LIKE "@ + right@,
    {
        let mut s = String::from_str(left);
        s.append(" LIKE ");
        s.append(right);
        Clause::Entries(s)
    }

    /// The condition text of a non-empty clause.
    pub fn inner(&self) -> (r: &String)
        requires
            !(self is Empty),
        ensures
            r@ == self.inner_view(),
    {
        match self {
            Clause::Empty => unreached(),
            Clause::Entries(inner) => inner,
            Clause::Parentheses(inner) => inner,
        }
    }

    /// Wraps a condition chain in parentheses; empty and already-parenthesized
    /// clauses are left alone.
    pub fn parentheses(&mut self)
        ensures
            *old(self) is Entries ==> (*final(self) matches Clause::Parentheses(s) && s@ == "("@
                + old(self).inner_view() + ")"@),
            !(*old(self) is Entries) ==> *final(self) == *old(self),
    {
        match self {
            Clause::Entries(inner) => {
                let mut s = String::from_str("(");
                s.append(inner.as_str());
                s.append(")");
                *self = Clause::Parentheses(s);
            },
            Clause::Empty => {},
            Clause::Parentheses(_) => {},
        }
    }

    /// Appends a condition with `AND`; an empty clause is replaced by the
    /// appended one.
    pub fn and(&mut self, clause: Clause)
        requires
            *old(self) is Empty || !(clause is Empty),
        ensures
            *old(self) is Empty ==> *final(self) == clause,
            !(*old(self) is Empty) ==> (*final(self) matches Clause::Entries(s) && s@ == old(
                self,
            ).inner_view() + " AND "@ + clause.inner_view()),
    {
        match self {
            Clause::Empty => {
                *self = clause;
            },
            Clause::Entries(inner) => {
                let mut s = String::from_str(inner.as_str());
                s.append(" AND ");
                s.append(clause.inner().as_str());
                *self = Clause::Entries(s);
            },
            Clause::Parentheses(inner) => {
                let mut s = String::from_str(inner.as_str());
                s.append(" AND ");
                s.append(clause.inner().as_str());
                *self = Clause::Entries(s);
            },
        }
    }

    /// Appends a condition with `OR`; an empty clause is replaced by the
    /// appended one.
    pub fn or(&mut self, clause: Clause)
        requires
            *old(self) is Empty || !(clause is Empty),
        ensures
            *old(self) is Empty ==> *final(self) == clause,
            !(*old(self) is Empty) ==> (*final(self) matches Clause::Entries(s) && s@ == old(
                self,
            ).inner_view() + " OR "@ + clause.inner_view()),
    {
        match self {
            Clause::Empty => {
                *self = clause;
            },
            Clause::Entries(inner) => {
                let mut s = String::from_str(inner.as_str());
                s.append(" OR ");
                s.append(clause.inner().as_str());
                *self = Clause::Entries(s);
            },
            Clause::Parentheses(inner) => {
                let mut s = String::from_str(inner.as_str());
                s.append(" OR ");
                s.append(clause.inner().as_str());
                *self = Clause::Entries(s);
            },
        }
    }

    /// The clause as a statement suffix: empty, or ` WHERE ` followed by the
    /// conditions.
    pub fn where_sql(&self) -> (s: String)
        ensures
            self is Empty ==> s@ == Seq::<char>::empty(),
            !(self is Empty) ==> s@ == " WHERE "@ + self.inner_view(),
    {
        match self {
            Clause::Empty => String::new(),
            Clause::Entries(inner) => {
                let mut s = String::from_str(" WHERE ");
                s.append(inner.as_str());
                s
            },
            Clause::Parentheses(inner) => {
                let mut s = String::from_str(" WHERE ");
                s.append(inner.as_str());
                s
            },
        }
    }
}

} // verus!
