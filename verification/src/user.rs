//! Users, shop membership, and the member-visibility rules.
//!
//! A shop lists its members only to members with some member authority, and
//! discloses the members' own authorities only to holders of full member
//! authority; order queries of a shop are open only to members with some
//! order authority.

use vstd::prelude::*;
use crate::entities::{query_orders, Order, OrderRow};
use crate::error::Error;
use crate::model::{materialize, Key};
use crate::shop::Shop;
use crate::sql::Permission;

verus! {

pub struct User {
    pub id: Key,
    pub username: String,
    pub nickname: Option<String>,
}

impl User {
    pub fn new(id: Key, username: String, nickname: Option<String>) -> (u: User)
        ensures
            u.id == id,
            u.username == username,
            u.nickname == nickname,
    {
        User { id, username, nickname }
    }
}

/// The signed-in user.
pub struct CurrentUser {
    pub id: Key,
    pub username: String,
    pub nickname: Option<String>,
}

impl CurrentUser {
    pub fn new(id: Key, username: String, nickname: Option<String>) -> (u: CurrentUser)
        ensures
            u.id == id,
            u.username == username,
            u.nickname == nickname,
    {
        CurrentUser { id, username, nickname }
    }
}

/// The three authorities a member holds in one shop.
pub struct Authority {
    pub member: Permission,
    pub order: Permission,
    pub product: Permission,
}

impl Authority {
    pub fn new(member: Permission, order: Permission, product: Permission) -> (a: Authority)
        ensures
            a.member == member,
            a.order == order,
            a.product == product,
    {
        Authority { member, order, product }
    }

    pub fn member(&self) -> (r: &Permission)
        ensures
            *r == self.member,
    {
        &self.member
    }

    pub fn order(&self) -> (r: &Permission)
        ensures
            *r == self.order,
    {
        &self.order
    }

    pub fn product(&self) -> (r: &Permission)
        ensures
            *r == self.product,
    {
        &self.product
    }
}

/// One member of a shop. The member's own authorities are present only when
/// the asking member holds full member authority.
pub struct Member {
    pub id: Key,
    pub username: String,
    pub nickname: Option<String>,
    pub authority: Option<Authority>,
}

impl Member {
    pub fn new(id: Key, username: String, nickname: Option<String>, authority: Option<
        Authority,
    >) -> (m: Member)
        ensures
            m.id == id,
            m.username == username,
            m.nickname == nickname,
            m.authority == authority,
    {
        Member { id, username, nickname, authority }
    }

    /// The member's authorities, or an `Unauthorized` error where they were
    /// withheld.
    pub fn authority(&self) -> (r: Result<Option<&Authority>, Error>)
        ensures
            self.authority is None ==> (r matches Err(e) && e.kind_view() == "Unauthorized"@
                && e.message_view() == "Unauthorized."@),
            self.authority is Some ==> (r matches Ok(a) && a matches Some(ar) && *ar
                == self.authority.unwrap()),
    {
        match &self.authority {
            Option::None => Err(Error::unauthorized()),
            Option::Some(a) => Ok(Some(a)),
        }
    }
}

/// One row of the shop-membership join: a user and the authorities they hold.
pub struct MemberRow {
    pub id: Key,
    pub username: String,
    pub nickname: Option<String>,
    pub member_authority: Permission,
    pub order_authority: Permission,
    pub product_authority: Permission,
}

/// How an output member relates to its source row under the asking member's
/// authority: scalar columns are copied, authorities are disclosed only to
/// holders of full member authority.
pub open spec fn member_matches(m: Member, row: MemberRow, asking: Permission) -> bool {
    &&& m.id == row.id
    &&& m.username == row.username
    &&& m.nickname == row.nickname
    &&& if asking is All {
        m.authority == Option::Some(
            Authority {
                member: row.member_authority,
                order: row.order_authority,
                product: row.product_authority,
            },
        )
    } else {
        m.authority is None
    }
}

/// A shop as one of its members sees it: the shop and the authorities the
/// member holds there.
pub struct UserShop {
    pub shop: Shop,
    pub member_authority: Permission,
    pub order_authority: Permission,
    pub product_authority: Permission,
}

impl UserShop {
    pub fn new(
        shop: Shop,
        member_authority: Permission,
        order_authority: Permission,
        product_authority: Permission,
    ) -> (s: UserShop)
        ensures
            s.shop == shop,
            s.member_authority == member_authority,
            s.order_authority == order_authority,
            s.product_authority == product_authority,
    {
        UserShop { shop, member_authority, order_authority, product_authority }
    }

    pub fn id(&self) -> (r: Key)
        ensures
            r == self.shop.id,
    {
        self.shop.id()
    }

    /// The shop's member list, built from the membership rows: refused
    /// outright without member authority, and with each member's authorities
    /// disclosed only to holders of full member authority.
    pub fn members(&self, rows: Vec<MemberRow>) -> (r: Result<Option<Vec<Member>>, Error>)
        ensures
            self.member_authority is NoAccess ==> (r matches Err(e) && e.kind_view()
                == "Unauthorized"@ && e.message_view() == "Unauthorized."@),
            !(self.member_authority is NoAccess) ==> (r matches Ok(o) && o matches Some(ms)
                && ms@.len() == rows@.len() && forall|i: int|
                0 <= i < rows@.len() ==> member_matches(
                    #[trigger] ms@[i],
                    rows@[i],
                    self.member_authority,
                )),
    {
        if let Permission::NoAccess = self.member_authority {
            return Err(Error::unauthorized());
        }
        let ghost all = rows@;
        let mut rows = crate::engine::reversed(rows);
        let mut members: Vec<Member> = Vec::new();
        while rows.len() > 0
            invariant
                members@.len() + rows@.len() == all.len(),
                rows@ == all.subrange(members@.len() as int, all.len() as int).reverse(),
                forall|i: int|
                    0 <= i < members@.len() ==> member_matches(
                        #[trigger] members@[i],
                        all[i],
                        self.member_authority,
                    ),
            decreases rows.len(),
        {
            let row = rows.pop().unwrap();
            proof {
                assert(row == all[members@.len() as int]);
            }
            let authority = if let Permission::All = self.member_authority {
                Some(
                    Authority::new(
                        row.member_authority,
                        row.order_authority,
                        row.product_authority,
                    ),
                )
            } else {
                None
            };
            members.push(Member::new(row.id, row.username, row.nickname, authority));
            proof {
                assert(rows@ =~= all.subrange(members@.len() as int, all.len() as int).reverse());
            }
        }
        Ok(Some(members))
    }

    /// The shop's orders, materialized from the order rows: refused outright
    /// without order authority.
    pub fn orders(&self, rows: Vec<OrderRow>) -> (r: Result<Vec<Order>, Error>)
        ensures
            self.order_authority is NoAccess ==> (r matches Err(e) && e.kind_view()
                == "Unauthorized"@ && e.message_view() == "Unauthorized."@),
            !(self.order_authority is NoAccess) ==> (r matches Ok(os) && os@.map_values(
                |n: Order| n@,
            ) == materialize(rows@)),
    {
        if let Permission::NoAccess = self.order_authority {
            return Err(Error::unauthorized());
        }
        Ok(query_orders(rows))
    }
}

} // verus!
