//! Hierarchical result materialization: rebuilds deduplicated, insertion-ordered
//! entity trees from the flat row streams produced by multi-level outer joins.

pub mod api;
pub mod clause;
pub mod context;
pub mod dict;
pub mod engine;
pub mod entities;
pub mod error;
pub mod ids;
pub mod json;
pub mod laws;
pub mod model;
pub mod queries;
pub mod shop;
pub mod sql;
pub mod state;
pub mod user;

pub use api::{MutationAccount, QueryAccount, QueryGuest, QueryRoot, QueryShop, QueryUser};
pub use clause::Clause;
pub use context::{require_valid_guest_session, Context};
pub use error::{error_for_code, Error, InnerKind};
pub use ids::{quoted_uuid, uuid_hyphenated};
pub use dict::Dict;
pub use engine::{aggregate, LeafNode, MidNode, RootNode};
pub use json::{
    customize_fields, product_fields, products_json_rows, selection_fields, JsonFields,
    JsonProduct, JsonRow, JsonScalar,
};
pub use entities::{
    query_carts, query_orders, shop_products, Cart, CartData, CartRow, CustomizeData,
    CustomizeItemData, Order, OrderData, OrderRow, Product, ProductData, ProductItemData,
    ProductRow, SelectionData, Timestamp,
};
pub use model::{Key, Keyed, SourceRow, SpecLeaf, SpecMid, SpecRoot};
pub use queries::{guest_scope_clause, product_search_clause, shop_search_suffix, user_search_clause};
pub use shop::Shop;
pub use sql::{Authority, AuthorityNN, IntNN, Permission, PermissionNN, TextNN, TextNZ, UuidNN};
pub use state::{DbConnection, DbPool, State};
pub use user::{CurrentUser, Member, MemberRow, User, UserShop};
