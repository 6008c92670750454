//! Typed instancings of the generic aggregation engine.
//!
//! Each query shape of the catalog (orders, carts, a shop's products) is the
//! generic three-level engine applied to its own per-level column payloads.
//! The row values are handed in by the caller, which owns the join query; the
//! keys are the identifiers of the row source, carried as 128-bit values.

use vstd::prelude::*;
use crate::engine::{aggregate, RootNode};
use crate::model::{materialize, Key, SourceRow};

verus! {

/// A point in time, in milliseconds since the epoch.
pub type Timestamp = i64;

/// Root columns of an order row.
pub struct OrderData {
    pub guest_session_id: Key,
    pub shop_id: Key,
    pub order_number: i32,
    pub order_at: Timestamp,
}

/// Root columns of a cart row.
pub struct CartData {
    pub shop_id: Key,
    pub guest_session_id: Key,
}

/// Mid columns of an order or cart row: one purchased product.
pub struct ProductItemData {
    pub product_key: Key,
    pub name: String,
    pub price: i32,
    pub count: i32,
    pub remark: Option<String>,
    pub order_at: Timestamp,
}

/// Leaf columns of an order or cart row: one customization choice.
pub struct CustomizeItemData {
    pub name: String,
    pub selection: Option<String>,
    pub selection_key: Option<Key>,
    pub selection_price: Option<i32>,
    pub order_at: Timestamp,
}

/// Root columns of a shop-product row.
pub struct ProductData {
    pub name: String,
    pub description: Option<String>,
    pub price: i32,
    pub series_id: Option<Key>,
    pub has_picture: bool,
    pub latest_update: Timestamp,
}

/// Mid columns of a shop-product row: one customization group.
pub struct CustomizeData {
    pub name: String,
    pub description: Option<String>,
    pub latest_update: Timestamp,
}

/// Leaf columns of a shop-product row: one selectable option.
pub struct SelectionData {
    pub name: String,
    pub price: i32,
}

pub type OrderRow = SourceRow<OrderData, ProductItemData, CustomizeItemData>;

pub type CartRow = SourceRow<CartData, ProductItemData, CustomizeItemData>;

pub type ProductRow = SourceRow<ProductData, CustomizeData, SelectionData>;

/// An order with its product items and their customizations.
pub type Order = RootNode<OrderData, ProductItemData, CustomizeItemData>;

/// A cart with its product items and their customizations.
pub type Cart = RootNode<CartData, ProductItemData, CustomizeItemData>;

/// A product with its customization groups and their selections.
pub type Product = RootNode<ProductData, CustomizeData, SelectionData>;

/// Materializes the order rows of one result set into ordered orders.
pub fn query_orders(rows: Vec<OrderRow>) -> (out: Vec<Order>)
    ensures
        out@.map_values(|n: Order| n@) == materialize(rows@),
        forall|i: int| 0 <= i < out@.len() ==> (#[trigger] out@[i]).wf(),
{
    aggregate(rows)
}

/// Materializes the cart rows of one result set into ordered carts.
pub fn query_carts(rows: Vec<CartRow>) -> (out: Vec<Cart>)
    ensures
        out@.map_values(|n: Cart| n@) == materialize(rows@),
        forall|i: int| 0 <= i < out@.len() ==> (#[trigger] out@[i]).wf(),
{
    aggregate(rows)
}

/// Materializes the product rows of one shop into ordered products.
pub fn shop_products(rows: Vec<ProductRow>) -> (out: Vec<Product>)
    ensures
        out@.map_values(|n: Product| n@) == materialize(rows@),
        forall|i: int| 0 <= i < out@.len() ==> (#[trigger] out@[i]).wf(),
{
    aggregate(rows)
}

} // verus!
