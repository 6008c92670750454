//! The schema-less materialization variant.
//!
//! The same three-level engine, with each entity a generic ordered mapping of
//! field name to scalar value instead of a fixed struct. Nesting comes from
//! the engine's own child containers, so every node owns its (initially
//! empty) children mapping from the moment it is built; the serialization
//! boundary belongs to the caller.

use vstd::prelude::*;
use vstd::string::StringExecFns;
use crate::engine::RootNode;
use crate::entities::{CustomizeData, ProductData, ProductRow, SelectionData, Timestamp};
use crate::ids::{spec_uuid_str, uuid_hyphenated};
use crate::model::{Keyed, SourceRow};

verus! {

/// One scalar JSON-like value.
pub enum JsonScalar {
    Null,
    Bool(bool),
    Int(i64),
    Text(String),
    Time(Timestamp),
}

/// An ordered mapping of field name to scalar value: one schema-less entity.
pub type JsonFields = Vec<(String, JsonScalar)>;

/// A product row with every payload turned into its schema-less form.
pub type JsonRow = SourceRow<JsonFields, JsonFields, JsonFields>;

/// A schema-less product tree, as the engine materializes it.
pub type JsonProduct = RootNode<JsonFields, JsonFields, JsonFields>;

/// The scalar form of an optional text column.
pub open spec fn opt_text(o: Option<String>) -> JsonScalar {
    match o {
        Option::None => JsonScalar::Null,
        Option::Some(s) => JsonScalar::Text(s),
    }
}

/// What the schema-less form of a product's own columns holds.
pub open spec fn product_fields_match(fs: Seq<(String, JsonScalar)>, d: ProductData) -> bool {
    &&& fs.len() == 6
    &&& fs[0].0@ == "name"@ && fs[0].1 == JsonScalar::Text(d.name)
    &&& fs[1].0@ == "description"@ && fs[1].1 == opt_text(d.description)
    &&& fs[2].0@ == "price"@ && fs[2].1 == JsonScalar::Int(d.price as i64)
    &&& fs[3].0@ == "series_id"@ && (match d.series_id {
        Option::None => fs[3].1 == JsonScalar::Null,
        Option::Some(k) => fs[3].1 matches JsonScalar::Text(t) && t@ == spec_uuid_str(k),
    })
    &&& fs[4].0@ == "has_picture"@ && fs[4].1 == JsonScalar::Bool(d.has_picture)
    &&& fs[5].0@ == "latest_update"@ && fs[5].1 == JsonScalar::Time(d.latest_update)
}

/// What the schema-less form of a customization group's columns holds.
pub open spec fn customize_fields_match(fs: Seq<(String, JsonScalar)>, d: CustomizeData) -> bool {
    &&& fs.len() == 3
    &&& fs[0].0@ == "name"@ && fs[0].1 == JsonScalar::Text(d.name)
    &&& fs[1].0@ == "description"@ && fs[1].1 == opt_text(d.description)
    &&& fs[2].0@ == "latest_update"@ && fs[2].1 == JsonScalar::Time(d.latest_update)
}

/// What the schema-less form of a selection's columns holds.
pub open spec fn selection_fields_match(fs: Seq<(String, JsonScalar)>, d: SelectionData) -> bool {
    &&& fs.len() == 2
    &&& fs[0].0@ == "name"@ && fs[0].1 == JsonScalar::Text(d.name)
    &&& fs[1].0@ == "price"@ && fs[1].1 == JsonScalar::Int(d.price as i64)
}

/// Writes a product's own columns as a schema-less entity.
pub fn product_fields(d: ProductData) -> (fs: JsonFields)
    ensures
        product_fields_match(fs@, d),
{
    let mut fs: JsonFields = Vec::new();
    fs.push((String::from_str("name"), JsonScalar::Text(d.name)));
    fs.push(
        (
            String::from_str("description"),
            match d.description {
                Option::None => JsonScalar::Null,
                Option::Some(s) => JsonScalar::Text(s),
            },
        ),
    );
    fs.push((String::from_str("price"), JsonScalar::Int(d.price as i64)));
    fs.push(
        (
            String::from_str("series_id"),
            match d.series_id {
                Option::None => JsonScalar::Null,
                Option::Some(k) => JsonScalar::Text(uuid_hyphenated(k)),
            },
        ),
    );
    fs.push((String::from_str("has_picture"), JsonScalar::Bool(d.has_picture)));
    fs.push((String::from_str("latest_update"), JsonScalar::Time(d.latest_update)));
    fs
}

/// Writes a customization group's columns as a schema-less entity.
pub fn customize_fields(d: CustomizeData) -> (fs: JsonFields)
    ensures
        customize_fields_match(fs@, d),
{
    let mut fs: JsonFields = Vec::new();
    fs.push((String::from_str("name"), JsonScalar::Text(d.name)));
    fs.push(
        (
            String::from_str("description"),
            match d.description {
                Option::None => JsonScalar::Null,
                Option::Some(s) => JsonScalar::Text(s),
            },
        ),
    );
    fs.push((String::from_str("latest_update"), JsonScalar::Time(d.latest_update)));
    fs
}

/// Writes a selection's columns as a schema-less entity.
pub fn selection_fields(d: SelectionData) -> (fs: JsonFields)
    ensures
        selection_fields_match(fs@, d),
{
    let mut fs: JsonFields = Vec::new();
    fs.push((String::from_str("name"), JsonScalar::Text(d.name)));
    fs.push((String::from_str("price"), JsonScalar::Int(d.price as i64)));
    fs
}

/// How a schema-less row relates to the typed product row it was made from:
/// same keys at every level, payloads in their schema-less form.
pub open spec fn json_row_matches(j: JsonRow, r: ProductRow) -> bool {
    &&& j.root_key == r.root_key
    &&& product_fields_match(j.root@, r.root)
    &&& (match r.mid {
        Option::None => j.mid is None,
        Option::Some(km) => j.mid matches Some(jm) && jm.key == km.key && customize_fields_match(
            jm.data@,
            km.data,
        ),
    })
    &&& (match r.leaf {
        Option::None => j.leaf is None,
        Option::Some(kl) => j.leaf matches Some(jl) && jl.key == kl.key
            && selection_fields_match(jl.data@, kl.data),
    })
}

/// Turns typed product rows into their schema-less form, row by row, keys and
/// absent branches kept as they are.
pub fn products_json_rows(rows: Vec<ProductRow>) -> (out: Vec<JsonRow>)
    ensures
        out@.len() == rows@.len(),
        forall|i: int| 0 <= i < rows@.len() ==> json_row_matches(#[trigger] out@[i], rows@[i]),
{
    let ghost all = rows@;
    let mut rows = crate::engine::reversed(rows);
    let mut out: Vec<JsonRow> = Vec::new();
    while rows.len() > 0
        invariant
            out@.len() + rows@.len() == all.len(),
            rows@ == all.subrange(out@.len() as int, all.len() as int).reverse(),
            forall|i: int| 0 <= i < out@.len() ==> json_row_matches(#[trigger] out@[i], all[i]),
        decreases rows.len(),
    {
        let r = rows.pop().unwrap();
        proof {
            assert(r == all[out@.len() as int]);
        }
        let mid = match r.mid {
            Option::None => Option::None,
            Option::Some(km) => Option::Some(
                Keyed { key: km.key, data: customize_fields(km.data) },
            ),
        };
        let leaf = match r.leaf {
            Option::None => Option::None,
            Option::Some(kl) => Option::Some(
                Keyed { key: kl.key, data: selection_fields(kl.data) },
            ),
        };
        out.push(
            SourceRow { root_key: r.root_key, root: product_fields(r.root), mid, leaf },
        );
        proof {
            assert(rows@ =~= all.subrange(out@.len() as int, all.len() as int).reverse());
        }
    }
    out
}

} // verus!
