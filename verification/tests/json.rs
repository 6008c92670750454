use rowtree::{
    aggregate, products_json_rows, CustomizeData, JsonScalar, Keyed, ProductData, SelectionData,
    SourceRow,
};

fn product_row() -> rowtree::ProductRow {
    SourceRow {
        root_key: 0x61,
        root: ProductData {
            name: "tea".to_string(),
            description: Some("green".to_string()),
            price: 45,
            series_id: Some(0x123e4567e89b12d3a456426614174000),
            has_picture: false,
            latest_update: 3_000,
        },
        mid: Some(Keyed {
            key: 0x71,
            data: CustomizeData {
                name: "size".to_string(),
                description: None,
                latest_update: 3_000,
            },
        }),
        leaf: Some(Keyed {
            key: 0x81,
            data: SelectionData { name: "large".to_string(), price: 10 },
        }),
    }
}

fn text(v: &JsonScalar) -> &str {
    match v {
        JsonScalar::Text(s) => s.as_str(),
        _ => panic!("not a text scalar"),
    }
}

#[test]
fn product_fields_shape() {
    let rows = products_json_rows(vec![product_row()]);
    assert_eq!(rows.len(), 1);
    let fs = &rows[0].root;
    assert_eq!(fs.len(), 6);
    assert_eq!(fs[0].0, "name");
    assert_eq!(text(&fs[0].1), "tea");
    assert_eq!(fs[1].0, "description");
    assert_eq!(text(&fs[1].1), "green");
    assert_eq!(fs[2].0, "price");
    assert!(matches!(fs[2].1, JsonScalar::Int(45)));
    assert_eq!(fs[3].0, "series_id");
    assert_eq!(text(&fs[3].1), "123e4567-e89b-12d3-a456-426614174000");
    assert_eq!(fs[4].0, "has_picture");
    assert!(matches!(fs[4].1, JsonScalar::Bool(false)));
    assert_eq!(fs[5].0, "latest_update");
    assert!(matches!(fs[5].1, JsonScalar::Time(3_000)));
}

#[test]
fn customize_and_selection_fields_shape() {
    let rows = products_json_rows(vec![product_row()]);
    let mid = rows[0].mid.as_ref().unwrap();
    assert_eq!(mid.key, 0x71);
    assert_eq!(mid.data.len(), 3);
    assert_eq!(mid.data[0].0, "name");
    assert_eq!(text(&mid.data[0].1), "size");
    assert_eq!(mid.data[1].0, "description");
    assert!(matches!(mid.data[1].1, JsonScalar::Null));
    assert_eq!(mid.data[2].0, "latest_update");
    let leaf = rows[0].leaf.as_ref().unwrap();
    assert_eq!(leaf.key, 0x81);
    assert_eq!(leaf.data.len(), 2);
    assert_eq!(leaf.data[0].0, "name");
    assert_eq!(text(&leaf.data[0].1), "large");
    assert_eq!(leaf.data[1].0, "price");
    assert!(matches!(leaf.data[1].1, JsonScalar::Int(10)));
}

#[test]
fn json_variant_groups_like_typed_variant() {
    // same product twice with a second selection: one node, one group, two leaves
    let mut second = product_row();
    second.leaf = Some(Keyed {
        key: 0x82,
        data: SelectionData { name: "small".to_string(), price: 0 },
    });
    let out = aggregate(products_json_rows(vec![product_row(), second]));
    assert_eq!(out.len(), 1);
    let groups = out[0].mids.ref_values();
    assert_eq!(groups.len(), 1);
    let sels = groups[0].leaves.ref_values();
    assert_eq!(sels.len(), 2);
    assert_eq!(sels[0].key, 0x81);
    assert_eq!(sels[1].key, 0x82);
}
