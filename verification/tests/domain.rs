use rowtree::{
    error_for_code, query_carts, query_orders, require_valid_guest_session, shop_products,
    CartData, CustomizeData, CustomizeItemData, Error, Keyed, Member, MemberRow, OrderData,
    Permission, ProductData, ProductItemData, SelectionData, Shop, SourceRow, User, UserShop,
};

const SHOP: u128 = 0x51;
const GUEST: u128 = 0x52;
const ORDER1: u128 = 0x01;
const ITEM1: u128 = 0x11;
const CUS1: u128 = 0x21;

fn item_data(name: &str, price: i32) -> ProductItemData {
    ProductItemData {
        product_key: 0x99,
        name: name.to_string(),
        price,
        count: 1,
        remark: None,
        order_at: 1_700_000_000_000,
    }
}

fn cus_data(name: &str) -> CustomizeItemData {
    CustomizeItemData {
        name: name.to_string(),
        selection: Some("large".to_string()),
        selection_key: Some(0x31),
        selection_price: Some(5),
        order_at: 1_700_000_000_000,
    }
}

fn order_row(mid: Option<(u128, &str)>, leaf: Option<(u128, &str)>) -> rowtree::OrderRow {
    SourceRow {
        root_key: ORDER1,
        root: OrderData {
            guest_session_id: GUEST,
            shop_id: SHOP,
            order_number: 7,
            order_at: 1_700_000_000_000,
        },
        mid: mid.map(|(k, n)| Keyed { key: k, data: item_data(n, 120) }),
        leaf: leaf.map(|(k, n)| Keyed { key: k, data: cus_data(n) }),
    }
}

#[test]
fn orders_materialize() {
    let rows = vec![
        order_row(Some((ITEM1, "milk tea")), Some((CUS1, "sugar"))),
        order_row(Some((ITEM1, "ignored")), Some((CUS1, "ignored"))),
    ];
    let out = query_orders(rows);
    assert_eq!(out.len(), 1);
    assert_eq!(out[0].key, ORDER1);
    assert_eq!(out[0].data.order_number, 7);
    assert_eq!(out[0].data.shop_id, SHOP);
    let items = out[0].mids.ref_values();
    assert_eq!(items.len(), 1);
    assert_eq!(items[0].data.name, "milk tea");
    assert_eq!(items[0].data.price, 120);
    let cus = items[0].leaves.ref_values();
    assert_eq!(cus.len(), 1);
    assert_eq!(cus[0].data.name, "sugar");
    assert_eq!(cus[0].data.selection.as_deref(), Some("large"));
}

#[test]
fn carts_materialize() {
    let rows = vec![SourceRow {
        root_key: 0x41,
        root: CartData { shop_id: SHOP, guest_session_id: GUEST },
        mid: Some(Keyed { key: ITEM1, data: item_data("bun", 60) }),
        leaf: None,
    }];
    let out = query_carts(rows);
    assert_eq!(out.len(), 1);
    assert_eq!(out[0].data.guest_session_id, GUEST);
    let items = out[0].mids.ref_values();
    assert_eq!(items.len(), 1);
    assert_eq!(items[0].leaves.ref_values().len(), 0);
}

#[test]
fn products_materialize() {
    let rows = vec![
        SourceRow {
            root_key: 0x61,
            root: ProductData {
                name: "tea".to_string(),
                description: None,
                price: 45,
                series_id: None,
                has_picture: true,
                latest_update: 1_000,
            },
            mid: Some(Keyed {
                key: 0x71,
                data: CustomizeData {
                    name: "size".to_string(),
                    description: Some("cup size".to_string()),
                    latest_update: 1_000,
                },
            }),
            leaf: Some(Keyed {
                key: 0x81,
                data: SelectionData { name: "large".to_string(), price: 10 },
            }),
        },
    ];
    let out = shop_products(rows);
    assert_eq!(out.len(), 1);
    assert_eq!(out[0].data.name, "tea");
    let groups = out[0].mids.ref_values();
    assert_eq!(groups[0].data.name, "size");
    let sels = groups[0].leaves.ref_values();
    assert_eq!(sels[0].data.name, "large");
    assert_eq!(sels[0].data.price, 10);
}

fn member_row(id: u128, name: &str) -> MemberRow {
    MemberRow {
        id,
        username: name.to_string(),
        nickname: None,
        member_authority: Permission::ReadOnly,
        order_authority: Permission::All,
        product_authority: Permission::NoAccess,
    }
}

fn user_shop(member: Permission, order: Permission) -> UserShop {
    UserShop::new(
        Shop::new(SHOP, "corner shop".to_string(), 2_000),
        member,
        order,
        Permission::NoAccess,
    )
}

#[test]
fn members_refused_without_authority() {
    let us = user_shop(Permission::NoAccess, Permission::NoAccess);
    let r = us.members(vec![member_row(1, "ann")]);
    match r {
        Err(e) => assert_eq!(e.kind().as_str(), "Unauthorized"),
        Ok(_) => panic!(),
    }
}

#[test]
fn members_readonly_hides_authorities() {
    let us = user_shop(Permission::ReadOnly, Permission::NoAccess);
    let ms = us.members(vec![member_row(1, "ann"), member_row(2, "bob")]).unwrap().unwrap();
    assert_eq!(ms.len(), 2);
    assert_eq!(ms[0].username, "ann");
    assert!(ms[0].authority.is_none());
    assert!(ms[1].authority.is_none());
}

#[test]
fn members_all_discloses_authorities() {
    let us = user_shop(Permission::All, Permission::NoAccess);
    let ms = us.members(vec![member_row(1, "ann")]).unwrap().unwrap();
    let a = ms[0].authority.as_ref().unwrap();
    assert!(matches!(a.member, Permission::ReadOnly));
    assert!(matches!(a.order, Permission::All));
    assert!(matches!(a.product, Permission::NoAccess));
}

#[test]
fn member_authority_gate() {
    let m = Member::new(1, "ann".to_string(), None, None);
    match m.authority() {
        Err(e) => assert_eq!(e.kind().as_str(), "Unauthorized"),
        Ok(_) => panic!(),
    }
}

#[test]
fn orders_refused_without_authority() {
    let us = user_shop(Permission::All, Permission::NoAccess);
    match us.orders(vec![]) {
        Err(e) => assert_eq!(e.kind().as_str(), "Unauthorized"),
        Ok(_) => panic!(),
    }
    let us = user_shop(Permission::NoAccess, Permission::ReadOnly);
    assert!(us.orders(vec![]).unwrap().is_empty());
}

#[test]
fn permission_grants_access() {
    assert!(!Permission::NoAccess.grants_access());
    assert!(Permission::ReadOnly.grants_access());
    assert!(Permission::All.grants_access());
}

#[test]
fn user_constructors() {
    let u = User::new(3, "carl".to_string(), Some("c".to_string()));
    assert_eq!(u.id, 3);
    assert_eq!(u.nickname.as_deref(), Some("c"));
    let s = Shop::new(SHOP, "corner shop".to_string(), 2_000);
    assert_eq!(s.id(), SHOP);
    assert_eq!(s.latest_update, 2_000);
}

#[test]
fn error_for_code_session_codes() {
    let e = error_for_code(Some("C2002".to_string()));
    assert_eq!(e.kind().as_str(), "SessionExpired");
    assert_eq!(e.message().as_str(), "Session for cookie \"USSID\" has expired.");
    assert!(!e.is_inner());
    let e = error_for_code(Some("C3001".to_string()));
    assert_eq!(e.message().as_str(), "Session for cookie \"GSSID\" has expired.");
}

#[test]
fn error_for_code_other_is_internal() {
    let e = error_for_code(Some("42P01".to_string()));
    assert_eq!(e.kind().as_str(), "InternalServerError");
    assert_eq!(e.message().as_str(), "Internal server error.");
    assert!(e.is_inner());
    let e = error_for_code(None);
    assert!(e.is_inner());
}

#[test]
fn error_constructors() {
    let e = Error::unauthorized();
    assert_eq!(e.kind().as_str(), "Unauthorized");
    assert_eq!(e.message().as_str(), "Unauthorized.");
    let e = Error::no_valid_cookie("GSSID");
    assert_eq!(e.kind().as_str(), "NoValidCookie");
    assert_eq!(e.message().as_str(), "Missing or invalid cookie \"GSSID\" in request.");
    let e = Error::session_expired("USSID");
    assert_eq!(e.kind().as_str(), "SessionExpired");
}

#[test]
fn guest_session_gate() {
    assert!(require_valid_guest_session(true).is_ok());
    match require_valid_guest_session(false) {
        Err(e) => {
            assert_eq!(e.kind().as_str(), "SessionExpired");
            assert_eq!(e.message().as_str(), "Session for cookie \"GSSID\" has expired.");
        },
        Ok(_) => panic!(),
    }
}
