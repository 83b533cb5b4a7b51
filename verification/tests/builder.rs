use lithos_core::builder::{route, BuildRoute, Builder};
use lithos_core::identifier::PropertyName;

#[test]
fn load_routes_by_schemas_and_graph() {
    assert_eq!(route(false, true), BuildRoute::NoSchemas);
    assert_eq!(route(true, false), BuildRoute::AllMissing);
    assert_eq!(route(true, true), BuildRoute::HasPresent);
}

#[test]
fn builder_remembers_bank_delta() {
    let mut b = Builder::new();
    assert!(b.property_bank_delta().is_none());
    b.set_property_bank_delta(Some(vec![PropertyName::try_new("title").unwrap()]));
    assert_eq!(b.property_bank_delta().map(|v| v.len()), Some(1));
    b.set_property_bank_delta(None);
    assert!(b.property_bank_delta().is_none());
}
