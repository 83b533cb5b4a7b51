use lithos_core::bank::PropertyBank;
use lithos_core::identifier::{PropertyId, PropertyName};
use lithos_core::property::{Multiplicity, Optionality, Property, PropertySpec};

#[test]
fn insert_is_idempotent_on_identical_name() {
    let mut bank = PropertyBank::new();
    let name = PropertyName::try_new("test").expect("Valid name");
    let prop = Property::new(PropertyId::new().unwrap(), Optionality::Optional, Multiplicity::Single, PropertySpec::string());
    bank.insert(name.clone(), prop.clone());
    bank.insert(name, prop);
    let count = bank.all().len();
    assert_eq!(count, 1, "Expected 1 property after identical inserts");
}

#[test]
fn property_bank_get_and_has() {
    let mut bank = PropertyBank::new();
    let name = PropertyName::try_new("flag").unwrap();
    let prop = Property::new(PropertyId::new().unwrap(), Optionality::Required, Multiplicity::Single, PropertySpec::Bool);
    bank.insert(name.clone(), prop.clone());
    assert!(bank.has(&name));
    assert_eq!(bank.get(&name).map(|p| p.id()), Some(prop.id()));
    assert!(!bank.has(&PropertyName::try_new("missing").unwrap()));
}

fn bank_with_flag() -> PropertyBank {
    let mut bank = PropertyBank::new();
    let name = PropertyName::try_new("flag").expect("Valid name");
    let prop = Property::new(PropertyId::new().unwrap(), Optionality::Required, Multiplicity::Single, PropertySpec::Bool);
    bank.insert(name, prop);
    bank
}

#[test]
fn maintains_name_lookup_for_fast_access() {
    let bank = bank_with_flag();
    let name = PropertyName::try_new("flag").expect("Valid name");
    assert!(bank.get(&name).is_some(), "Registered property should be retrievable by name: 'flag'");
}

#[test]
fn property_bank_has() {
    let bank = bank_with_flag();
    let name = PropertyName::try_new("flag").expect("Valid name");
    assert!(bank.has(&name), "PropertyBank should contain property by name 'flag'");
}

#[test]
fn property_bank_get() {
    let bank = bank_with_flag();
    let name = PropertyName::try_new("flag").expect("Valid name");
    let result = bank.get(&name);
    assert!(result.is_some(), "Get should succeed: {result:?}");
}

fn assert_send<T: Send>() {}

fn assert_sync<T: Sync>() {}

#[test]
fn property_bank_is_send() {
    assert_send::<PropertyBank>();
}

#[test]
fn property_bank_is_sync() {
    assert_sync::<PropertyBank>();
}
