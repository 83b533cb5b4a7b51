use lithos_core::bank::PropertyBank;
use lithos_core::error::{PropertyRefError, SchemaError};
use lithos_core::expander::RefExpander;
use lithos_core::identifier::{PropertyId, PropertyName};
use lithos_core::dereferencer::Dereferencer;
use lithos_core::property::{
    DateSpec, FileSpec, Multiplicity, OptionList, OptionStyle, Optionality, Property, PropertySpec, StringOptions,
    StringSpec,
};
use lithos_core::raw::{RawDateSpec, RawFileSpec, RawNumberSpec, RawOptions, RawPropertyRef, RawStringSpec};

const TEST_PROPERTY_ID: u128 = 0x018C_0000_0000_7000_8000_0000_0000_0F01;

fn bank_with_status() -> Result<PropertyBank, SchemaError> {
    let mut bank = PropertyBank::new();
    bank.insert(
        PropertyName::try_new("status")?,
        Property::new(PropertyId::from_u128(TEST_PROPERTY_ID), Optionality::Required, Multiplicity::Single, PropertySpec::Bool),
    );
    Ok(bank)
}

fn ref_with_overrides(ref_path: &str, required: Option<bool>, multi: Option<bool>) -> RawPropertyRef {
    RawPropertyRef {
        ref_path: ref_path.into(),
        required,
        multi,
        number: RawNumberSpec { has_min: false, has_max: false, has_step: false },
        string: RawStringSpec { options: None, pattern: None },
        date: RawDateSpec { format: None },
        file: RawFileSpec { directory: None, file_class: None },
    }
}

fn ref_entry(ref_path: &str) -> RawPropertyRef {
    ref_with_overrides(ref_path, None, None)
}

#[test]
fn expander_ref_resolves_from_bank() -> Result<(), SchemaError> {
    let bank = bank_with_status()?;
    let expander = RefExpander::new(&bank);
    let name = PropertyName::try_new("alias")?;
    let refs = vec![(name.clone(), ref_entry("#property_bank/status"))];
    let expanded_props = expander.expand_properties(&refs)?;
    assert!(expanded_props.has(&name));
    Ok(())
}

#[test]
fn ref_overrides_optionality_and_multiplicity() -> Result<(), SchemaError> {
    let bank = bank_with_status()?;
    let expander = RefExpander::new(&bank);
    let name = PropertyName::try_new("status")?;
    let refs = vec![(name.clone(), ref_with_overrides("#property_bank/status", Some(false), Some(true)))];
    let expanded_props = expander.expand_properties(&refs)?;
    let prop = expanded_props.get(&name).expect("expanded property exists");
    assert_eq!(prop.optionality(), Optionality::Optional);
    assert_eq!(prop.multiplicity(), Multiplicity::Many);
    Ok(())
}

#[test]
fn expander_ref_type_mismatch_returns_error() {
    let bank = bank_with_status().expect("valid bank");
    let expander = RefExpander::new(&bank);
    let mut entry = ref_entry("#property_bank/status");
    entry.number = RawNumberSpec { has_min: true, has_max: false, has_step: false };
    let name = PropertyName::try_new("status").expect("valid name");
    let result = expander.expand_properties(&vec![(name, entry)]);
    assert!(
        matches!(result, Err(SchemaError::PropertyRef(PropertyRefError::TypeMismatch { .. }))),
        "Expected PropertyRef::TypeMismatch, got: {result:?}"
    );
}

#[test]
fn expander_ref_missing_in_bank_returns_error() {
    let bank = PropertyBank::new();
    let expander = RefExpander::new(&bank);
    let name = PropertyName::try_new("missing").expect("valid name");
    let result = expander.expand_properties(&vec![(name, ref_entry("#property_bank/missing"))]);
    assert!(
        matches!(result, Err(SchemaError::PropertyRef(PropertyRefError::TargetPropertyNotFoundInBank { .. }))),
        "Expected PropertyRef::TargetPropertyNotFoundInBank, got: {result:?}"
    );
}

#[test]
fn malformed_reference_is_rejected() {
    let bank = bank_with_status().unwrap();
    let expander = RefExpander::new(&bank);
    let name = PropertyName::try_new("status").unwrap();
    let result = expander.expand_properties(&vec![(name, ref_entry("bank/status"))]);
    assert_eq!(
        result.unwrap_err(),
        SchemaError::PropertyRef(PropertyRefError::MalformedBankReferencePath { reference: "bank/status".into() })
    );
}

#[test]
fn same_kind_overrides_replace_the_given_constraints() {
    let base = PropertySpec::String(StringSpec { options: None, pattern: Some("^a".into()) });
    let mut entry = ref_entry("#property_bank/title");
    entry.string.options = Some(RawOptions::Plain(vec!["x".into(), "y".into()]));
    let name = PropertyName::try_new("title").unwrap();
    let expected = PropertySpec::String(StringSpec {
        options: Some(StringOptions {
            style: OptionStyle::Plain,
            entries: OptionList::Entry(
                "x".into(),
                None,
                Box::new(OptionList::Entry("y".into(), None, Box::new(OptionList::End))),
            ),
        }),
        pattern: Some("^a".into()),
    });
    assert_eq!(RefExpander::spec(base.clone(), &name, &entry).unwrap(), expected);
    assert_eq!(Dereferencer::apply_spec_overrides(base, &entry).unwrap(), expected);

    let mut dated = ref_entry("#property_bank/due");
    dated.date.format = Some("%Y".into());
    let date = PropertySpec::Date(DateSpec { format: Some("%d".into()) });
    assert_eq!(
        Dereferencer::apply_spec_overrides(date, &dated).unwrap(),
        PropertySpec::Date(DateSpec { format: Some("%Y".into()) })
    );

    let mut filed = ref_entry("#property_bank/doc");
    filed.file.file_class = Some("note".into());
    let file = PropertySpec::File(FileSpec { directory: Some("notes".into()), file_class: None });
    assert_eq!(
        Dereferencer::apply_spec_overrides(file, &filed).unwrap(),
        PropertySpec::File(FileSpec { directory: Some("notes".into()), file_class: Some("note".into()) })
    );
}

#[test]
fn empty_options_override_nothing_when_expanding() {
    let base = PropertySpec::String(StringSpec { options: None, pattern: None });
    let mut entry = ref_entry("#property_bank/title");
    entry.string.options = Some(RawOptions::Plain(Vec::new()));
    let name = PropertyName::try_new("title").unwrap();
    assert_eq!(RefExpander::spec(base.clone(), &name, &entry).unwrap(), base);
}
