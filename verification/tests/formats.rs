use lithos_core::formats::StringFormat;

#[test]
fn email_format_has_correct_pattern() {
    assert_eq!(StringFormat::Email.pattern(), r"^[^@]+@[^@]+\.[^@]+$");
}

#[test]
fn url_format_has_correct_pattern() {
    assert_eq!(StringFormat::Url.pattern(), r"^https?://[^\s/$.?#].[^\s]*$");
}

#[test]
fn phone_us_format_has_correct_pattern() {
    assert_eq!(
        StringFormat::PhoneUs.pattern(),
        r"^\+?1?[-.\s]?\(?([0-9]{3})\)?[-.\s]?([0-9]{3})[-.\s]?([0-9]{4})$"
    );
}

#[test]
fn slug_format_has_correct_pattern() {
    assert_eq!(StringFormat::Slug.pattern(), "^[a-z0-9]+(-[a-z0-9]+)*$");
}

#[test]
fn uuid_v4_format_has_correct_pattern() {
    assert_eq!(
        StringFormat::UuidV4.pattern(),
        "^[0-9a-f]{8}-[0-9a-f]{4}-4[0-9a-f]{3}-[89ab][0-9a-f]{3}-[0-9a-f]{12}$"
    );
}

#[test]
fn wikilink_format_has_correct_pattern() {
    assert_eq!(StringFormat::WikiLink.pattern(), r"^\[\[([^\]|]+)(\|[^\]]+)?\]\]$");
}

#[test]
fn zipcode_format_has_correct_pattern() {
    assert_eq!(StringFormat::ZipCode.pattern(), r"^\d{5}(-\d{4})?$");
}

#[test]
fn format_name_matches_serde_representation() {
    assert_eq!(StringFormat::Email.name(), "email");
    assert_eq!(StringFormat::PhoneUs.name(), "phone_us");
}

#[test]
fn format_display_uses_name() {
    assert_eq!(StringFormat::Email.to_text(), "email");
    assert_eq!(StringFormat::Slug.to_text(), "slug");
}
