//! Named string formats: validation patterns users refer to by name
//! (`"email"`, `"url"`, ...) instead of writing raw regular expressions.

use vstd::prelude::*;

use crate::text::copy_text;

verus! {

/// Named string formats for common validation patterns.
#[derive(Debug, Clone, Copy, PartialEq, Eq, Structural, Hash)]
pub enum StringFormat {
    /// Email address validation (RFC 5322 simplified).
    Email,
    /// URL validation (HTTP/HTTPS).
    Url,
    /// US phone number validation.
    PhoneUs,
    /// Slug validation (kebab-case).
    Slug,
    /// UUID v4 validation.
    UuidV4,
    /// `WikiLink` validation (Obsidian-style).
    WikiLink,
    /// US ZIP code validation (5 or 9 digits).
    ZipCode,
}

/// The regular expression of each format.
pub open spec fn format_pattern(f: StringFormat) -> Seq<char> {
    match f {
        StringFormat::Email => r"^[^@]+@[^@]+\.[^@]+$"@,
        StringFormat::Url => r"^https?://[^\s/$.?#].[^\s]*$"@,
        StringFormat::PhoneUs => r"^\+?1?[-.\s]?\(?([0-9]{3})\)?[-.\s]?([0-9]{3})[-.\s]?([0-9]{4})$"@,
        StringFormat::Slug => "^[a-z0-9]+(-[a-z0-9]+)*$"@,
        StringFormat::UuidV4 => "^[0-9a-f]{8}-[0-9a-f]{4}-4[0-9a-f]{3}-[89ab][0-9a-f]{3}-[0-9a-f]{12}$"@,
        StringFormat::WikiLink => r"^\[\[([^\]|]+)(\|[^\]]+)?\]\]$"@,
        StringFormat::ZipCode => r"^\d{5}(-\d{4})?$"@,
    }
}

/// The name of each format, as it is written in schema files.
pub open spec fn format_name(f: StringFormat) -> Seq<char> {
    match f {
        StringFormat::Email => "email"@,
        StringFormat::Url => "url"@,
        StringFormat::PhoneUs => "phone_us"@,
        StringFormat::Slug => "slug"@,
        StringFormat::UuidV4 => "uuid_v4"@,
        StringFormat::WikiLink => "wikilink"@,
        StringFormat::ZipCode => "zipcode"@,
    }
}

impl StringFormat {
    /// The regular expression for this format.
    pub fn pattern(self) -> (s: &'static str)
        ensures
            s@ == format_pattern(self),
    {
        match self {
            StringFormat::Email => r"^[^@]+@[^@]+\.[^@]+$",
            StringFormat::Url => r"^https?://[^\s/$.?#].[^\s]*$",
            StringFormat::PhoneUs => r"^\+?1?[-.\s]?\(?([0-9]{3})\)?[-.\s]?([0-9]{3})[-.\s]?([0-9]{4})$",
            StringFormat::Slug => "^[a-z0-9]+(-[a-z0-9]+)*$",
            StringFormat::UuidV4 => "^[0-9a-f]{8}-[0-9a-f]{4}-4[0-9a-f]{3}-[89ab][0-9a-f]{3}-[0-9a-f]{12}$",
            StringFormat::WikiLink => r"^\[\[([^\]|]+)(\|[^\]]+)?\]\]$",
            StringFormat::ZipCode => r"^\d{5}(-\d{4})?$",
        }
    }

    /// The name of this format.
    pub fn name(self) -> (s: &'static str)
        ensures
            s@ == format_name(self),
    {
        match self {
            StringFormat::Email => "email",
            StringFormat::Url => "url",
            StringFormat::PhoneUs => "phone_us",
            StringFormat::Slug => "slug",
            StringFormat::UuidV4 => "uuid_v4",
            StringFormat::WikiLink => "wikilink",
            StringFormat::ZipCode => "zipcode",
        }
    }

    /// The text a format is displayed as: its name.
    pub fn to_text(self) -> (s: String)
        ensures
            s@ == format_name(self),
    {
        copy_text(self.name())
    }
}

} // verus!
