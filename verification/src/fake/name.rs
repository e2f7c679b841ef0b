use crate::data::value::{DataValue, DataValueItem, DataValueRef, Scalar};
use crate::fake::{
    is_lowercase_word, FakeDataError, FakeDataProducer, FakeDataProducerData,
    FakeDataProducerFactory,
};
use fake::Fake;
use vstd::prelude::*;

verus! {

/// Describes the producer of names.
pub struct NameFakeDataFactory;

impl FakeDataProducerFactory for NameFakeDataFactory {
    fn name(&self) -> (r: String)
        ensures
            r@ == "Name"@,
    {
        String::from_str("Name")
    }

    fn is_allowed_for(&self, item: &DataValueItem<'_>) -> (r: bool)
        ensures
            r == exists|i: int|
                0 <= i < item.values@.len() && (#[trigger] item.values@[i]@ is String
                    || item.values@[i]@ is Null),
    {
        item.is_any_string_or_null()
    }
}

/// The kind of name to make.
#[derive(Debug, Clone, Copy, PartialEq, Eq)]
pub enum NameStyle {
    Username,
    FirstName,
    LastName,
    Name,
    NameWithTitle,
    Suffix,
    Title,
}

impl NameStyle {
    /// Every style, in the order in which they are offered.
    pub fn variants() -> (r: Vec<NameStyle>)
        ensures
            r@ == seq![
                NameStyle::Username,
                NameStyle::FirstName,
                NameStyle::LastName,
                NameStyle::Name,
                NameStyle::NameWithTitle,
                NameStyle::Suffix,
                NameStyle::Title,
            ],
    {
        vec![
            NameStyle::Username,
            NameStyle::FirstName,
            NameStyle::LastName,
            NameStyle::Name,
            NameStyle::NameWithTitle,
            NameStyle::Suffix,
            NameStyle::Title,
        ]
    }

    /// The name of the style.
    pub fn label(&self) -> (r: String)
        ensures
            r@ == (match self {
                NameStyle::Username => "Username"@,
                NameStyle::FirstName => "FirstName"@,
                NameStyle::LastName => "LastName"@,
                NameStyle::Name => "Name"@,
                NameStyle::NameWithTitle => "NameWithTitle"@,
                NameStyle::Suffix => "Suffix"@,
                NameStyle::Title => "Title"@,
            }),
    {
        match self {
            NameStyle::Username => String::from_str("Username"),
            NameStyle::FirstName => String::from_str("FirstName"),
            NameStyle::LastName => String::from_str("LastName"),
            NameStyle::Name => String::from_str("Name"),
            NameStyle::NameWithTitle => String::from_str("NameWithTitle"),
            NameStyle::Suffix => String::from_str("Suffix"),
            NameStyle::Title => String::from_str("Title"),
        }
    }
}

/// Whether `s` is one word: not empty, with no space in it.
pub open spec fn is_single_word(s: Seq<char>) -> bool {
    s.len() > 0 && !s.contains(' ')
}

/// Whether `s` is a number of one to three decimal digits.
pub open spec fn is_short_number(s: Seq<char>) -> bool {
    1 <= s.len() <= 3 && forall|i: int| 0 <= i < s.len() ==> '0' <= #[trigger] s[i] <= '9'
}

/// Whether `s` is one of the titles that English names are given with.
pub open spec fn is_name_title(s: Seq<char>) -> bool {
    ||| s == "Mr."@
    ||| s == "Mrs."@
    ||| s == "Ms."@
    ||| s == "Miss"@
    ||| s == "Dr."@
}

/// Whether `s` is one of the suffixes that English names are given with.
pub open spec fn is_name_suffix(s: Seq<char>) -> bool {
    ||| s == "Jr."@
    ||| s == "Sr."@
    ||| s == "I"@
    ||| s == "II"@
    ||| s == "III"@
    ||| s == "IV"@
    ||| s == "V"@
    ||| s == "MD"@
    ||| s == "DDS"@
    ||| s == "PhD"@
    ||| s == "DVM"@
}

/// Whether `s` is a first name and a last name with one space between them.
pub open spec fn is_full_name(s: Seq<char>) -> bool {
    exists|first: Seq<char>, last: Seq<char>|
        is_single_word(first) && is_single_word(last) && s == first + " "@ + last
}

/// Whether `s` is a title, a space and a full name.
pub open spec fn is_titled_name(s: Seq<char>) -> bool {
    exists|title: Seq<char>, name: Seq<char>|
        is_name_title(title) && is_full_name(name) && s == title + " "@ + name
}

/// Whether `s` is a user name: a lowercase first name alone, after a word and
/// a `.`, followed by a number, or followed by `_` and a word.
pub open spec fn is_user_name(s: Seq<char>) -> bool {
    exists|first: Seq<char>, other: Seq<char>|
        is_lowercase_word(first) && {
            ||| s == first
            ||| (is_lowercase_word(other) && s == other + "."@ + first)
            ||| (is_short_number(other) && s == first + other)
            ||| (is_lowercase_word(other) && s == first + "_"@ + other)
        }
}

/// What a name of `style` looks like.
pub open spec fn is_name_of_style(style: NameStyle, s: Seq<char>) -> bool {
    match style {
        NameStyle::Username => is_user_name(s),
        NameStyle::FirstName => is_single_word(s),
        NameStyle::LastName => is_single_word(s),
        NameStyle::Name => is_full_name(s),
        NameStyle::NameWithTitle => is_titled_name(s),
        NameStyle::Suffix => is_name_suffix(s),
        NameStyle::Title => is_name_title(s),
    }
}

/// `fake::faker::internet::en::Username`: a lowercase English first name,
/// alone, after a lorem word and a `.`, followed by a random `u8` in decimal,
/// or followed by `_` and a lorem word. Which form, name, word and number come
/// out is random and left unsaid.
#[verifier::external_body]
fn fake_username(rng: &mut fake::rand::rngs::StdRng) -> (r: String)
    ensures
        is_user_name(r@),
{
    fake::faker::internet::en::Username().fake_with_rng(rng)
}

/// `fake::faker::name::en::FirstName`: one of the crate's English first names,
/// each a word with no space; which one is random and left unsaid.
#[verifier::external_body]
fn fake_first_name(rng: &mut fake::rand::rngs::StdRng) -> (r: String)
    ensures
        is_single_word(r@),
{
    fake::faker::name::en::FirstName().fake_with_rng(rng)
}

/// `fake::faker::name::en::LastName`: one of the crate's English last names,
/// each a word with no space; which one is random and left unsaid.
#[verifier::external_body]
fn fake_last_name(rng: &mut fake::rand::rngs::StdRng) -> (r: String)
    ensures
        is_single_word(r@),
{
    fake::faker::name::en::LastName().fake_with_rng(rng)
}

/// `fake::faker::name::en::Name`: a first name, a space and a last name; which
/// names are picked is random and left unsaid.
#[verifier::external_body]
fn fake_full_name(rng: &mut fake::rand::rngs::StdRng) -> (r: String)
    ensures
        is_full_name(r@),
{
    fake::faker::name::en::Name().fake_with_rng(rng)
}

/// `fake::faker::name::en::NameWithTitle`: a title, a space and a full name;
/// which title and names are picked is random and left unsaid.
#[verifier::external_body]
fn fake_name_with_title(rng: &mut fake::rand::rngs::StdRng) -> (r: String)
    ensures
        is_titled_name(r@),
{
    fake::faker::name::en::NameWithTitle().fake_with_rng(rng)
}

/// `fake::faker::name::en::Suffix`: one of the English name suffixes; which
/// one is random and left unsaid.
#[verifier::external_body]
fn fake_suffix(rng: &mut fake::rand::rngs::StdRng) -> (r: String)
    ensures
        is_name_suffix(r@),
{
    fake::faker::name::en::Suffix().fake_with_rng(rng)
}

/// `fake::faker::name::en::Title`: one of the English name titles; which one
/// is random and left unsaid.
#[verifier::external_body]
fn fake_title(rng: &mut fake::rand::rngs::StdRng) -> (r: String)
    ensures
        is_name_title(r@),
{
    fake::faker::name::en::Title().fake_with_rng(rng)
}

/// Producer of names of one style.
#[derive(Debug)]
pub struct NameFakeData {
    pub ty: NameStyle,
}

impl FakeDataProducer for NameFakeData {
    open spec fn fails_with(&self, lists: Map<Seq<char>, Seq<Seq<char>>>, original: Scalar, e: FakeDataError) -> bool {
        false
    }

    open spec fn produces(&self, lists: Map<Seq<char>, Seq<Seq<char>>>, original: Scalar, value: Scalar) -> bool {
        value matches Scalar::String(s) && is_name_of_style(self.ty, s)
    }

    fn produce_fake(
        &self,
        original_value: DataValueRef<'_>,
        data: &mut FakeDataProducerData,
    ) -> (r: Result<DataValue, FakeDataError>)
        ensures
            r matches Ok(v) && v@ matches Scalar::String(s) && is_name_of_style(self.ty, s),
            final(data).rng_08 == old(data).rng_08,
            final(data).wordlists == old(data).wordlists,
    {
        let value = match self.ty {
            NameStyle::Username => fake_username(&mut data.rng),
            NameStyle::FirstName => fake_first_name(&mut data.rng),
            NameStyle::LastName => fake_last_name(&mut data.rng),
            NameStyle::Name => fake_full_name(&mut data.rng),
            NameStyle::NameWithTitle => fake_name_with_title(&mut data.rng),
            NameStyle::Suffix => fake_suffix(&mut data.rng),
            NameStyle::Title => fake_title(&mut data.rng),
        };
        Ok(DataValue::String(value))
    }

    fn is_allowed_output(&self) -> (r: bool)
        ensures
            !r,
    {
        false
    }
}

} // verus!
