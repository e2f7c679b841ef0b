use crate::data::value::{DataValue, DataValueItem, DataValueRef};
use crate::fake::email::EmailFakeDataProducerFactory;
use crate::fake::ignore::IgnoreFakeDataFactory;
use crate::fake::lorem::LoremIpsumFakeDataFactory;
use crate::fake::name::NameFakeDataFactory;
use crate::fake::number::NumberFakeDataFactory;
use crate::fake::number_string::NumberStringFakeDataFactory;
use crate::fake::uuid::UuidFakeDataFactory;
use crate::fake::wordlist::{WordlistCache, WordlistFakeDataFactory};
use crate::data::value::Scalar;
use vstd::prelude::*;

pub mod any;
pub mod email;
pub mod ignore;
pub mod lorem;
pub mod name;
pub mod number;
pub mod number_string;
pub mod uuid;
pub mod wordlist;

verus! {

#[verifier::external_type_specification]
#[verifier::external_body]
pub struct ExStdRng(fake::rand::rngs::StdRng);

#[verifier::external_type_specification]
#[verifier::external_body]
pub struct ExLegacyStdRng(rand::rngs::StdRng);

/// State handed to producers while fake values are made.
pub struct FakeDataProducerData {
    /// Random number generator
    pub rng: fake::rand::rngs::StdRng,
    /// Random number generator of the generation used by big number sampling
    pub rng_08: rand::rngs::StdRng,
    /// Words of the word list files that have been read
    pub wordlists: WordlistCache,
}

/// Why a producer could not make a value.
#[derive(Debug, Clone, PartialEq, Eq)]
pub enum FakeDataError {
    /// The minimum of a range is greater than its maximum
    MinGreaterThanMax,
    /// A bound of a range could not be scaled to an integer
    ScaledConversion,
    /// The words of a word list file have not been loaded
    WordlistNotLoaded,
    /// Any other failure, described in words
    Other(String),
}

/// Producer of fake values.
pub trait FakeDataProducer {
    /// Whether the producer may give `value` in place of `original`, when
    /// the loaded word lists are `lists`; a producer that does not say gives
    /// no promise.
    open spec fn produces(&self, lists: Map<Seq<char>, Seq<Seq<char>>>, original: Scalar, value: Scalar) -> bool {
        true
    }

    /// Whether the producer may fail with `e` when asked for a value in
    /// place of `original`, when the loaded word lists are `lists`; a
    /// producer that does not say gives no promise.
    open spec fn fails_with(&self, lists: Map<Seq<char>, Seq<Seq<char>>>, original: Scalar, e: FakeDataError) -> bool {
        true
    }

    /// Produce a fake data value based on the provided `original_value`
    /// from the original source.
    fn produce_fake(
        &self,
        original_value: DataValueRef<'_>,
        data: &mut FakeDataProducerData,
    ) -> (r: Result<DataValue, FakeDataError>)
        ensures
            final(data).wordlists@ == old(data).wordlists@,
            r matches Ok(v) ==> self.produces(old(data).wordlists@, original_value@, v@),
            r matches Err(e) ==> self.fails_with(old(data).wordlists@, original_value@, e),
    ;

    /// Whether the values of this producer can be used in output mappings.
    fn is_allowed_output(&self) -> bool;
}

/// Describes a kind of producer: its name and the items it suits.
pub trait FakeDataProducerFactory {
    /// The name of the producer shown in the list of producers.
    fn name(&self) -> String;

    /// Whether the producer can make values for `item`.
    fn is_allowed_for(&self, item: &DataValueItem<'_>) -> bool;
}

/// The texts of `words` with `sep` between each two of them.
pub open spec fn seq_join(words: Seq<Seq<char>>, sep: Seq<char>) -> Seq<char>
    decreases words.len(),
{
    if words.len() == 0 {
        seq![]
    } else if words.len() == 1 {
        words[0]
    } else {
        seq_join(words.drop_last(), sep) + sep + words.last()
    }
}

/// Whether `s` is a word of lowercase ASCII letters.
pub open spec fn is_lowercase_word(s: Seq<char>) -> bool {
    s.len() > 0 && forall|i: int| 0 <= i < s.len() ==> 'a' <= #[trigger] s[i] <= 'z'
}

/// The texts of a vector of strings.
pub open spec fn texts(v: Seq<String>) -> Seq<Seq<char>> {
    v.map_values(|s: String| s@)
}

/// Joins the words with `sep` between each two of them.
pub fn join_words(words: &Vec<String>, sep: &str) -> (r: String)
    ensures
        r@ == seq_join(texts(words@), sep@),
{
    let mut out = String::new();
    let mut i: usize = 0;
    assert(texts(words@).take(0) =~= Seq::<Seq<char>>::empty());
    while i < words.len()
        invariant
            0 <= i <= words@.len(),
            out@ == seq_join(texts(words@).take(i as int), sep@),
        decreases words@.len() - i,
    {
        let ghost before = out@;
        if i != 0 {
            out.append(sep);
        }
        out.append(words[i].as_str());
        proof {
            let t = texts(words@);
            assert(t.take(i + 1).drop_last() =~= t.take(i as int));
            assert(t.take(i + 1).last() == words@[i as int]@);
            if i == 0 {
                assert(t.take(1) =~= seq![words@[0]@]);
                assert(out@ =~= words@[0]@);
            }
        }
        i = i + 1;
    }
    assert(texts(words@).take(words@.len() as int) =~= texts(words@));
    out
}

/// The kinds of producer there are, one for each factory.
#[derive(Debug, Clone, Copy, PartialEq, Eq)]
pub enum ProducerKind {
    Ignore,
    LoremIpsum,
    Uuid,
    Wordlist,
    Email,
    Number,
    Name,
    NumberString,
}

/// Whether some value is a string or null.
pub open spec fn any_string_or_null(values: Seq<Scalar>) -> bool {
    exists|i: int| 0 <= i < values.len() && (#[trigger] values[i] is String || values[i] is Null)
}

/// Whether some value is a number or null.
pub open spec fn any_number_or_null(values: Seq<Scalar>) -> bool {
    exists|i: int| 0 <= i < values.len() && (#[trigger] values[i] is Number || values[i] is Null)
}

/// Whether a producer of a kind can make values for an item with the
/// values `values`.
pub open spec fn kind_allows(kind: ProducerKind, values: Seq<Scalar>) -> bool {
    match kind {
        ProducerKind::Ignore => true,
        ProducerKind::Number => any_number_or_null(values),
        _ => any_string_or_null(values),
    }
}

/// Which items each kind of producer suits: the ignoring producer suits
/// every item, the number producer an item with some number or null value,
/// and every other producer (e-mail addresses among them) an item with some
/// string or null value.
pub proof fn lemma_kinds_suit(kind: ProducerKind, values: Seq<Scalar>)
    ensures
        kind is Ignore ==> kind_allows(kind, values),
        kind is Number ==> (kind_allows(kind, values) <==> exists|i: int|
            0 <= i < values.len() && (#[trigger] values[i] is Number || values[i] is Null)),
        !(kind is Ignore) && !(kind is Number) ==> (kind_allows(kind, values) <==> exists|i: int|
            0 <= i < values.len() && (#[trigger] values[i] is String || values[i] is Null)),
{
}

/// The name of each kind of producer as shown in the list of producers.
pub open spec fn kind_name(kind: ProducerKind) -> Seq<char> {
    match kind {
        ProducerKind::Ignore => "Ignore"@,
        ProducerKind::LoremIpsum => "Lorem Ipsum"@,
        ProducerKind::Uuid => "UUID"@,
        ProducerKind::Wordlist => "Wordlist (Custom text file)"@,
        ProducerKind::Email => "Email"@,
        ProducerKind::Number => "Number"@,
        ProducerKind::Name => "Name"@,
        ProducerKind::NumberString => "Number (String)"@,
    }
}

/// Every kind of producer, in the order in which they are offered.
pub open spec fn registry_kinds() -> Seq<ProducerKind> {
    seq![
        ProducerKind::Ignore,
        ProducerKind::LoremIpsum,
        ProducerKind::Uuid,
        ProducerKind::Wordlist,
        ProducerKind::Email,
        ProducerKind::Number,
        ProducerKind::Name,
        ProducerKind::NumberString,
    ]
}

impl ProducerKind {
    /// The name of the kind as shown in the list of producers.
    pub fn name(&self) -> (r: String)
        ensures
            r@ == kind_name(*self),
    {
        match self {
            ProducerKind::Ignore => IgnoreFakeDataFactory.name(),
            ProducerKind::LoremIpsum => LoremIpsumFakeDataFactory.name(),
            ProducerKind::Uuid => UuidFakeDataFactory.name(),
            ProducerKind::Wordlist => WordlistFakeDataFactory.name(),
            ProducerKind::Email => EmailFakeDataProducerFactory.name(),
            ProducerKind::Number => NumberFakeDataFactory.name(),
            ProducerKind::Name => NameFakeDataFactory.name(),
            ProducerKind::NumberString => NumberStringFakeDataFactory.name(),
        }
    }

    /// Whether a producer of this kind can make values for `item`.
    pub fn is_allowed_for(&self, item: &DataValueItem<'_>) -> (r: bool)
        ensures
            r == kind_allows(*self, item.value_views()),
    {
        proof {
            assert forall|i: int| 0 <= i < item.values@.len() implies item.value_views()[i]
                == #[trigger] item.values@[i]@ by {}
        }
        let r = match self {
            ProducerKind::Ignore => IgnoreFakeDataFactory.is_allowed_for(item),
            ProducerKind::LoremIpsum => LoremIpsumFakeDataFactory.is_allowed_for(item),
            ProducerKind::Uuid => UuidFakeDataFactory.is_allowed_for(item),
            ProducerKind::Wordlist => WordlistFakeDataFactory.is_allowed_for(item),
            ProducerKind::Email => EmailFakeDataProducerFactory.is_allowed_for(item),
            ProducerKind::Number => NumberFakeDataFactory.is_allowed_for(item),
            ProducerKind::Name => NameFakeDataFactory.is_allowed_for(item),
            ProducerKind::NumberString => NumberStringFakeDataFactory.is_allowed_for(item),
        };
        proof {
            let vs = item.value_views();
            if r && !(*self is Ignore) {
                let i = choose|i: int|
                    0 <= i < item.values@.len() && (#[trigger] item.values@[i]@ is String
                        || item.values@[i]@ is Null || item.values@[i]@ is Number);
                assert(vs[i] == item.values@[i]@);
            }
            if kind_allows(*self, vs) && !(*self is Ignore) {
                let i = choose|i: int|
                    0 <= i < vs.len() && (#[trigger] vs[i] is String || vs[i] is Null || vs[i] is Number);
                assert(vs[i] == item.values@[i]@);
            }
        }
        r
    }
}

/// Every kind of producer, in the order in which they are offered.
pub fn fake_data_registry() -> (r: Vec<ProducerKind>)
    ensures
        r@ == registry_kinds(),
{
    let r = vec![
        ProducerKind::Ignore,
        ProducerKind::LoremIpsum,
        ProducerKind::Uuid,
        ProducerKind::Wordlist,
        ProducerKind::Email,
        ProducerKind::Number,
        ProducerKind::Name,
        ProducerKind::NumberString,
    ];
    assert(r@ =~= registry_kinds());
    r
}

/// The kinds of `kinds` whose producers can make values with the values
/// `values`, in order.
pub open spec fn allowed_kinds(kinds: Seq<ProducerKind>, values: Seq<Scalar>) -> Seq<ProducerKind>
    decreases kinds.len(),
{
    if kinds.len() == 0 {
        seq![]
    } else {
        let rest = allowed_kinds(kinds.drop_last(), values);
        if kind_allows(kinds.last(), values) {
            rest.push(kinds.last())
        } else {
            rest
        }
    }
}

/// The kinds of the registry offered for `item`: those whose producers can
/// make values for it, in order.
pub fn producer_kinds_for(registry: &Vec<ProducerKind>, item: &DataValueItem<'_>) -> (r: Vec<
    ProducerKind,
>)
    ensures
        r@ == allowed_kinds(registry@, item.value_views()),
{
    let mut out: Vec<ProducerKind> = Vec::new();
    let mut i: usize = 0;
    assert(registry@.take(0) =~= Seq::<ProducerKind>::empty());
    while i < registry.len()
        invariant
            0 <= i <= registry@.len(),
            out@ == allowed_kinds(registry@.take(i as int), item.value_views()),
        decreases registry@.len() - i,
    {
        let kind = registry[i];
        assert(registry@.take(i + 1).drop_last() =~= registry@.take(i as int));
        assert(registry@.take(i + 1).last() == kind);
        if kind.is_allowed_for(item) {
            out.push(kind);
        }
        i = i + 1;
    }
    assert(registry@.take(registry@.len() as int) =~= registry@);
    out
}

} // verus!
