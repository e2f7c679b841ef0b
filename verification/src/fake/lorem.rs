use crate::data::value::{DataValue, DataValueItem, DataValueRef, Scalar};
use crate::fake::{
    is_lowercase_word, join_words, seq_join, texts, FakeDataError, FakeDataProducer, FakeDataProducerData,
    FakeDataProducerFactory,
};
use fake::Fake;
use std::ops::Range;
use vstd::prelude::*;

verus! {

/// Describes the producer of lorem ipsum text.
pub struct LoremIpsumFakeDataFactory;

impl FakeDataProducerFactory for LoremIpsumFakeDataFactory {
    fn name(&self) -> (r: String)
        ensures
            r@ == "Lorem Ipsum"@,
    {
        String::from_str("Lorem Ipsum")
    }

    fn is_allowed_for(&self, item: &DataValueItem<'_>) -> (r: bool)
        ensures
            r == exists|i: int|
                0 <= i < item.values@.len() && (#[trigger] item.values@[i]@ is String
                    || item.values@[i]@ is Null),
    {
        item.is_any_string_or_null()
    }
}

/// The unit of lorem ipsum text to make.
#[derive(Debug, Clone, Copy, PartialEq, Eq)]
pub enum LoremIpsumUnit {
    Words,
    Sentences,
    Paragraphs,
}

impl LoremIpsumUnit {
    /// The name of the unit.
    pub fn label(&self) -> (r: String)
        ensures
            r@ == (match self {
                LoremIpsumUnit::Words => "Words"@,
                LoremIpsumUnit::Sentences => "Sentences"@,
                LoremIpsumUnit::Paragraphs => "Paragraphs"@,
            }),
    {
        match self {
            LoremIpsumUnit::Words => String::from_str("Words"),
            LoremIpsumUnit::Sentences => String::from_str("Sentences"),
            LoremIpsumUnit::Paragraphs => String::from_str("Paragraphs"),
        }
    }
}

/// Whether every text of `ws` is a lorem ipsum word: lowercase ASCII letters.
pub open spec fn lorem_words_in(ws: Seq<Seq<char>>) -> bool {
    forall|i: int| 0 <= i < ws.len() ==> is_lowercase_word(#[trigger] ws[i])
}

/// `fake::faker::lorem::en::Words`: a number of lorem ipsum words drawn
/// from the range `start..end`, each of the crate's word list, which holds
/// words of lowercase ASCII letters; which words come out is random.
#[verifier::external_body]
fn lorem_words(rng: &mut fake::rand::rngs::StdRng, start: usize, end: usize) -> (r: Vec<String>)
    requires
        start < end,
    ensures
        start <= r@.len() < end,
        lorem_words_in(texts(r@)),
{
    fake::faker::lorem::en::Words(start..end).fake_with_rng(rng)
}

/// Whether `s` is a sentence of a number of lorem ipsum words from `lo` up
/// to but not including `hi`: the words joined by spaces, then a full stop.
pub open spec fn is_sentence(s: Seq<char>, lo: int, hi: int) -> bool {
    exists|ws: Seq<Seq<char>>|
        lo <= ws.len() < hi && lorem_words_in(ws) && s == seq_join(ws, " "@).push('.')
}

/// Whether `s` is a paragraph of a number of sentences from `lo` up to but
/// not including `hi`, each of four to nine words: the sentences joined by
/// line feeds.
pub open spec fn is_paragraph(s: Seq<char>, lo: int, hi: int) -> bool {
    exists|ss: Seq<Seq<char>>|
        lo <= ss.len() < hi && (forall|i: int| 0 <= i < ss.len() ==> is_sentence(#[trigger] ss[i], 4, 10))
            && s == seq_join(ss, "\n"@)
}

/// `fake::faker::lorem::en::Sentence`: a number of random words drawn from
/// the range `start..end`, joined by spaces and ended by a full stop.
#[verifier::external_body]
fn lorem_sentence(rng: &mut fake::rand::rngs::StdRng, start: usize, end: usize) -> (r: String)
    requires
        start < end,
    ensures
        is_sentence(r@, start as int, end as int),
{
    fake::faker::lorem::en::Sentence(start..end).fake_with_rng(rng)
}

/// `fake::faker::lorem::en::Paragraph`: a number of random sentences of
/// four to nine words, the number drawn from the range `start..end`, joined
/// by line feeds.
#[verifier::external_body]
fn lorem_paragraph(rng: &mut fake::rand::rngs::StdRng, start: usize, end: usize) -> (r: String)
    requires
        start < end,
    ensures
        is_paragraph(r@, start as int, end as int),
{
    fake::faker::lorem::en::Paragraph(start..end).fake_with_rng(rng)
}

/// Producer of lorem ipsum text: a number of units drawn from a range.
#[derive(Debug)]
pub struct LoremIpsumFakeData {
    /// Unit to generate
    unit: LoremIpsumUnit,
    /// Range for the number of units to generate
    range: Range<usize>,
}

impl LoremIpsumFakeData {
    #[verifier::type_invariant]
    spec fn wf(&self) -> bool {
        self.range.start < self.range.end
    }

    /// The unit the producer makes.
    pub closed spec fn spec_unit(&self) -> LoremIpsumUnit {
        self.unit
    }

    /// The bounds of the range the number of units is drawn from.
    pub closed spec fn spec_bounds(&self) -> (usize, usize) {
        (self.range.start, self.range.end)
    }

    /// A producer of `unit`s, as many as a number drawn from `start..end`.
    pub fn new(unit: LoremIpsumUnit, start: usize, end: usize) -> (r: Self)
        requires
            start < end,
        ensures
            r.spec_unit() == unit,
            r.spec_bounds() == (start, end),
    {
        LoremIpsumFakeData { unit, range: start..end }
    }

    pub fn unit(&self) -> (r: LoremIpsumUnit)
        ensures
            r == self.spec_unit(),
    {
        self.unit
    }

    pub fn bounds(&self) -> (r: (usize, usize))
        ensures
            r == self.spec_bounds(),
            r.0 < r.1,
    {
        proof {
            use_type_invariant(self);
        }
        (self.range.start, self.range.end)
    }
}

impl FakeDataProducer for LoremIpsumFakeData {
    open spec fn fails_with(&self, lists: Map<Seq<char>, Seq<Seq<char>>>, original: Scalar, e: FakeDataError) -> bool {
        false
    }

    open spec fn produces(&self, lists: Map<Seq<char>, Seq<Seq<char>>>, original: Scalar, value: Scalar) -> bool {
        value matches Scalar::String(s) && match self.spec_unit() {
            LoremIpsumUnit::Words => exists|ws: Seq<Seq<char>>|
                self.spec_bounds().0 <= ws.len() < self.spec_bounds().1 && lorem_words_in(ws) && s
                    == seq_join(ws, " "@),
            LoremIpsumUnit::Sentences => is_sentence(
                s,
                self.spec_bounds().0 as int,
                self.spec_bounds().1 as int,
            ),
            LoremIpsumUnit::Paragraphs => is_paragraph(
                s,
                self.spec_bounds().0 as int,
                self.spec_bounds().1 as int,
            ),
        }
    }

    fn produce_fake(
        &self,
        original_value: DataValueRef<'_>,
        data: &mut FakeDataProducerData,
    ) -> (r: Result<DataValue, FakeDataError>)
        ensures
            r matches Ok(v) && v@ matches Scalar::String(s) && match self.spec_unit() {
                LoremIpsumUnit::Words => exists|ws: Seq<Seq<char>>|
                    self.spec_bounds().0 <= ws.len() < self.spec_bounds().1 && lorem_words_in(ws)
                        && s == seq_join(ws, " "@),
                LoremIpsumUnit::Sentences => is_sentence(
                    s,
                    self.spec_bounds().0 as int,
                    self.spec_bounds().1 as int,
                ),
                LoremIpsumUnit::Paragraphs => is_paragraph(
                    s,
                    self.spec_bounds().0 as int,
                    self.spec_bounds().1 as int,
                ),
            },
            final(data).rng_08 == old(data).rng_08,
            final(data).wordlists == old(data).wordlists,
    {
        let (start, end) = self.bounds();
        match self.unit {
            LoremIpsumUnit::Words => {
                let words = lorem_words(&mut data.rng, start, end);
                let text = join_words(&words, " ");
                assert(texts(words@).len() == words@.len());
                Ok(DataValue::String(text))
            },
            LoremIpsumUnit::Sentences => {
                let text = lorem_sentence(&mut data.rng, start, end);
                Ok(DataValue::String(text))
            },
            LoremIpsumUnit::Paragraphs => {
                let text = lorem_paragraph(&mut data.rng, start, end);
                Ok(DataValue::String(text))
            },
        }
    }

    fn is_allowed_output(&self) -> (r: bool)
        ensures
            !r,
    {
        false
    }
}

} // verus!
