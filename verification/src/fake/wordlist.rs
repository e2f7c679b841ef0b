use crate::data::key::push_char;
use crate::data::value::{DataValue, DataValueItem, DataValueRef, Scalar};
use crate::fake::{
    join_words, seq_join, texts, FakeDataError, FakeDataProducer, FakeDataProducerData,
    FakeDataProducerFactory,
};
use std::ops::Range;
use vstd::std_specs::iter::IteratorSpec;
use vstd::prelude::*;

verus! {

/// Describes the producer of words taken from a word list file.
pub struct WordlistFakeDataFactory;

impl FakeDataProducerFactory for WordlistFakeDataFactory {
    fn name(&self) -> (r: String)
        ensures
            r@ == "Wordlist (Custom text file)"@,
    {
        String::from_str("Wordlist (Custom text file)")
    }

    fn is_allowed_for(&self, item: &DataValueItem<'_>) -> (r: bool)
        ensures
            r == exists|i: int|
                0 <= i < item.values@.len() && (#[trigger] item.values@[i]@ is String
                    || item.values@[i]@ is Null),
    {
        item.is_any_string_or_null()
    }
}

/// The pieces of a text between line feeds, in order; a text with `n` line
/// feeds has `n + 1` pieces.
pub open spec fn line_segments(s: Seq<char>) -> Seq<Seq<char>>
    decreases s.len(),
{
    if s.len() == 0 {
        seq![Seq::<char>::empty()]
    } else {
        let init = line_segments(s.drop_last());
        if s.last() == '\n' {
            init.push(Seq::<char>::empty())
        } else {
            init.update(init.len() - 1, init.last().push(s.last()))
        }
    }
}

/// Whether `c` is white space: has the Unicode property `White_Space`.
pub open spec fn is_white_space(c: char) -> bool {
    ||| '\u{9}' <= c <= '\u{d}'
    ||| c == ' '
    ||| c == '\u{85}'
    ||| c == '\u{a0}'
    ||| c == '\u{1680}'
    ||| '\u{2000}' <= c <= '\u{200a}'
    ||| c == '\u{2028}'
    ||| c == '\u{2029}'
    ||| c == '\u{202f}'
    ||| c == '\u{205f}'
    ||| c == '\u{3000}'
}

/// The text without its leading white space.
pub open spec fn trim_start_text(s: Seq<char>) -> Seq<char>
    decreases s.len(),
{
    if s.len() > 0 && is_white_space(s[0]) {
        trim_start_text(s.drop_first())
    } else {
        s
    }
}

/// The text without its trailing white space.
pub open spec fn trim_end_text(s: Seq<char>) -> Seq<char>
    decreases s.len(),
{
    if s.len() > 0 && is_white_space(s.last()) {
        trim_end_text(s.drop_last())
    } else {
        s
    }
}

/// The text without leading and trailing white space.
pub open spec fn trimmed_text(s: Seq<char>) -> Seq<char> {
    trim_end_text(trim_start_text(s))
}

/// The trimmed pieces that are not empty, in order.
pub open spec fn words_of_segments(segs: Seq<Seq<char>>) -> Seq<Seq<char>>
    decreases segs.len(),
{
    if segs.len() == 0 {
        Seq::<Seq<char>>::empty()
    } else {
        let words = words_of_segments(segs.drop_last());
        let t = trimmed_text(segs.last());
        if t.len() > 0 {
            words.push(t)
        } else {
            words
        }
    }
}

/// The words of a word list file: its lines, trimmed, without the empty
/// ones.
pub open spec fn wordlist_words(text: Seq<char>) -> Seq<Seq<char>> {
    words_of_segments(line_segments(text))
}

/// Whether `part` is a run of consecutive characters of `whole`.
pub open spec fn is_part_of(part: Seq<char>, whole: Seq<char>) -> bool {
    exists|i: int, j: int| 0 <= i <= j <= whole.len() && part == whole.subrange(i, j)
}

/// Whether `c` is white space, as `is_white_space` says.
fn is_white_space_char(c: char) -> (r: bool)
    ensures
        r == is_white_space(c),
{
    ('\u{9}' <= c && c <= '\u{d}') || c == ' ' || c == '\u{85}' || c == '\u{a0}' || c
        == '\u{1680}' || ('\u{2000}' <= c && c <= '\u{200a}') || c == '\u{2028}' || c
        == '\u{2029}' || c == '\u{202f}' || c == '\u{205f}' || c == '\u{3000}'
}

/// The text without leading and trailing white space (what `str::trim`
/// gives), as a part of the text it is taken from.
fn trim_text(s: &str) -> (r: &str)
    ensures
        r@ == trimmed_text(s@),
        is_part_of(r@, s@),
{
    let n = s.unicode_len();
    let ghost t = s@;
    let mut i: usize = 0;
    assert(t.skip(0) =~= t);
    loop
        invariant
            0 <= i <= n,
            n == t.len(),
            t == s@,
            trim_start_text(t) == trim_start_text(t.skip(i as int)),
        ensures
            0 <= i <= n,
            trim_start_text(t) == trim_start_text(t.skip(i as int)),
            i == n || !is_white_space(t[i as int]),
        decreases n - i,
    {
        if i == n {
            break;
        }
        if !is_white_space_char(s.get_char(i)) {
            break;
        }
        proof {
            let rest = t.skip(i as int);
            assert(rest[0] == t[i as int]);
            assert(rest.drop_first() =~= t.skip(i + 1));
        }
        i = i + 1;
    }
    let ghost front = t.skip(i as int);
    proof {
        if i == n {
            assert(front.len() == 0);
        } else {
            assert(front[0] == t[i as int]);
        }
        assert(trim_start_text(t) == front);
        assert(front =~= t.subrange(i as int, n as int));
    }
    let mut j: usize = n;
    loop
        invariant
            i <= j <= n,
            n == t.len(),
            t == s@,
            trim_end_text(front) == trim_end_text(t.subrange(i as int, j as int)),
        ensures
            i <= j <= n,
            trim_end_text(front) == trim_end_text(t.subrange(i as int, j as int)),
            j == i || !is_white_space(t[j - 1]),
        decreases j,
    {
        if j == i {
            break;
        }
        if !is_white_space_char(s.get_char(j - 1)) {
            break;
        }
        proof {
            let part = t.subrange(i as int, j as int);
            assert(part.last() == t[j - 1]);
            assert(part.drop_last() =~= t.subrange(i as int, j - 1));
        }
        j = j - 1;
    }
    proof {
        let part = t.subrange(i as int, j as int);
        if j > i {
            assert(part.last() == t[j - 1]);
        } else {
            assert(part.len() == 0);
        }
        assert(trim_end_text(part) == part);
    }
    let r = s.substring_char(i, j);
    assert(r@ == t.subrange(i as int, j as int));
    r
}

/// The texts of a vector of strings, one for each.
proof fn lemma_texts_push(v: Seq<String>, x: String)
    ensures
        texts(v.push(x)) == texts(v).push(x@),
{
    assert(texts(v.push(x)) =~= texts(v).push(x@));
}

/// Splits a text at its line feeds.
fn split_lines(text: &str) -> (r: Vec<String>)
    ensures
        texts(r@) == line_segments(text@),
{
    let mut done: Vec<String> = Vec::new();
    let mut current = String::new();
    let mut chars = text.chars();
    let ghost all = text@;
    proof {
        broadcast use vstd::string::axiom_spec_iter;
        broadcast use vstd::string::next_postcondition;
        assert(chars.remaining() == all);
        assert(all.take(0) =~= Seq::<char>::empty());
        assert(texts(done@) =~= Seq::<Seq<char>>::empty());
    }
    let ghost mut taken: int = 0;
    loop
        invariant
            0 <= taken <= all.len(),
            chars.obeys_prophetic_iter_laws(),
            chars.remaining() == all.skip(taken),
            texts(done@).push(current@) == line_segments(all.take(taken)),
        ensures
            taken == all.len(),
            texts(done@).push(current@) == line_segments(all.take(taken)),
        decreases all.len() - taken,
    {
        let ghost before = chars.remaining();
        let next = chars.next();
        proof {
            broadcast use vstd::string::next_postcondition;
        }
        match next {
            None => {
                assert(before.len() == 0);
                break;
            },
            Some(c) => {
                proof {
                    assert(before[0] == c);
                    assert(all[taken] == c);
                    assert(all.take(taken + 1).drop_last() =~= all.take(taken));
                    assert(all.take(taken + 1).last() == c);
                    assert(chars.remaining() =~= all.skip(taken + 1));
                }
                if c == '\n' {
                    let line = current;
                    current = String::new();
                    proof {
                        lemma_texts_push(done@, line);
                    }
                    done.push(line);
                } else {
                    push_char(&mut current, c);
                }
                proof {
                    taken = taken + 1;
                }
            },
        }
    }
    proof {
        assert(all.take(taken) =~= all);
        lemma_texts_push(done@, current);
    }
    done.push(current);
    done
}

/// The words of a word list file: its lines, trimmed, without the empty
/// ones.
pub fn words_from_text(text: &str) -> (r: Vec<String>)
    ensures
        texts(r@) == wordlist_words(text@),
{
    let lines = split_lines(text);
    let mut words: Vec<String> = Vec::new();
    let mut i: usize = 0;
    assert(texts(lines@).take(0) =~= Seq::<Seq<char>>::empty());
    assert(texts(words@) =~= Seq::<Seq<char>>::empty());
    while i < lines.len()
        invariant
            0 <= i <= lines@.len(),
            texts(words@) == words_of_segments(texts(lines@).take(i as int)),
        decreases lines@.len() - i,
    {
        let word = trim_text(lines[i].as_str());
        proof {
            let segs = texts(lines@).take(i + 1);
            assert(segs.drop_last() =~= texts(lines@).take(i as int));
            assert(segs.last() == lines@[i as int]@);
        }
        if !word.is_empty() {
            let owned = word.to_owned();
            proof {
                lemma_texts_push(words@, owned);
            }
            words.push(owned);
        }
        i = i + 1;
    }
    assert(texts(lines@).take(lines@.len() as int) =~= texts(lines@));
    words
}

/// The smaller of two numbers.
pub open spec fn min_int(a: int, b: int) -> int {
    if a <= b {
        a
    } else {
        b
    }
}

/// Whether `picked` are items of `words` at distinct positions.
pub open spec fn is_drawn_from(picked: Seq<Seq<char>>, words: Seq<Seq<char>>) -> bool {
    exists|idx: Seq<int>|
        #![trigger idx.len()]
        idx.len() == picked.len() && (forall|k: int|
            0 <= k < idx.len() ==> 0 <= #[trigger] idx[k] < words.len() && picked[k]
                == words[idx[k]]) && (forall|k: int, l: int|
            0 <= k < l < idx.len() ==> #[trigger] idx[k] != #[trigger] idx[l])
}

/// `rand::seq::IndexedRandom::sample`: `amount` items of `words` at distinct
/// positions, or all of them where there are fewer, in random order.
#[verifier::external_body]
fn sample_words(rng: &mut fake::rand::rngs::StdRng, words: &Vec<String>, amount: usize) -> (r: Vec<
    String,
>)
    ensures
        r@.len() == min_int(amount as int, words@.len() as int),
        is_drawn_from(texts(r@), texts(words@)),
{
    fake::rand::seq::IndexedRandom::sample(words.as_slice(), rng, amount).cloned().collect()
}

/// `rand::RngExt::random_range` on `start..end`: a number of that range.
#[verifier::external_body]
fn random_amount(rng: &mut fake::rand::rngs::StdRng, start: usize, end: usize) -> (r: usize)
    requires
        start < end,
    ensures
        start <= r < end,
{
    fake::rand::RngExt::random_range(rng, start..end)
}

/// The word lists that have been read, by file path; of two entries for one
/// path the later one stands.
pub open spec fn cache_entries_map(e: Seq<(String, Vec<String>)>) -> Map<Seq<char>, Seq<Seq<char>>>
    decreases e.len(),
{
    if e.len() == 0 {
        Map::empty()
    } else {
        cache_entries_map(e.drop_last()).insert(e.last().0@, texts(e.last().1@))
    }
}

proof fn lemma_cache_entries_prefix(e: Seq<(String, Vec<String>)>, i: int, p: Seq<char>)
    requires
        0 <= i <= e.len(),
        forall|j: int| i <= j < e.len() ==> (#[trigger] e[j]).0@ != p,
    ensures
        cache_entries_map(e).contains_key(p) == cache_entries_map(e.take(i)).contains_key(p),
        cache_entries_map(e).contains_key(p) ==> cache_entries_map(e)[p] == cache_entries_map(e.take(i))[p],
    decreases e.len() - i,
{
    if i < e.len() {
        assert(e.drop_last().take(i) =~= e.take(i));
        assert(e.last() == e[e.len() - 1]);
        lemma_cache_entries_prefix(e.drop_last(), i, p);
    } else {
        assert(e.take(i) =~= e);
    }
}

/// Words of word list files, by file path, kept so that every file is read
/// once.
pub struct WordlistCache {
    entries: Vec<(String, Vec<String>)>,
}

impl View for WordlistCache {
    type V = Map<Seq<char>, Seq<Seq<char>>>;

    closed spec fn view(&self) -> Map<Seq<char>, Seq<Seq<char>>> {
        cache_entries_map(self.entries@)
    }
}

impl WordlistCache {
    /// A cache that holds no word list.
    pub fn new() -> (r: Self)
        ensures
            r@ == Map::<Seq<char>, Seq<Seq<char>>>::empty(),
    {
        WordlistCache { entries: Vec::new() }
    }

    /// The words read from the file at `path`, where they have been read.
    pub fn get(&self, path: &str) -> (r: Option<&Vec<String>>)
        ensures
            r is Some <==> self@.contains_key(path@),
            r matches Some(w) ==> texts(w@) == self@[path@],
    {
        let key = path.to_owned();
        let mut i: usize = self.entries.len();
        while i > 0
            invariant
                0 <= i <= self.entries@.len(),
                key@ == path@,
                forall|j: int| i <= j < self.entries@.len() ==> (#[trigger] self.entries@[j]).0@ != path@,
            decreases i,
        {
            let k = i - 1;
            if self.entries[k].0 == key {
                proof {
                    let e = self.entries@;
                    lemma_cache_entries_prefix(e, k + 1, path@);
                    assert(e.take(k + 1).drop_last() =~= e.take(k as int));
                    assert(e.take(k + 1).last() == e[k as int]);
                }
                return Some(&self.entries[k].1);
            }
            i = k;
        }
        proof {
            lemma_cache_entries_prefix(self.entries@, 0, path@);
            assert(self.entries@.take(0).len() == 0);
        }
        None
    }

    /// Keeps `words` as the words of the file at `path`.
    pub fn insert(&mut self, path: String, words: Vec<String>)
        ensures
            final(self)@ == old(self)@.insert(path@, texts(words@)),
    {
        let ghost before = self.entries@;
        self.entries.push((path, words));
        assert(self.entries@.drop_last() =~= before);
    }

    /// Keeps the words of a word list file, given by its path and its text.
    pub fn load(&mut self, path: String, text: &str)
        ensures
            final(self)@ == old(self)@.insert(path@, wordlist_words(text@)),
    {
        let words = words_from_text(text);
        self.insert(path, words);
    }

    /// `amount` words of the list of the file at `path`, or all of them where
    /// it has fewer, at distinct positions of the list, joined by spaces; an
    /// error where that list has not been read.
    pub fn generate(
        &self,
        rng: &mut fake::rand::rngs::StdRng,
        path: &str,
        amount: usize,
    ) -> (r: Result<String, FakeDataError>)
        ensures
            r is Ok <==> self@.contains_key(path@),
            r matches Ok(s) ==> exists|ws: Seq<Seq<char>>|
                ws.len() == min_int(amount as int, self@[path@].len() as int) && is_drawn_from(
                    ws,
                    self@[path@],
                ) && s@ == seq_join(ws, " "@),
            r matches Err(e) ==> e == FakeDataError::WordlistNotLoaded,
    {
        match self.get(path) {
            Some(words) => {
                let picked = sample_words(rng, words, amount);
                let text = join_words(&picked, " ");
                assert(texts(picked@).len() == picked@.len());
                Ok(text)
            },
            None => Err(FakeDataError::WordlistNotLoaded),
        }
    }
}

/// After the words of a file are loaded, the cache gives them for that
/// file and what it gave before for every other file.
pub proof fn lemma_load_then_get(
    cache: Map<Seq<char>, Seq<Seq<char>>>,
    path: Seq<char>,
    text: Seq<char>,
)
    ensures
        cache.insert(path, wordlist_words(text)).contains_key(path),
        cache.insert(path, wordlist_words(text))[path] == wordlist_words(text),
        forall|q: Seq<char>|
            q != path ==> (#[trigger] cache.insert(path, wordlist_words(text)).contains_key(q)
                == cache.contains_key(q) && (cache.contains_key(q) ==> cache.insert(
                path,
                wordlist_words(text),
            )[q] == cache[q])),
{
}

/// The number of words a producer with the range `start..end` asks for: any
/// number of the range, or `start` where the range is empty.
pub open spec fn is_word_count(n: int, start: int, end: int) -> bool {
    if start < end {
        start <= n < end
    } else {
        n == start
    }
}

/// Producer of words drawn from a word list file.
#[derive(Debug)]
pub struct WordlistFakeData {
    /// Path of the word list file
    pub file_path: String,
    /// Range for the number of words
    pub amount: Range<usize>,
}

impl FakeDataProducer for WordlistFakeData {
    open spec fn fails_with(
        &self,
        lists: Map<Seq<char>, Seq<Seq<char>>>,
        original: Scalar,
        e: FakeDataError,
    ) -> bool {
        e == FakeDataError::WordlistNotLoaded && !lists.contains_key(self.file_path@)
    }

    open spec fn produces(
        &self,
        lists: Map<Seq<char>, Seq<Seq<char>>>,
        original: Scalar,
        value: Scalar,
    ) -> bool {
        lists.contains_key(self.file_path@) && exists|ws: Seq<Seq<char>>, n: int|
            is_word_count(n, self.amount.start as int, self.amount.end as int) && ws.len()
                == min_int(n, lists[self.file_path@].len() as int) && is_drawn_from(
                ws,
                lists[self.file_path@],
            ) && value == Scalar::String(seq_join(ws, " "@))
    }

    fn produce_fake(
        &self,
        original_value: DataValueRef<'_>,
        data: &mut FakeDataProducerData,
    ) -> (r: Result<DataValue, FakeDataError>)
        ensures
            final(data).wordlists@ == old(data).wordlists@,
            r is Ok <==> old(data).wordlists@.contains_key(self.file_path@),
            r matches Ok(v) ==> exists|ws: Seq<Seq<char>>, n: int|
                is_word_count(n, self.amount.start as int, self.amount.end as int) && ws.len()
                    == min_int(n, old(data).wordlists@[self.file_path@].len() as int)
                    && is_drawn_from(ws, old(data).wordlists@[self.file_path@]) && v@
                    == Scalar::String(seq_join(ws, " "@)),
            r matches Err(e) ==> e == FakeDataError::WordlistNotLoaded,
    {
        let amount = if self.amount.start < self.amount.end {
            random_amount(&mut data.rng, self.amount.start, self.amount.end)
        } else {
            self.amount.start
        };
        assert(is_word_count(amount as int, self.amount.start as int, self.amount.end as int));
        match data.wordlists.generate(&mut data.rng, self.file_path.as_str(), amount) {
            Ok(text) => {
                let ghost ws = choose|ws: Seq<Seq<char>>|
                    ws.len() == min_int(amount as int, data.wordlists@[self.file_path@].len() as int)
                        && is_drawn_from(ws, data.wordlists@[self.file_path@]) && text@ == seq_join(
                        ws,
                        " "@,
                    );
                assert(is_word_count(amount as int, self.amount.start as int, self.amount.end as int)
                    && ws.len() == min_int(amount as int, data.wordlists@[self.file_path@].len() as int));
                Ok(DataValue::String(text))
            },
            Err(e) => Err(e),
        }
    }

    fn is_allowed_output(&self) -> (r: bool)
        ensures
            !r,
    {
        false
    }
}

} // verus!
