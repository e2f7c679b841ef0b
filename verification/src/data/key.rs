use std::sync::Arc;
use vstd::prelude::*;

verus! {

broadcast use vstd::string::group_string_axioms;

/// A segment of a path as seen by specifications.
pub enum PathItem {
    Index,
    Key(Seq<char>),
}

/// Segment of a path key; the index segment intentionally carries no
/// index value so that every element of an array shares one key.
#[derive(Clone, Hash, PartialEq, Eq, Debug)]
pub enum PathKeyItem {
    Index,
    Key(String),
}

impl View for PathKeyItem {
    type V = PathItem;

    open spec fn view(&self) -> PathItem {
        match self {
            PathKeyItem::Index => PathItem::Index,
            PathKeyItem::Key(k) => PathItem::Key(k@),
        }
    }
}

/// Key for representing the path to an item in a data structure: the
/// segment of the item itself and the key of its parent.
#[derive(Clone, Hash, PartialEq, Eq, Debug)]
pub struct PathKey {
    parent: Option<Arc<PathKey>>,
    item: PathKeyItem,
}

/// Errors produced while parsing the textual form of a [PathKey].
#[derive(Debug, Clone, PartialEq, Eq)]
pub enum PathKeyParseError {
    /// A `\` at the very end of the input
    DanglingEscape,
    /// A `\` followed by a character that does not need escaping
    InvalidEscape(char),
}

impl PathKeyParseError {
    /// Human readable description of the error.
    pub fn message(&self) -> (s: String)
        ensures
            s@ == self.message_text(),
    {
        match self {
            PathKeyParseError::DanglingEscape => {
                let s = String::from_str("dangling escape sequence");
                proof {
                    reveal_strlit("dangling escape sequence");
                }
                s
            },
            PathKeyParseError::InvalidEscape(c) => {
                let mut s = String::from_str("invalid escape sequence: ");
                proof {
                    reveal_strlit("invalid escape sequence: ");
                }
                push_char(&mut s, *c);
                s
            },
        }
    }

    pub open spec fn message_text(&self) -> Seq<char> {
        match self {
            PathKeyParseError::DanglingEscape => "dangling escape sequence"@,
            PathKeyParseError::InvalidEscape(c) => "invalid escape sequence: "@.push(*c),
        }
    }
}

/// Appends one character to a string.
#[verifier::external_body]
pub(crate) fn push_char(s: &mut String, c: char)
    ensures
        final(s)@ == old(s)@.push(c),
{
    s.push(c);
}

/// Shares a key: the copy is the same key.
#[verifier::external_body]
pub(crate) fn share_key(k: &Arc<PathKey>) -> (r: Arc<PathKey>)
    ensures
        r == *k,
{
    Arc::clone(k)
}

/// Shares a key that may be absent.
pub(crate) fn share_parent(k: &Option<Arc<PathKey>>) -> (r: Option<Arc<PathKey>>)
    ensures
        r == *k,
{
    match k {
        Some(k) => Some(share_key(k)),
        None => None,
    }
}

/// Characters that must be escaped with a `\` inside a key segment.
pub open spec fn is_escaped_char(c: char) -> bool {
    c == '\\' || c == '.' || c == '[' || c == ']'
}

/// Textual form of an index segment.
pub open spec fn index_text() -> Seq<char> {
    seq!['[', 'i', 'n', 'd', 'e', 'x', ']']
}

/// Key text with every special character preceded by `\`.
pub open spec fn escape_key(k: Seq<char>) -> Seq<char>
    decreases k.len(),
{
    if k.len() == 0 {
        seq![]
    } else {
        (if is_escaped_char(k[0]) {
            seq!['\\', k[0]]
        } else {
            seq![k[0]]
        }) + escape_key(k.drop_first())
    }
}

/// Textual form of one segment.
pub open spec fn item_text(i: PathItem) -> Seq<char> {
    match i {
        PathItem::Index => index_text(),
        PathItem::Key(k) => escape_key(k),
    }
}

/// Textual form of a path: the segments joined by `.`.
pub open spec fn display_items(items: Seq<PathItem>) -> Seq<char>
    decreases items.len(),
{
    if items.len() == 0 {
        seq![]
    } else if items.len() == 1 {
        item_text(items[0])
    } else {
        item_text(items[0]) + seq!['.'] + display_items(items.drop_first())
    }
}

/// Scans `s` from the front, given the finished segments `segs` and the
/// segment `cur` that is being read; gives all the segments of the input.
pub open spec fn scan(s: Seq<char>, segs: Seq<Seq<char>>, cur: Seq<char>) -> Result<
    Seq<Seq<char>>,
    PathKeyParseError,
>
    decreases s.len(),
{
    if s.len() == 0 {
        Ok(segs.push(cur))
    } else if s[0] == '.' {
        scan(s.drop_first(), segs.push(cur), seq![])
    } else if s[0] == '\\' {
        if s.len() < 2 {
            Err(PathKeyParseError::DanglingEscape)
        } else if !is_escaped_char(s[1]) {
            Err(PathKeyParseError::InvalidEscape(s[1]))
        } else {
            scan(s.skip(2), segs, cur.push(s[1]))
        }
    } else {
        scan(s.drop_first(), segs, cur.push(s[0]))
    }
}

/// The segments of an input, with escapes resolved.
pub open spec fn split_segments(s: Seq<char>) -> Result<Seq<Seq<char>>, PathKeyParseError> {
    scan(s, seq![], seq![])
}

/// The path item a parsed segment stands for.
pub open spec fn segment_item(seg: Seq<char>) -> PathItem {
    if seg == index_text() {
        PathItem::Index
    } else {
        PathItem::Key(seg)
    }
}

/// The path that an input text describes.
pub open spec fn parse_items(s: Seq<char>) -> Result<Seq<PathItem>, PathKeyParseError> {
    if s.len() == 0 {
        Ok(seq![PathItem::Key(seq![])])
    } else {
        match split_segments(s) {
            Ok(segs) => Ok(segs.map_values(|seg: Seq<char>| segment_item(seg))),
            Err(e) => Err(e),
        }
    }
}

/// The raw (unescaped) text of a segment.
pub open spec fn raw_text(i: PathItem) -> Seq<char> {
    match i {
        PathItem::Index => index_text(),
        PathItem::Key(k) => k,
    }
}

/// Whether a path holds a key segment whose text is the index text itself;
/// such a path reads back with an index segment in its place.
pub open spec fn has_index_named_key(items: Seq<PathItem>) -> bool {
    exists|i: int| 0 <= i < items.len() && items[i] == PathItem::Key(index_text())
}

impl PathKey {
    pub closed spec fn items(&self) -> Seq<PathItem>
        decreases self,
    {
        match self.parent {
            Some(p) => p.items().push(self.item@),
            None => seq![self.item@],
        }
    }

    /// Every key has at least one segment.
    pub proof fn lemma_items_nonempty(&self)
        ensures
            self.items().len() >= 1,
        decreases self,
    {
    }

    /// Creates a key from the key of the parent and the segment of the item.
    pub fn new(parent: Option<Arc<PathKey>>, item: PathKeyItem) -> (r: Self)
        ensures
            r@ == (match parent {
                Some(p) => p@.push(item@),
                None => seq![item@],
            }),
    {
        PathKey { parent, item }
    }
}

impl View for PathKey {
    type V = Seq<PathItem>;

    open spec fn view(&self) -> Seq<PathItem> {
        self.items()
    }
}


/// Displaying a path with one more segment appends `.` and the text of that segment.
proof fn lemma_display_push(items: Seq<PathItem>, x: PathItem)
    requires
        items.len() >= 1,
    ensures
        display_items(items.push(x)) == display_items(items) + seq!['.'] + item_text(x),
    decreases items.len(),
{
    if items.len() == 1 {
        assert(items.push(x).drop_first() =~= seq![x]);
        assert(items.push(x)[0] == items[0]);
        assert(display_items(seq![x]) == item_text(x));
    } else {
        assert(items.push(x)[0] == items[0]);
        lemma_display_push(items.drop_first(), x);
        assert(items.push(x).drop_first() =~= items.drop_first().push(x));
        assert(display_items(items.push(x)) =~= display_items(items) + seq!['.'] + item_text(x));
    }
}

/// Scanning the escaped text of a key appends the key to the current segment.
proof fn lemma_scan_escaped(k: Seq<char>, rest: Seq<char>, segs: Seq<Seq<char>>, cur: Seq<char>)
    ensures
        scan(escape_key(k) + rest, segs, cur) == scan(rest, segs, cur + k),
    decreases k.len(),
{
    if k.len() == 0 {
        assert(escape_key(k) + rest =~= rest);
        assert(cur + k =~= cur);
    } else {
        let s = escape_key(k) + rest;
        let tail = escape_key(k.drop_first()) + rest;
        lemma_scan_escaped(k.drop_first(), rest, segs, cur.push(k[0]));
        assert(cur.push(k[0]) + k.drop_first() =~= cur + k);
        if is_escaped_char(k[0]) {
            assert(s =~= seq!['\\', k[0]] + tail);
            assert(s.skip(2) =~= tail);
        } else {
            assert(s =~= seq![k[0]] + tail);
            assert(s.drop_first() =~= tail);
        }
    }
}

/// Scanning text free of `.` and `\\` appends it to the current segment.
proof fn lemma_scan_plain(t: Seq<char>, rest: Seq<char>, segs: Seq<Seq<char>>, cur: Seq<char>)
    requires
        forall|i: int| 0 <= i < t.len() ==> t[i] != '.' && t[i] != '\\',
    ensures
        scan(t + rest, segs, cur) == scan(rest, segs, cur + t),
    decreases t.len(),
{
    if t.len() == 0 {
        assert(t + rest =~= rest);
        assert(cur + t =~= cur);
    } else {
        let s = t + rest;
        assert(s[0] == t[0]);
        assert(s.drop_first() =~= t.drop_first() + rest);
        lemma_scan_plain(t.drop_first(), rest, segs, cur.push(t[0]));
        assert(cur.push(t[0]) + t.drop_first() =~= cur + t);
    }
}

proof fn lemma_scan_item(it: PathItem, rest: Seq<char>, segs: Seq<Seq<char>>, cur: Seq<char>)
    ensures
        scan(item_text(it) + rest, segs, cur) == scan(rest, segs, cur + raw_text(it)),
{
    match it {
        PathItem::Index => lemma_scan_plain(index_text(), rest, segs, cur),
        PathItem::Key(k) => lemma_scan_escaped(k, rest, segs, cur),
    }
}

/// Scanning the text of a path gives back the raw text of its segments.
proof fn lemma_scan_display(items: Seq<PathItem>, segs: Seq<Seq<char>>, cur: Seq<char>)
    requires
        items.len() >= 1,
    ensures
        scan(display_items(items), segs, cur) == Ok::<Seq<Seq<char>>, PathKeyParseError>(
            segs.push(cur + raw_text(items[0])) + items.drop_first().map_values(
                |i: PathItem| raw_text(i),
            ),
        ),
    decreases items.len(),
{
    if items.len() == 1 {
        lemma_scan_item(items[0], seq![], segs, cur);
        assert(item_text(items[0]) + Seq::<char>::empty() =~= item_text(items[0]));
        assert(segs.push(cur + raw_text(items[0])) + items.drop_first().map_values(
            |i: PathItem| raw_text(i),
        ) =~= segs.push(cur + raw_text(items[0])));
    } else {
        let rest = items.drop_first();
        let c2 = cur + raw_text(items[0]);
        let d = seq!['.'] + display_items(rest);
        assert(display_items(items) =~= item_text(items[0]) + d);
        lemma_scan_item(items[0], d, segs, cur);
        assert(d.drop_first() =~= display_items(rest));
        lemma_scan_display(rest, segs.push(c2), seq![]);
        assert(Seq::<char>::empty() + raw_text(rest[0]) =~= raw_text(rest[0]));
        assert(segs.push(c2).push(raw_text(rest[0])) + rest.drop_first().map_values(
            |i: PathItem| raw_text(i),
        ) =~= segs.push(c2) + rest.map_values(|i: PathItem| raw_text(i)));
    }
}

/// Reading back the text of a path gives the same path, unless a key of the
/// path is spelled like the index segment.
pub proof fn lemma_parse_display(items: Seq<PathItem>)
    requires
        items.len() >= 1,
        !has_index_named_key(items),
    ensures
        parse_items(display_items(items)) == Ok::<Seq<PathItem>, PathKeyParseError>(items),
{
    lemma_scan_display(items, seq![], seq![]);
    let raws = items.map_values(|i: PathItem| raw_text(i));
    assert(Seq::<Seq<char>>::empty().push(Seq::<char>::empty() + raw_text(items[0]))
        + items.drop_first().map_values(|i: PathItem| raw_text(i)) =~= raws);
    let parsed = raws.map_values(|seg: Seq<char>| segment_item(seg));
    assert forall|j: int| 0 <= j < items.len() implies parsed[j] == items[j] by {
        match items[j] {
            PathItem::Index => {},
            PathItem::Key(k) => {
                assert(items[j] != PathItem::Key(index_text()));
            },
        }
    }
    assert(parsed =~= items);
    if display_items(items).len() == 0 {
        assert(split_segments(display_items(items)) == Ok::<Seq<Seq<char>>, PathKeyParseError>(
            seq![seq![]],
        ));
        assert(raws.len() == 1);
        assert(raws[0] =~= Seq::<char>::empty());
        match items[0] {
            PathItem::Index => {
                assert(raws[0].len() == 7);
            },
            PathItem::Key(k) => {
                assert(items =~= seq![PathItem::Key(seq![])]);
            },
        }
    }
}

/// Reading back the text of any key gives the same key, unless one of its
/// key segments is spelled like the index segment.
pub proof fn lemma_key_round_trip(k: &PathKey)
    requires
        !has_index_named_key(k@),
    ensures
        parse_items(display_items(k@)) == Ok::<Seq<PathItem>, PathKeyParseError>(k@),
{
    k.lemma_items_nonempty();
    lemma_parse_display(k@);
}

/// Splitting the text made of segments, each with its special characters
/// escaped, joined by `.`, gives back those segments.
pub proof fn lemma_split_escaped_segments(segs: Seq<Seq<char>>)
    requires
        segs.len() >= 1,
    ensures
        split_segments(display_items(segs.map_values(|k: Seq<char>| PathItem::Key(k)))) == Ok::<
            Seq<Seq<char>>,
            PathKeyParseError,
        >(segs),
{
    let items = segs.map_values(|k: Seq<char>| PathItem::Key(k));
    lemma_scan_display(items, seq![], seq![]);
    assert(Seq::<Seq<char>>::empty().push(Seq::<char>::empty() + raw_text(items[0]))
        + items.drop_first().map_values(|i: PathItem| raw_text(i)) =~= segs);
}

/// A parsed path never holds a key spelled like the index segment, so its
/// text reads back to the same path.
pub proof fn lemma_parse_canonical(s: Seq<char>)
    requires
        parse_items(s) is Ok,
    ensures
        parse_items(display_items(parse_items(s)->Ok_0)) == parse_items(s),
{
    let p = parse_items(s)->Ok_0;
    if s.len() != 0 {
        lemma_scan_nonempty(s, seq![], seq![]);
    }
    assert(!has_index_named_key(p));
    lemma_parse_display(p);
}

proof fn lemma_scan_nonempty(s: Seq<char>, segs: Seq<Seq<char>>, cur: Seq<char>)
    ensures
        scan(s, segs, cur) matches Ok(r) ==> r.len() >= 1,
    decreases s.len(),
{
    if s.len() == 0 {
    } else if s[0] == '.' {
        lemma_scan_nonempty(s.drop_first(), segs.push(cur), seq![]);
    } else if s[0] == '\\' {
        if s.len() >= 2 && is_escaped_char(s[1]) {
            lemma_scan_nonempty(s.skip(2), segs, cur.push(s[1]));
        }
    } else {
        lemma_scan_nonempty(s.drop_first(), segs, cur.push(s[0]));
    }
}

fn is_escaped(c: char) -> (r: bool)
    ensures
        r == is_escaped_char(c),
{
    c == '\\' || c == '.' || c == '[' || c == ']'
}

/// Appends the escaped text of `key` to `out`.
fn write_escaped(out: &mut String, key: &String)
    ensures
        final(out)@ == old(out)@ + escape_key(key@),
{
    let text = key.as_str();
    let n = text.unicode_len();
    let ghost start = out@;
    let mut i: usize = 0;
    assert(key@.skip(0) =~= key@);
    while i < n
        invariant
            n == key@.len(),
            text@ == key@,
            0 <= i <= n,
            start + escape_key(key@) == out@ + escape_key(key@.skip(i as int)),
        decreases n - i,
    {
        let ch = text.get_char(i);
        let ghost prev = out@;
        if is_escaped(ch) {
            push_char(out, '\\');
        }
        push_char(out, ch);
        proof {
            let before = key@.skip(i as int);
            assert(before[0] == ch);
            assert(before.drop_first() =~= key@.skip(i + 1));
            if is_escaped_char(ch) {
                assert(out@ =~= prev + seq!['\\', ch]);
            } else {
                assert(out@ =~= prev + seq![ch]);
            }
            assert(prev + escape_key(before) =~= out@ + escape_key(key@.skip(i + 1)));
        }
        i = i + 1;
    }
    assert(key@.skip(n as int) =~= Seq::<char>::empty());
    assert(out@ + escape_key(key@.skip(n as int)) =~= out@);
}

/// Appends the text of one segment to `out`.
fn write_item(out: &mut String, item: &PathKeyItem)
    ensures
        final(out)@ == old(out)@ + item_text(item@),
{
    match item {
        PathKeyItem::Index => {
            out.append("[index]");
            proof {
                reveal_strlit("[index]");
                assert("[index]"@ =~= index_text());
            }
        },
        PathKeyItem::Key(k) => write_escaped(out, k),
    }
}

/// Whether a parsed segment is the index text.
fn is_index_segment(seg: &String) -> (r: bool)
    ensures
        r == (seg@ == index_text()),
{
    let s = seg.as_str();
    let n = s.unicode_len();
    if n != 7 {
        return false;
    }
    let r = s.get_char(0) == '[' && s.get_char(1) == 'i' && s.get_char(2) == 'n' && s.get_char(3)
        == 'd' && s.get_char(4) == 'e' && s.get_char(5) == 'x' && s.get_char(6) == ']';
    proof {
        if r {
            assert(seg@ =~= index_text());
        }
    }
    r
}

impl PathKey {
    /// Appends the text of this path to `out`.
    fn write_into(&self, out: &mut String)
        ensures
            final(out)@ == old(out)@ + display_items(self@),
        decreases self@.len(),
    {
        match &self.parent {
            Some(p) => {
                proof {
                    p.lemma_items_nonempty();
                    lemma_display_push(p@, self.item@);
                }
                let ghost start = out@;
                p.write_into(out);
                push_char(out, '.');
                write_item(out, &self.item);
                assert(out@ =~= start + display_items(self@));
            },
            None => {
                write_item(out, &self.item);
            },
        }
    }

    /// The text of this path: the segments joined by `.`, index segments
    /// written as `[index]` and the characters `\\ . [ ]` of keys escaped with `\\`.
    pub fn to_string(&self) -> (s: String)
        ensures
            s@ == display_items(self@),
    {
        let mut out = String::new();
        self.write_into(&mut out);
        assert(out@ =~= display_items(self@));
        out
    }

    /// Whether two keys describe the same path.
    pub fn same_path(&self, other: &PathKey) -> (r: bool)
        ensures
            r == (self@ == other@),
        decreases self@.len(),
    {
        proof {
            self.lemma_items_nonempty();
            other.lemma_items_nonempty();
        }
        let same_item = match (&self.item, &other.item) {
            (PathKeyItem::Index, PathKeyItem::Index) => true,
            (PathKeyItem::Key(a), PathKeyItem::Key(b)) => (*a) == (*b),
            _ => false,
        };
        assert(same_item == (self.item@ == other.item@));
        if !same_item {
            assert(self@.last() != other@.last());
            return false;
        }
        match (&self.parent, &other.parent) {
            (Some(p), Some(q)) => {
                let r = p.same_path(q);
                proof {
                    if !r {
                        assert(self@.drop_last() =~= p@);
                        assert(other@.drop_last() =~= q@);
                    } else {
                        assert(self@ =~= other@);
                    }
                }
                r
            },
            (None, None) => {
                assert(self@ =~= other@);
                true
            },
            (Some(p), None) => {
                proof {
                    p.lemma_items_nonempty();
                }
                assert(self@.len() != other@.len());
                false
            },
            (None, Some(q)) => {
                proof {
                    q.lemma_items_nonempty();
                }
                assert(self@.len() != other@.len());
                false
            },
        }
    }

    /// Splits the input into segments at unescaped `.`, resolving the escapes
    /// `\\\\`, `\\.`, `\\[` and `\\]`.
    fn parse_escaped_segments(input: &str) -> (r: Result<Vec<String>, PathKeyParseError>)
        ensures
            r matches Ok(v) ==> split_segments(input@) == Ok::<
                Seq<Seq<char>>,
                PathKeyParseError,
            >(v@.map_values(|x: String| x@)),
            r matches Err(e) ==> split_segments(input@) == Err::<
                Seq<Seq<char>>,
                PathKeyParseError,
            >(e),
    {
        let mut segments: Vec<String> = Vec::new();
        let mut current = String::new();
        let n = input.unicode_len();
        let mut i: usize = 0;
        assert(input@.skip(0) =~= input@);
        assert(segments@.map_values(|x: String| x@) =~= Seq::<Seq<char>>::empty());
        while i < n
            invariant
                n == input@.len(),
                0 <= i <= n,
                split_segments(input@) == scan(
                    input@.skip(i as int),
                    segments@.map_values(|x: String| x@),
                    current@,
                ),
            decreases n - i,
        {
            let ghost before = input@.skip(i as int);
            let ghost segs_before = segments@.map_values(|x: String| x@);
            let ch = input.get_char(i);
            assert(before[0] == ch);
            if ch == '.' {
                let finished = current;
                current = String::new();
                segments.push(finished);
                assert(segments@.map_values(|x: String| x@) =~= segs_before.push(finished@));
                assert(before.drop_first() =~= input@.skip(i + 1));
                i = i + 1;
            } else if ch == '\\' {
                if i + 1 >= n {
                    return Err(PathKeyParseError::DanglingEscape);
                }
                let escaped = input.get_char(i + 1);
                assert(before[1] == escaped);
                if !is_escaped(escaped) {
                    return Err(PathKeyParseError::InvalidEscape(escaped));
                }
                push_char(&mut current, escaped);
                assert(before.skip(2) =~= input@.skip(i + 2));
                i = i + 2;
            } else {
                push_char(&mut current, ch);
                assert(before.drop_first() =~= input@.skip(i + 1));
                i = i + 1;
            }
        }
        assert(input@.skip(n as int) =~= Seq::<char>::empty());
        let ghost segs_before = segments@.map_values(|x: String| x@);
        let finished = current;
        segments.push(finished);
        assert(segments@.map_values(|x: String| x@) =~= segs_before.push(finished@));
        Ok(segments)
    }

    /// Parses the text of a path: segments separated by unescaped `.`, the
    /// segment `[index]` standing for an index and every other segment for a
    /// key. The empty text is the empty key at the root.
    pub fn from_str(input: &str) -> (r: Result<PathKey, PathKeyParseError>)
        ensures
            r matches Ok(k) ==> parse_items(input@) == Ok::<Seq<PathItem>, PathKeyParseError>(
                k@,
            ),
            r matches Err(e) ==> parse_items(input@) == Err::<Seq<PathItem>, PathKeyParseError>(
                e,
            ),
    {
        if input.is_empty() {
            return Ok(PathKey::new(None, PathKeyItem::Key(String::new())));
        }
        let segments = Self::parse_escaped_segments(input)?;
        let ghost segs = segments@.map_values(|x: String| x@);
        let ghost target = segs.map_values(|seg: Seq<char>| segment_item(seg));
        let mut current: Option<PathKey> = None;
        let mut i: usize = 0;
        while i < segments.len()
            invariant
                0 <= i <= segments@.len(),
                segs == segments@.map_values(|x: String| x@),
                target == segs.map_values(|seg: Seq<char>| segment_item(seg)),
                i == 0 ==> current is None,
                i > 0 ==> current is Some,
                current matches Some(k) ==> k@ == target.take(i as int),
            decreases segments@.len() - i,
        {
            let segment = segments[i].clone();
            let item = if is_index_segment(&segment) {
                PathKeyItem::Index
            } else {
                PathKeyItem::Key(segment)
            };
            assert(item@ == target[i as int]);
            let parent = match current {
                Some(k) => Some(Arc::new(k)),
                None => None,
            };
            current = Some(PathKey::new(parent, item));
            assert(target.take(i + 1) =~= target.take(i as int).push(target[i as int]));
            i = i + 1;
        }
        proof {
            lemma_scan_nonempty(input@, seq![], seq![]);
            assert(target.take(segments@.len() as int) =~= target);
            assert(input@.len() != 0);
        }
        match current {
            Some(current) => Ok(current),
            None => Ok(PathKey::new(None, PathKeyItem::Key(String::new()))),
        }
    }

    /// Builds a key from its segments, the first one at the root; no segments
    /// give no key.
    pub fn from_items(items: Vec<PathKeyItem>) -> (r: Option<PathKey>)
        ensures
            items@.len() == 0 ==> r is None,
            items@.len() > 0 ==> (r matches Some(k) && k@ == items@.map_values(
                |x: PathKeyItem| x@,
            )),
    {
        let mut items = items;
        let ghost all = items@.map_values(|x: PathKeyItem| x@);
        let ghost n = items@.len();
        let mut current: Option<PathKey> = None;
        assert(all.skip(0) =~= all);
        while items.len() > 0
            invariant
                items@.len() <= n,
                all.len() == n,
                items@.map_values(|x: PathKeyItem| x@) == all.skip(n - items@.len()),
                items@.len() == n ==> current is None,
                items@.len() < n ==> current is Some,
                current matches Some(k) ==> k@ == all.take(n - items@.len()),
            decreases items@.len(),
        {
            let ghost done = n - items@.len();
            let ghost before = items@;
            let item = items.remove(0);
            assert(before.map_values(|x: PathKeyItem| x@)[0] == item@);
            assert(item@ == all[done]);
            let parent = match current {
                Some(k) => Some(Arc::new(k)),
                None => None,
            };
            current = Some(PathKey::new(parent, item));
            assert(all.take(done + 1) =~= all.take(done).push(all[done]));
            assert(items@ =~= before.drop_first());
            let ghost now = items@.map_values(|x: PathKeyItem| x@);
            assert forall|j: int| 0 <= j < now.len() implies #[trigger] now[j] == all.skip(
                n - items@.len(),
            )[j] by {
                assert(items@[j] == before[j + 1]);
                assert(before.map_values(|x: PathKeyItem| x@)[j + 1] == all.skip(done)[j + 1]);
            }
            assert(items@.map_values(|x: PathKeyItem| x@) =~= all.skip(n - items@.len()));
        }
        assert(all.take(n as int) =~= all);
        current
    }
}

impl std::str::FromStr for PathKey {
    type Err = PathKeyParseError;

    fn from_str(input: &str) -> (r: Result<PathKey, PathKeyParseError>)
        ensures
            r matches Ok(k) ==> parse_items(input@) == Ok::<Seq<PathItem>, PathKeyParseError>(
                k@,
            ),
            r matches Err(e) ==> parse_items(input@) == Err::<Seq<PathItem>, PathKeyParseError>(
                e,
            ),
    {
        PathKey::from_str(input)
    }
}

} // verus!
