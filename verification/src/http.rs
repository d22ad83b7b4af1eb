//! The grammar of the HTTP proxy log.
//!
//! A line is the preamble and then any number of attributes `key="value"`.
//! After each attribute stands a single space, and more attributes may
//! follow, or a line feed or the end of the input, and the record is
//! complete. A key is everything up to the next `=` and must be text; a
//! value is the bytes between the quotes and cannot itself hold a quote.
//! Where a key occurs twice on a line, the later value stands.
use crate::calendar::{Timestamp, TimestampView};
use crate::preamble::{is_banner, lemma_preamble, preamble, preamble_at, preamble_text};
use crate::scan::{
    copy_range, decode_range, has_bytes, lemma_bytes_between, lemma_bytes_split, lemma_joined,
    lemma_run_end, lemma_run_end_is, parsed, run_end, same_text, scan_until, ParseError, EQUALS,
    NEWLINE, QUOTE, SPACE,
};
use vstd::prelude::*;
use vstd::utf8::{decode_utf8, valid_utf8};

verus! {

/// The mapping that a list of attributes stands for: each key maps to the
/// value of its last occurrence in the list.
pub open spec fn attr_map(pairs: Seq<(Seq<char>, Seq<u8>)>) -> Map<Seq<char>, Seq<u8>>
    decreases pairs.len(),
{
    if pairs.len() == 0 {
        Map::empty()
    } else {
        attr_map(pairs.drop_last()).insert(pairs.last().0, pairs.last().1)
    }
}

/// No key occurs twice in the list.
pub open spec fn distinct_keys(pairs: Seq<(Seq<char>, Seq<u8>)>) -> bool {
    forall|i: int, j: int| 0 <= i < j < pairs.len() ==> pairs[i].0 != pairs[j].0
}

/// The models of the keys and values of a list of attributes.
pub open spec fn pair_views(pairs: Seq<(String, Vec<u8>)>) -> Seq<(Seq<char>, Seq<u8>)> {
    Seq::new(pairs.len(), |i: int| (pairs[i].0@, pairs[i].1@))
}

/// The keys of the mapping are the keys of the list.
pub proof fn lemma_attr_map_keys(pairs: Seq<(Seq<char>, Seq<u8>)>, key: Seq<char>)
    ensures
        attr_map(pairs).contains_key(key) <==> exists|i: int|
            0 <= i < pairs.len() && (#[trigger] pairs[i]).0 == key,
    decreases pairs.len(),
{
    if pairs.len() > 0 {
        let front = pairs.drop_last();
        lemma_attr_map_keys(front, key);
        if attr_map(pairs).contains_key(key) && pairs.last().0 != key {
            let i = choose|i: int| 0 <= i < front.len() && (#[trigger] front[i]).0 == key;
            assert(pairs[i].0 == key);
        }
        if exists|i: int| 0 <= i < pairs.len() && (#[trigger] pairs[i]).0 == key {
            let i = choose|i: int| 0 <= i < pairs.len() && (#[trigger] pairs[i]).0 == key;
            if i < pairs.len() - 1 {
                assert(front[i].0 == key);
            }
        }
    }
}

/// In a list without repeated keys, each key maps to the value beside it.
pub proof fn lemma_attr_map_value(pairs: Seq<(Seq<char>, Seq<u8>)>, i: int)
    requires
        distinct_keys(pairs),
        0 <= i < pairs.len(),
    ensures
        attr_map(pairs).contains_key(pairs[i].0),
        attr_map(pairs)[pairs[i].0] == pairs[i].1,
    decreases pairs.len(),
{
    if i < pairs.len() - 1 {
        let front = pairs.drop_last();
        lemma_attr_map_value(front, i);
    }
}

/// In a list without repeated keys, replacing the value beside a key is an
/// insertion into the mapping.
pub proof fn lemma_attr_map_update(pairs: Seq<(Seq<char>, Seq<u8>)>, i: int, value: Seq<u8>)
    requires
        distinct_keys(pairs),
        0 <= i < pairs.len(),
    ensures
        attr_map(pairs.update(i, (pairs[i].0, value))) == attr_map(pairs).insert(
            pairs[i].0,
            value,
        ),
    decreases pairs.len(),
{
    let key = pairs[i].0;
    let changed = pairs.update(i, (key, value));
    let front = pairs.drop_last();
    if i == pairs.len() - 1 {
        assert(changed.drop_last() =~= front);
    } else {
        lemma_attr_map_update(front, i, value);
        assert(changed.drop_last() =~= front.update(i, (front[i].0, value)));
    }
}

/// A list without repeated keys stands for a mapping with as many keys as
/// the list is long.
pub proof fn lemma_attr_map_len(pairs: Seq<(Seq<char>, Seq<u8>)>)
    requires
        distinct_keys(pairs),
    ensures
        attr_map(pairs).dom().finite(),
        attr_map(pairs).len() == pairs.len(),
    decreases pairs.len(),
{
    if pairs.len() > 0 {
        let front = pairs.drop_last();
        lemma_attr_map_len(front);
        lemma_attr_map_keys(front, pairs.last().0);
    }
}

/// The attributes of one HTTP record: a mapping from keys to values.
#[derive(Debug)]
pub struct Attrs {
    pairs: Vec<(String, Vec<u8>)>,
}

impl View for Attrs {
    type V = Map<Seq<char>, Seq<u8>>;

    closed spec fn view(&self) -> Map<Seq<char>, Seq<u8>> {
        attr_map(pair_views(self.pairs@))
    }
}

/// Tells whether two byte vectors hold the same bytes.
fn same_bytes(a: &Vec<u8>, b: &Vec<u8>) -> (r: bool)
    ensures
        r == (a@ == b@),
{
    if a.len() != b.len() {
        return false;
    }
    let mut k: usize = 0;
    while k < a.len()
        invariant
            k <= a@.len(),
            a@.len() == b@.len(),
            forall|j: int| 0 <= j < k ==> a@[j] == b@[j],
        decreases a@.len() - k,
    {
        if a[k] != b[k] {
            return false;
        }
        k += 1;
    }
    assert(a@ =~= b@);
    true
}

impl Attrs {
    #[verifier::type_invariant]
    spec fn keys_are_distinct(self) -> bool {
        distinct_keys(pair_views(self.pairs@))
    }

    /// The empty mapping.
    pub fn new() -> (r: Attrs)
        ensures
            r@ == Map::<Seq<char>, Seq<u8>>::empty(),
    {
        Attrs { pairs: Vec::new() }
    }

    /// Where `key` stands in the list, if it does.
    fn position(&self, key: &str) -> (r: Option<usize>)
        ensures
            match r {
                Some(i) => i < self.pairs@.len() && self.pairs@[i as int].0@ == key@,
                None => forall|i: int| 0 <= i < self.pairs@.len() ==> self.pairs@[i].0@ != key@,
            },
    {
        let mut i: usize = 0;
        while i < self.pairs.len()
            invariant
                i <= self.pairs@.len(),
                forall|j: int| 0 <= j < i ==> self.pairs@[j].0@ != key@,
            decreases self.pairs@.len() - i,
        {
            if same_text(self.pairs[i].0.as_str(), key) {
                return Some(i);
            }
            i += 1;
        }
        None
    }

    /// Sets the value of `key`, in place of the one it had if it had one.
    pub fn insert(&mut self, key: String, value: Vec<u8>)
        ensures
            final(self)@ == old(self)@.insert(key@, value@),
    {
        proof {
            use_type_invariant(&*self);
        }
        let ghost before = pair_views(self.pairs@);
        let place = self.position(key.as_str());
        let mut pairs: Vec<(String, Vec<u8>)> = Vec::new();
        core::mem::swap(&mut self.pairs, &mut pairs);
        match place {
            Some(i) => {
                proof {
                    lemma_attr_map_update(before, i as int, value@);
                }
                pairs[i] = (key, value);
                assert(pair_views(pairs@) =~= before.update(i as int, (key@, value@)));
            },
            None => {
                pairs.push((key, value));
                assert(pair_views(pairs@) =~= before.push((key@, value@)));
                assert(pair_views(pairs@).drop_last() =~= before);
            },
        }
        core::mem::swap(&mut self.pairs, &mut pairs);
    }

    /// The value of `key`, if it has one.
    pub fn get(&self, key: &str) -> (r: Option<&Vec<u8>>)
        ensures
            match r {
                Some(value) => self@.contains_key(key@) && self@[key@] == value@,
                None => !self@.contains_key(key@),
            },
    {
        proof {
            use_type_invariant(self);
            lemma_attr_map_keys(pair_views(self.pairs@), key@);
        }
        match self.position(key) {
            Some(i) => {
                proof {
                    lemma_attr_map_value(pair_views(self.pairs@), i as int);
                }
                Some(&self.pairs[i].1)
            },
            None => {
                assert forall|i: int| 0 <= i < self.pairs@.len() implies (#[trigger] pair_views(
                    self.pairs@,
                )[i]).0 != key@ by {}
                None
            },
        }
    }

    /// Tells whether `key` has a value.
    pub fn contains_key(&self, key: &str) -> (r: bool)
        ensures
            r == self@.contains_key(key@),
    {
        self.get(key).is_some()
    }

    /// The keys with their values, each key once, in the order in which the
    /// keys were first set.
    pub closed spec fn listing(&self) -> Seq<(Seq<char>, Seq<u8>)> {
        pair_views(self.pairs@)
    }

    /// The keys with their values, each key once, in the order in which the
    /// keys were first set.
    pub fn pairs(&self) -> (r: &Vec<(String, Vec<u8>)>)
        ensures
            pair_views(r@) == self.listing(),
            distinct_keys(self.listing()),
            attr_map(self.listing()) == self@,
    {
        proof {
            use_type_invariant(self);
        }
        &self.pairs
    }

    /// The number of keys.
    pub fn len(&self) -> (r: usize)
        ensures
            self@.dom().finite(),
            r == self@.len(),
    {
        proof {
            use_type_invariant(self);
            lemma_attr_map_len(pair_views(self.pairs@));
        }
        self.pairs.len()
    }

    /// Tells whether every key of `self` has the same value in `other`.
    fn within(&self, other: &Attrs) -> (r: bool)
        ensures
            r == forall|key: Seq<char>| #[trigger]
                self@.contains_key(key) ==> other@.contains_key(key) && other@[key] == self@[key],
    {
        proof {
            use_type_invariant(self);
        }
        let ghost mine = pair_views(self.pairs@);
        let mut i: usize = 0;
        while i < self.pairs.len()
            invariant
                i <= self.pairs@.len(),
                mine == pair_views(self.pairs@),
                distinct_keys(mine),
                self@ == attr_map(mine),
                forall|j: int|
                    0 <= j < i ==> other@.contains_key(#[trigger] mine[j].0) && other@[mine[j].0]
                        == mine[j].1,
            decreases self.pairs@.len() - i,
        {
            proof {
                lemma_attr_map_value(mine, i as int);
            }
            let same = match other.get(self.pairs[i].0.as_str()) {
                Some(theirs) => same_bytes(theirs, &self.pairs[i].1),
                None => false,
            };
            if !same {
                return false;
            }
            i += 1;
        }
        assert forall|key: Seq<char>| #[trigger] self@.contains_key(key) implies {
            &&& other@.contains_key(key)
            &&& other@[key] == self@[key]
        } by {
            lemma_attr_map_keys(mine, key);
            let j = choose|j: int| 0 <= j < mine.len() && (#[trigger] mine[j]).0 == key;
            lemma_attr_map_value(mine, j);
        }
        true
    }
}

impl Clone for Attrs {
    fn clone(&self) -> (r: Attrs)
        ensures
            r@ == self@,
    {
        proof {
            use_type_invariant(self);
        }
        let mut pairs: Vec<(String, Vec<u8>)> = Vec::new();
        let mut i: usize = 0;
        while i < self.pairs.len()
            invariant
                i <= self.pairs@.len(),
                pairs@.len() == i,
                forall|j: int|
                    0 <= j < i ==> (#[trigger] pairs@[j]).0@ == self.pairs@[j].0@ && pairs@[j].1@
                        == self.pairs@[j].1@,
            decreases self.pairs@.len() - i,
        {
            let key = self.pairs[i].0.clone();
            let value = self.pairs[i].1.clone();
            pairs.push((key, value));
            i += 1;
        }
        assert(pair_views(pairs@) =~= pair_views(self.pairs@));
        Attrs { pairs }
    }
}

impl PartialEq for Attrs {
    /// Two mappings are equal when they hold the same keys with the same
    /// values, in whatever order the keys were set.
    fn eq(&self, other: &Attrs) -> (r: bool) {
        let r = self.within(other) && other.within(self);
        proof {
            if r {
                assert(self@ =~= other@);
            }
        }
        r
    }
}

impl vstd::std_specs::cmp::PartialEqSpecImpl for Attrs {
    open spec fn obeys_eq_spec() -> bool {
        true
    }

    open spec fn eq_spec(&self, other: &Attrs) -> bool {
        self@ == other@
    }
}

/// One line of the HTTP proxy log.
#[derive(Debug, PartialEq, Clone)]
pub struct LogEntry {
    pub datetime: Timestamp,
    pub attrs: Attrs,
}

/// The mathematical model of an HTTP [`LogEntry`].
pub struct LogEntryView {
    pub datetime: TimestampView,
    pub attrs: Map<Seq<char>, Seq<u8>>,
}

impl View for LogEntry {
    type V = LogEntryView;

    open spec fn view(&self) -> LogEntryView {
        LogEntryView { datetime: self.datetime@, attrs: self.attrs@ }
    }
}

/// An attribute at position `i`: a key of one or more bytes other than `=`
/// that are valid UTF-8, `=`, a quote, a value of any bytes other than a
/// quote, and a quote.
pub open spec fn attr_at(s: Seq<u8>, i: int) -> Result<((Seq<char>, Seq<u8>), int), ParseError> {
    let equals = run_end(s, i, EQUALS);
    let open = equals + 1;
    let close = run_end(s, open + 1, QUOTE);
    if 0 <= i < equals && open < s.len() && s[equals] == EQUALS && s[open] == QUOTE && close
        < s.len() && s[close] == QUOTE && valid_utf8(s.subrange(i, equals)) {
        Ok(((decode_utf8(s.subrange(i, equals)), s.subrange(open + 1, close)), close + 1))
    } else {
        Err(ParseError::Malformed)
    }
}

/// No attribute starts at position `i`: the input ends there, or `=` stands
/// there, which no key can start with.
pub open spec fn no_attr_at(s: Seq<u8>, i: int) -> bool {
    i == s.len() || (0 <= i < s.len() && s[i] == EQUALS)
}

/// The attributes from position `i` on, in the order in which they stand.
///
/// Where no attribute starts, the list is empty. After an attribute, the end
/// of the input or a line feed ends the list, a space lets it go on, and
/// anything else is an error. An attribute that starts and does not match is
/// an error too, and so is a position outside the input.
pub open spec fn attrs_at(s: Seq<u8>, i: int) -> Result<
    (Seq<(Seq<char>, Seq<u8>)>, int),
    ParseError,
>
    decreases s.len() - i,
    via attrs_at_decreases
{
    if no_attr_at(s, i) {
        Ok((Seq::empty(), i))
    } else {
        match attr_at(s, i) {
            Err(e) => Err(e),
            Ok((pair, end)) => {
                if end >= s.len() {
                    Ok((seq![pair], end))
                } else if s[end] == NEWLINE {
                    Ok((seq![pair], end + 1))
                } else if s[end] == SPACE {
                    match attrs_at(s, end + 1) {
                        Err(e) => Err(e),
                        Ok((rest, stop)) => Ok((seq![pair] + rest, stop)),
                    }
                } else {
                    Err(ParseError::Malformed)
                }
            },
        }
    }
}

#[via_fn]
proof fn attrs_at_decreases(s: Seq<u8>, i: int) {
    if 0 <= i < s.len() {
        lemma_run_end(s, i, EQUALS);
        let open = run_end(s, i, EQUALS) + 1;
        if open + 1 <= s.len() {
            lemma_run_end(s, open + 1, QUOTE);
        }
    }
}

/// The mapping of the attributes from position `i` on.
pub open spec fn attr_map_at(s: Seq<u8>, i: int) -> Result<
    (Map<Seq<char>, Seq<u8>>, int),
    ParseError,
> {
    match attrs_at(s, i) {
        Ok((pairs, end)) => Ok((attr_map(pairs), end)),
        Err(e) => Err(e),
    }
}

/// A log line at position `i`: the preamble and the attributes.
pub open spec fn log_entry_at(s: Seq<u8>, i: int) -> Result<(LogEntryView, int), ParseError> {
    match preamble_at(s, i) {
        Err(e) => Err(e),
        Ok((datetime, start)) => match attr_map_at(s, start) {
            Err(e) => Err(e),
            Ok((attrs, end)) => Ok((LogEntryView { datetime, attrs }, end)),
        },
    }
}

/// What a whole line says. Bytes after the record are not read.
pub open spec fn line(s: Seq<u8>) -> Result<LogEntryView, ParseError> {
    match log_entry_at(s, 0) {
        Ok((entry, _)) => Ok(entry),
        Err(e) => Err(e),
    }
}

/// The result of a list of attributes with `front` put before it.
pub open spec fn after(
    front: Seq<(Seq<char>, Seq<u8>)>,
    rest: Result<(Seq<(Seq<char>, Seq<u8>)>, int), ParseError>,
) -> Result<(Seq<(Seq<char>, Seq<u8>)>, int), ParseError> {
    match rest {
        Ok((pairs, end)) => Ok((front + pairs, end)),
        Err(e) => Err(e),
    }
}

/// The bytes of a key: one at least, valid UTF-8, none of them `=`.
pub open spec fn is_key_text(key: Seq<u8>) -> bool {
    &&& key.len() > 0
    &&& valid_utf8(key)
    &&& forall|k: int| 0 <= k < key.len() ==> key[k] != EQUALS
}

/// The bytes of a value: none of them a quote.
pub open spec fn is_value_text(value: Seq<u8>) -> bool {
    forall|k: int| 0 <= k < value.len() ==> value[k] != QUOTE
}

/// Every pair holds the bytes of a key and the bytes of a value.
pub open spec fn are_attr_texts(pairs: Seq<(Seq<u8>, Seq<u8>)>) -> bool {
    forall|k: int|
        0 <= k < pairs.len() ==> is_key_text((#[trigger] pairs[k]).0) && is_value_text(pairs[k].1)
}

/// The attribute that a key and a value spell: `key="value"`.
pub open spec fn attr_text(key: Seq<u8>, value: Seq<u8>) -> Seq<u8> {
    key + seq![EQUALS, QUOTE] + value + seq![QUOTE]
}

/// The attributes that the pairs spell, with a space between one and the
/// next.
pub open spec fn attrs_text(pairs: Seq<(Seq<u8>, Seq<u8>)>) -> Seq<u8>
    decreases pairs.len(),
{
    if pairs.len() == 0 {
        Seq::empty()
    } else if pairs.len() == 1 {
        attr_text(pairs[0].0, pairs[0].1)
    } else {
        attr_text(pairs[0].0, pairs[0].1) + seq![SPACE] + attrs_text(pairs.drop_first())
    }
}

/// The end of a record: a line feed, or nothing.
pub open spec fn line_end(fed: bool) -> Seq<u8> {
    if fed {
        seq![NEWLINE]
    } else {
        Seq::empty()
    }
}

/// The pairs with their keys read as text.
pub open spec fn read_pairs(pairs: Seq<(Seq<u8>, Seq<u8>)>) -> Seq<(Seq<char>, Seq<u8>)> {
    Seq::new(pairs.len(), |k: int| (decode_utf8(pairs[k].0), pairs[k].1))
}

/// An attribute is read as its key and its value where it stands in the
/// input.
proof fn lemma_attr_found(s: Seq<u8>, at: int, key: Seq<u8>, value: Seq<u8>)
    requires
        has_bytes(s, at, attr_text(key, value)),
        is_key_text(key),
        is_value_text(value),
    ensures
        attr_at(s, at) == Ok::<_, ParseError>(
            ((decode_utf8(key), value), at + attr_text(key, value).len()),
        ),
{
    let text = attr_text(key, value);
    let equals = at + key.len();
    let close = equals + 2 + value.len();
    assert forall|k: int| 0 <= k < text.len() implies s[at + k] == text[k] by {
        assert(s.subrange(at, at + text.len())[k] == s[at + k]);
    }
    assert forall|k: int| at <= k < equals implies s[k] != EQUALS by {
        assert(s[k] == text[k - at]);
    }
    assert(s[equals] == text[key.len() as int]);
    assert(s[equals + 1] == text[key.len() as int + 1]);
    assert forall|k: int| equals + 2 <= k < close implies s[k] != QUOTE by {
        assert(s[k] == text[k - at]);
    }
    assert(s[close] == text[text.len() - 1]);
    lemma_run_end_is(s, at, EQUALS, equals);
    lemma_run_end_is(s, equals + 2, QUOTE, close);
    assert forall|k: int| 0 <= k < key.len() implies s[at + k] == key[k] by {
        assert(s[at + k] == text[k]);
    }
    assert forall|k: int| 0 <= k < value.len() implies s[equals + 2 + k] == value[k] by {
        assert(s[equals + 2 + k] == text[key.len() + 2 + k]);
    }
    assert(s.subrange(at, equals) =~= key);
    assert(s.subrange(equals + 2, close) =~= value);
}

/// Attributes that end the input, with or without a line feed after the
/// last, are read as their pairs, in their order.
proof fn lemma_attrs_found(s: Seq<u8>, at: int, pairs: Seq<(Seq<u8>, Seq<u8>)>, fed: bool)
    requires
        pairs.len() > 0,
        are_attr_texts(pairs),
        has_bytes(s, at, attrs_text(pairs) + line_end(fed)),
        at + (attrs_text(pairs) + line_end(fed)).len() == s.len(),
    ensures
        attrs_at(s, at) == Ok::<_, ParseError>((read_pairs(pairs), s.len() as int)),
    decreases pairs.len(),
{
    let (key, value) = pairs[0];
    let first = attr_text(key, value);
    let end = at + first.len();
    assert(s.subrange(at, at + (attrs_text(pairs) + line_end(fed)).len())[0] == s[at]);
    assert(s[at] == key[0]);
    if pairs.len() == 1 {
        lemma_bytes_split(s, at, first, line_end(fed));
        lemma_attr_found(s, at, key, value);
        if fed {
            assert(s.subrange(end, end + 1)[0] == s[end]);
        }
        assert(read_pairs(pairs) =~= seq![(decode_utf8(key), value)]);
    } else {
        let rest = pairs.drop_first();
        let after = attrs_text(rest) + line_end(fed);
        lemma_joined(first + seq![SPACE], attrs_text(rest), line_end(fed));
        lemma_bytes_split(s, at, first + seq![SPACE], after);
        lemma_bytes_split(s, at, first, seq![SPACE]);
        lemma_attr_found(s, at, key, value);
        assert(s.subrange(end, end + 1)[0] == s[end]);
        assert forall|k: int| 0 <= k < rest.len() implies is_key_text((#[trigger] rest[k]).0)
            && is_value_text(rest[k].1) by {
            assert(rest[k] == pairs[k + 1]);
        }
        lemma_attrs_found(s, end + 1, rest, fed);
        assert(read_pairs(pairs) =~= seq![(decode_utf8(key), value)] + read_pairs(rest));
    }
}

/// A line that spells a valid timestamp, a banner and one attribute or more,
/// with single spaces between them, is read as the mapping of these
/// attributes at that instant, the same with and without a line feed at its
/// end.
pub proof fn lemma_record_line(
    stamp: TimestampView,
    banner: Seq<u8>,
    pairs: Seq<(Seq<u8>, Seq<u8>)>,
    fed: bool,
)
    requires
        stamp.is_valid(),
        0 <= stamp.date.year <= 9999,
        is_banner(banner),
        pairs.len() > 0,
        are_attr_texts(pairs),
    ensures
        line(preamble_text(stamp, banner) + attrs_text(pairs) + line_end(fed)) == Ok::<
            _,
            ParseError,
        >(LogEntryView { datetime: stamp, attrs: attr_map(read_pairs(pairs)) }),
{
    let head = preamble_text(stamp, banner);
    let body = attrs_text(pairs) + line_end(fed);
    lemma_joined(head, attrs_text(pairs), line_end(fed));
    lemma_preamble(stamp, banner, body);
    lemma_bytes_between(head, body, Seq::empty());
    assert(head + body + Seq::<u8>::empty() =~= head + body);
    lemma_attrs_found(head + body, head.len() as int, pairs, fed);
}

/// A line that spells a valid timestamp and a banner and ends there is a
/// record without attributes.
pub proof fn lemma_empty_record_line(stamp: TimestampView, banner: Seq<u8>)
    requires
        stamp.is_valid(),
        0 <= stamp.date.year <= 9999,
        is_banner(banner),
    ensures
        line(preamble_text(stamp, banner)) == Ok::<_, ParseError>(
            LogEntryView { datetime: stamp, attrs: Map::empty() },
        ),
{
    let head = preamble_text(stamp, banner);
    lemma_preamble(stamp, banner, Seq::empty());
    assert(head + Seq::<u8>::empty() =~= head);
}

impl LogEntry {
    /// Parses one line of the HTTP proxy log.
    ///
    /// The result is an error exactly when the line does not start with a
    /// preamble and a list of attributes: [`ParseError::OutOfRange`] where
    /// the timestamp has the right shape and names no real instant,
    /// [`ParseError::Malformed`] otherwise. Callers usually treat the two
    /// alike: they report the line and go on.
    pub fn new(s: &[u8]) -> (r: Result<LogEntry, ParseError>)
        ensures
            match r {
                Ok(entry) => Ok(entry@),
                Err(e) => Err(e),
            } == line(s@),
    {
        match log_entry(s, 0) {
            Ok((entry, _)) => Ok(entry),
            Err(e) => Err(e),
        }
    }
}

/// Parses a log line that starts at `pos`: the preamble and the attributes.
pub fn log_entry(input: &[u8], pos: usize) -> (r: Result<(LogEntry, usize), ParseError>)
    ensures
        parsed(r) == log_entry_at(input@, pos as int),
{
    let (datetime, start) = match preamble(input, pos) {
        Ok(found) => found,
        Err(e) => {
            return Err(e);
        },
    };
    match attrs(input, start) {
        Ok((attrs, end)) => Ok((LogEntry { datetime, attrs }, end)),
        Err(e) => Err(e),
    }
}

/// Parses one attribute `key="value"` that starts at `pos`.
pub fn attr(input: &[u8], pos: usize) -> (r: Result<((String, Vec<u8>), usize), ParseError>)
    ensures
        parsed(r) == attr_at(input@, pos as int),
{
    if pos >= input.len() {
        return Err(ParseError::Malformed);
    }
    let equals = scan_until(input, pos, EQUALS);
    proof {
        lemma_run_end(input@, pos as int, EQUALS);
    }
    if !(pos < equals && equals < input.len() && input.len() - equals > 1 && input[equals + 1]
        == QUOTE) {
        return Err(ParseError::Malformed);
    }
    let close = scan_until(input, equals + 2, QUOTE);
    proof {
        lemma_run_end(input@, equals + 2, QUOTE);
    }
    if close >= input.len() {
        return Err(ParseError::Malformed);
    }
    match decode_range(input, pos, equals) {
        Some(key) => Ok(((key, copy_range(input, equals + 2, close)), close + 1)),
        None => Err(ParseError::Malformed),
    }
}

/// Parses the attributes from `pos` on into a mapping.
pub fn attrs(input: &[u8], pos: usize) -> (r: Result<(Attrs, usize), ParseError>)
    ensures
        parsed(r) == attr_map_at(input@, pos as int),
{
    let mut found = Attrs::new();
    let mut at: usize = pos;
    let ghost mut seen: Seq<(Seq<char>, Seq<u8>)> = Seq::empty();
    loop
        invariant
            found@ == attr_map(seen),
            attrs_at(input@, pos as int) == after(seen, attrs_at(input@, at as int)),
        decreases input@.len() - at,
    {
        if at == input.len() || (at < input.len() && input[at] == EQUALS) {
            assert(seen + Seq::<(Seq<char>, Seq<u8>)>::empty() =~= seen);
            return Ok((found, at));
        }
        let ((key, value), end) = match attr(input, at) {
            Ok(one) => one,
            Err(e) => {
                return Err(e);
            },
        };
        let ghost pair = (key@, value@);
        proof {
            lemma_run_end(input@, at as int, EQUALS);
            lemma_run_end(input@, run_end(input@, at as int, EQUALS) + 2, QUOTE);
            assert((seen + seq![pair]).drop_last() =~= seen);
        }
        found.insert(key, value);
        if end >= input.len() {
            return Ok((found, end));
        }
        if input[end] == NEWLINE {
            return Ok((found, end + 1));
        }
        if input[end] != SPACE {
            return Err(ParseError::Malformed);
        }
        proof {
            let rest = attrs_at(input@, end + 1);
            match rest {
                Ok((pairs, stop)) => {
                    assert(seen + (seq![pair] + pairs) =~= (seen + seq![pair]) + pairs);
                },
                Err(_) => {},
            }
            seen = seen + seq![pair];
        }
        at = end + 1;
    }
}

} // verus!
