//! The fact: one tracked activity, its identity, and the line it is
//! written as.

use crate::instant::{
    has_timestamp, in_calendar, is_local_timestamp, minutes_between, timestamp,
    timestamp_chars_only, whole_minutes,
};
use crate::text::{
    clear_tabs, count_char, decimal, decimal_text, escaped, is_digit, join, joined,
    lemma_count_absent, lemma_count_concat, lemma_count_single, lemma_decimal_chars,
    lemma_escaped_stays_in_field, lemma_joined_count, lemma_without_semicolons_counts,
    replace_semicolons, texts, without_semicolons,
};
use vstd::prelude::*;
use vstd::std_specs::cmp::PartialEqSpecImpl;
use vstd::string::*;

verus! {

/// What makes two records the same fact: the activity and the instant it
/// started at, in whole seconds.
pub struct Identity {
    pub activity: Seq<char>,
    pub start_time: int,
}

/// A fact as a mathematical value.
pub struct FactView {
    pub activity: Seq<char>,
    pub start_time: int,
    pub end_time: Option<int>,
    pub duration: Option<int>,
    pub tags: Seq<Seq<char>>,
    pub description: Option<Seq<char>>,
}

/// The duration that follows from a start and an end: their distance in
/// whole minutes, and none while the fact is open.
pub open spec fn derived_duration(start_time: int, end_time: Option<int>) -> Option<int> {
    match end_time {
        Some(end) => Some(whole_minutes(end - start_time)),
        None => None,
    }
}

/// The items of a sequence without repetitions: each where it first occurs.
pub open spec fn first_occurrences(items: Seq<Seq<char>>) -> Seq<Seq<char>>
    decreases items.len(),
{
    if items.len() == 0 {
        Seq::empty()
    } else {
        let front = first_occurrences(items.drop_last());
        if front.contains(items.last()) {
            front
        } else {
            front.push(items.last())
        }
    }
}

/// The fact that is made of the given parts: the duration is derived, and
/// each tag is kept once.
pub open spec fn new_fact(
    activity: Seq<char>,
    start_time: int,
    end_time: Option<int>,
    tags: Seq<Seq<char>>,
    description: Option<Seq<char>>,
) -> FactView {
    FactView {
        activity,
        start_time,
        end_time,
        duration: derived_duration(start_time, end_time),
        tags: first_occurrences(tags),
        description,
    }
}

/// An optional instant as a mathematical value.
pub open spec fn instant_of(seconds: Option<i64>) -> Option<int> {
    match seconds {
        Some(s) => Some(s as int),
        None => None,
    }
}

/// An optional string as a mathematical value.
pub open spec fn text_of(string: Option<String>) -> Option<Seq<char>> {
    match string {
        Some(s) => Some(s@),
        None => None,
    }
}

/// The duration field of a line: the minutes in decimal notation, empty
/// where there is no duration.
pub open spec fn duration_text(duration: Option<int>) -> Seq<char> {
    match duration {
        Some(minutes) => decimal_text(minutes),
        None => Seq::empty(),
    }
}

/// The labels that stand in the tags field: the tags in order, after each
/// semicolon inside a tag has become a comma.
pub open spec fn tag_labels(tags: Seq<Seq<char>>) -> Seq<Seq<char>> {
    Seq::new(tags.len(), |i: int| without_semicolons(tags[i]))
}

/// The tags field of a line: the labels of the tags with a semicolon
/// between neighbours.
pub open spec fn tags_text(tags: Seq<Seq<char>>) -> Seq<char> {
    joined(tag_labels(tags), seq![';'])
}

/// The description field of a line: the description escaped, empty where
/// there is none.
pub open spec fn description_text(description: Option<Seq<char>>) -> Seq<char> {
    match description {
        Some(text) => escaped(text),
        None => Seq::empty(),
    }
}

/// The first number of the identity hash.
pub const HASH_SEED: u64 = 0xcbf2_9ce4_8422_2325;

/// The multiplier of the identity hash.
pub const HASH_PRIME: u64 = 0x0000_0100_0000_01b3;

/// One step of the identity hash: the running value takes in `x`.
pub open spec fn hash_step(h: u64, x: u64) -> u64 {
    (h ^ x).wrapping_mul(HASH_PRIME)
}

/// The running hash value after the characters of `text`.
pub open spec fn hash_text(text: Seq<char>) -> u64
    decreases text.len(),
{
    if text.len() == 0 {
        HASH_SEED
    } else {
        hash_step(hash_text(text.drop_last()), text.last() as u64)
    }
}

/// The hash of an identity: its activity, character by character, then its
/// start, counted from the least instant an `i64` holds.
pub open spec fn identity_hash(id: Identity) -> u64 {
    hash_step(hash_text(id.activity), (id.start_time + 0x8000_0000_0000_0000) as u64)
}

impl FactView {
    /// The line of the fact with the given texts for start and end: six
    /// fields with a tab between neighbours.
    pub open spec fn line(self, start_text: Seq<char>, end_text: Seq<char>) -> Seq<char> {
        self.activity + seq!['\t'] + start_text + seq!['\t'] + end_text + seq!['\t']
            + duration_text(self.duration) + seq!['\t'] + tags_text(self.tags) + seq!['\t']
            + description_text(self.description)
    }

    /// Whether two texts can stand for the start and the end of the fact:
    /// the first is a local timestamp of the start; the second is one of the
    /// end where the fact has an end, and empty where it has none.
    pub open spec fn fits(self, start_text: Seq<char>, end_text: Seq<char>) -> bool {
        &&& start_text.len() > 0
        &&& timestamp_chars_only(start_text)
        &&& timestamp_chars_only(end_text)
        &&& is_local_timestamp(self.start_time, start_text)
        &&& self.end_time matches Some(end) ==> is_local_timestamp(end, end_text)
        &&& self.end_time is None <==> end_text.len() == 0
    }

    /// Whether `text` is a line of the fact: the line with some timestamps
    /// for its start and end.
    pub open spec fn is_line(self, text: Seq<char>) -> bool {
        exists|start_text: Seq<char>, end_text: Seq<char>|
            self.fits(start_text, end_text) && text == #[trigger] self.line(start_text, end_text)
    }

    /// The hash of the fact, which is that of its identity.
    pub open spec fn hash(self) -> u64 {
        identity_hash(self.identity())
    }

    /// The identity of the fact.
    pub open spec fn identity(self) -> Identity {
        Identity { activity: self.activity, start_time: self.start_time }
    }

    /// Whether two facts are the same fact: end, duration, tags and
    /// description play no part in that.
    pub open spec fn same_fact(self, other: FactView) -> bool {
        self.activity == other.activity && self.start_time == other.start_time
    }

    /// What holds of every fact: its duration follows from its start and
    /// end, and no tag occurs twice.
    pub open spec fn well_formed(self) -> bool {
        &&& self.duration == derived_duration(self.start_time, self.end_time)
        &&& self.tags.no_duplicates()
    }

    /// Whether the activity and the tags keep to their fields: none of
    /// them holds a tab, a carriage return or a newline.
    pub open spec fn keeps_fields(self) -> bool {
        &&& stays_in_field(self.activity)
        &&& forall|i: int| 0 <= i < self.tags.len() ==> stays_in_field(#[trigger] self.tags[i])
    }

    /// Whether the fact can be written as a line: its start and its end
    /// each have a timestamp.
    pub open spec fn renderable(self) -> bool {
        &&& has_timestamp(self.start_time)
        &&& self.end_time matches Some(end) ==> has_timestamp(end)
    }
}

/// A tracked activity: when it started, when it ended if it did, its tags
/// and a description. Immutable once made.
#[derive(Debug)]
pub struct Fact {
    activity: String,
    start_time: i64,
    end_time: Option<i64>,
    duration: Option<i64>,
    tags: Vec<String>,
    description: Option<String>,
}

impl View for Fact {
    type V = FactView;

    closed spec fn view(&self) -> FactView {
        FactView {
            activity: self.activity@,
            start_time: self.start_time as int,
            end_time: instant_of(self.end_time),
            duration: instant_of(self.duration),
            tags: texts(self.tags@),
            description: text_of(self.description),
        }
    }
}

/// Keeping first occurrences leaves no repetition, and loses no item.
pub proof fn lemma_first_occurrences_distinct(items: Seq<Seq<char>>)
    ensures
        first_occurrences(items).no_duplicates(),
        forall|t: Seq<char>| first_occurrences(items).contains(t) <==> items.contains(t),
    decreases items.len(),
{
    if items.len() > 0 {
        let front = items.drop_last();
        let last = items.last();
        let kept = first_occurrences(items);
        let kept_front = first_occurrences(front);
        lemma_first_occurrences_distinct(front);
        assert forall|t: Seq<char>| kept.contains(t) <==> items.contains(t) by {
            if kept.contains(t) {
                let j = choose|j: int| 0 <= j < kept.len() && kept[j] == t;
                if j < kept_front.len() {
                    assert(kept_front[j] == t);
                    assert(kept_front.contains(t));
                    assert(front.contains(t));
                    let i = choose|i: int| 0 <= i < front.len() && front[i] == t;
                    assert(items[i] == t);
                } else {
                    assert(items[items.len() - 1] == t);
                }
            }
            if items.contains(t) {
                let i = choose|i: int| 0 <= i < items.len() && items[i] == t;
                if i < items.len() - 1 {
                    assert(front[i] == t);
                    assert(front.contains(t));
                    assert(kept_front.contains(t));
                    let j = choose|j: int| 0 <= j < kept_front.len() && kept_front[j] == t;
                    assert(kept[j] == t);
                } else if kept_front.contains(last) {
                } else {
                    assert(kept[kept_front.len() as int] == t);
                }
            }
        }
    }
}

fn contains_text(list: &Vec<String>, text: &String) -> (found: bool)
    ensures
        found == texts(list@).contains(text@),
{
    let mut i: usize = 0;
    while i < list.len()
        invariant
            i <= list.len(),
            forall|j: int| 0 <= j < i ==> texts(list@)[j] != text@,
        decreases list.len() - i,
    {
        if list[i] == *text {
            assert(texts(list@)[i as int] == text@);
            return true;
        }
        i += 1;
    }
    false
}

fn keep_first(items: Vec<String>) -> (kept: Vec<String>)
    ensures
        texts(kept@) == first_occurrences(texts(items@)),
{
    let mut kept: Vec<String> = Vec::new();
    let mut i: usize = 0;
    assert(texts(items@).take(0) =~= Seq::empty());
    assert(texts(kept@) =~= Seq::empty());
    while i < items.len()
        invariant
            i <= items.len(),
            texts(kept@) == first_occurrences(texts(items@).take(i as int)),
        decreases items.len() - i,
    {
        let ghost seen = texts(items@).take(i as int);
        let ghost next = texts(items@).take(i + 1);
        assert(next.drop_last() =~= seen);
        assert(next.last() == items@[i as int]@);
        if !contains_text(&kept, &items[i]) {
            let ghost before = texts(kept@);
            kept.push(items[i].clone());
            assert(texts(kept@) =~= before.push(items@[i as int]@));
        }
        i += 1;
    }
    assert(texts(items@).take(items@.len() as int) =~= texts(items@));
    kept
}

impl Fact {
    #[verifier::type_invariant]
    spec fn inv(self) -> bool {
        self@.well_formed()
    }

    /// Makes a fact. The duration is computed from start and end; a tag
    /// given more than once is kept where it first stands.
    pub fn new(
        activity: String,
        start_time: i64,
        end_time: Option<i64>,
        tags: Vec<String>,
        description: Option<String>,
    ) -> (fact: Fact)
        ensures
            fact@ == new_fact(
                activity@,
                start_time as int,
                instant_of(end_time),
                texts(tags@),
                text_of(description),
            ),
    {
        let duration = match end_time {
            Some(end) => Some(minutes_between(start_time, end)),
            None => None,
        };
        proof {
            lemma_first_occurrences_distinct(texts(tags@));
        }
        let tags = keep_first(tags);
        Fact { activity, start_time, end_time, duration, tags, description }
    }

    /// The name of the activity.
    pub fn activity(&self) -> (r: &String)
        ensures
            r@ == self@.activity,
    {
        &self.activity
    }

    /// When the fact started, in seconds since 1970-01-01T00:00:00Z.
    pub fn start_time(&self) -> (r: i64)
        ensures
            r == self@.start_time,
    {
        self.start_time
    }

    /// When the fact ended; `None` while it is open.
    pub fn end_time(&self) -> (r: Option<i64>)
        ensures
            instant_of(r) == self@.end_time,
    {
        self.end_time
    }

    /// The whole minutes from start to end; `None` while the fact is open.
    pub fn duration(&self) -> (r: Option<i64>)
        ensures
            instant_of(r) == self@.duration,
            self@.duration == derived_duration(self@.start_time, self@.end_time),
    {
        proof {
            use_type_invariant(self);
        }
        self.duration
    }

    /// The tags of the fact, each once.
    pub fn tags(&self) -> (r: &Vec<String>)
        ensures
            texts(r@) == self@.tags,
            self@.tags.no_duplicates(),
    {
        proof {
            use_type_invariant(self);
        }
        &self.tags
    }

    /// The description of the fact, if it has one.
    pub fn description(&self) -> (r: &Option<String>)
        ensures
            text_of(*r) == self@.description,
    {
        &self.description
    }

    /// A number that equal facts share: it is computed from the activity
    /// and the start alone.
    pub fn hash(&self) -> (h: u64)
        ensures
            h == self@.hash(),
    {
        broadcast use vstd::string::group_string_axioms;

        let mut h: u64 = HASH_SEED;
        for c in it: self.activity.as_str().chars()
            invariant
                it.seq() == self.activity@,
                h == hash_text(self.activity@.take(it.index())),
        {
            proof {
                let n = it.index();
                assert(self.activity@.take(n + 1).drop_last() == self.activity@.take(n));
                assert(self.activity@.take(n + 1).last() == c);
            }
            h = (h ^ (c as u64)).wrapping_mul(HASH_PRIME);
        }
        proof {
            assert(self.activity@.take(self.activity@.len() as int) == self.activity@);
        }
        let start: u64 = (self.start_time as i128 + 0x8000_0000_0000_0000i128) as u64;
        (h ^ start).wrapping_mul(HASH_PRIME)
    }

    /// Whether the fact can be written as a line.
    pub fn is_renderable(&self) -> (r: bool)
        ensures
            r == self@.renderable(),
    {
        in_calendar(self.start_time) && match self.end_time {
            Some(end) => in_calendar(end),
            None => true,
        }
    }

    /// The line of the fact with the given texts in its start and end
    /// fields.
    pub fn render_with(&self, start_text: &str, end_text: &str) -> (out: String)
        ensures
            out@ == self@.line(start_text@, end_text@),
    {
        proof {
            reveal_strlit("\t");
        }
        let mut out = self.activity.clone();
        out.append("\t");
        out.append(start_text);
        out.append("\t");
        out.append(end_text);
        out.append("\t");
        match self.duration {
            Some(minutes) => {
                let text = decimal(minutes);
                out.append(text.as_str());
            },
            None => {},
        }
        out.append("\t");
        let tags = tags_field(&self.tags);
        out.append(tags.as_str());
        out.append("\t");
        match &self.description {
            Some(text) => {
                let field = clear_tabs(text.as_str());
                out.append(field.as_str());
            },
            None => {},
        }
        proof {
            assert(out@ =~= self@.line(start_text@, end_text@));
        }
        out
    }

    /// The line of the fact, with its start and end as RFC 3339 timestamps
    /// in the local time zone; `None` where one of them has no timestamp.
    /// Where the activity and the tags keep to their fields, the line has
    /// six fields and is one line, whatever the description holds.
    pub fn render(&self) -> (r: Option<String>)
        ensures
            r is Some <==> self@.renderable(),
            r matches Some(text) ==> self@.is_line(text@),
            r matches Some(text) ==> (self@.keeps_fields() ==> has_six_fields(text@)),
    {
        let start_text = match timestamp(self.start_time) {
            Some(text) => text,
            None => { return None; },
        };
        let end_text = match self.end_time {
            Some(end) => match timestamp(end) {
                Some(text) => text,
                None => { return None; },
            },
            None => String::new(),
        };
        let out = self.render_with(start_text.as_str(), end_text.as_str());
        proof {
            assert(self@.fits(start_text@, end_text@));
            if self@.keeps_fields() {
                lemma_line_has_six_fields(self@, out@);
            }
        }
        Some(out)
    }
}

fn tags_field(tags: &Vec<String>) -> (out: String)
    ensures
        out@ == tags_text(texts(tags@)),
{
    broadcast use vstd::string::group_string_axioms;

    let mut parts: Vec<String> = Vec::new();
    let mut i: usize = 0;
    while i < tags.len()
        invariant
            i <= tags.len(),
            parts@.len() == i,
            forall|j: int| 0 <= j < i ==> parts@[j]@ == without_semicolons(tags@[j]@),
        decreases tags.len() - i,
    {
        parts.push(replace_semicolons(tags[i].as_str()));
        i += 1;
    }
    proof {
        reveal_strlit(";");
        assert(texts(parts@) =~= tag_labels(texts(tags@)));
        assert(";"@ =~= seq![';']);
        assert(is_ascii(";"));
        assert(";".spec_bytes().len() == 1);
    }
    join(&parts, ";")
}

impl PartialEq for Fact {
    /// Two facts are equal where they are the same fact.
    fn eq(&self, other: &Fact) -> (r: bool) {
        self.activity == other.activity && self.start_time == other.start_time
    }
}

impl Eq for Fact {}

impl PartialEqSpecImpl for Fact {
    open spec fn obeys_eq_spec() -> bool {
        true
    }

    open spec fn eq_spec(&self, other: &Fact) -> bool {
        self@.same_fact(other@)
    }
}

/// Equal facts have equal hashes: the hash reads nothing but the identity.
pub proof fn lemma_equal_facts_hash_alike(a: FactView, b: FactView)
    requires
        a.same_fact(b),
    ensures
        a.hash() == b.hash(),
{
    assert(a.identity() == b.identity());
}

/// Whether a text stays within one field of one line: it holds no tab, no
/// carriage return and no newline.
pub open spec fn stays_in_field(text: Seq<char>) -> bool {
    &&& count_char(text, '\t') == 0
    &&& count_char(text, '\r') == 0
    &&& count_char(text, '\n') == 0
}

/// The tags field holds one semicolon less than there are tags, whatever
/// the tags hold: the semicolons of the tags themselves are gone.
pub proof fn lemma_tags_text_semicolons(tags: Seq<Seq<char>>)
    ensures
        tags.len() == 0 ==> count_char(tags_text(tags), ';') == 0,
        tags.len() > 0 ==> count_char(tags_text(tags), ';') == tags.len() - 1,
{
    let parts = tag_labels(tags);
    assert forall|i: int| 0 <= i < parts.len() implies count_char(#[trigger] parts[i], ';')
        == 0 by {
        lemma_without_semicolons_counts(tags[i], ';');
    }
    lemma_joined_count(parts, seq![';'], ';');
    lemma_count_single(';', ';');
    if tags.len() > 0 {
        assert((parts.len() - 1) * 1 == tags.len() - 1);
    }
}

proof fn lemma_tags_text_count(tags: Seq<Seq<char>>, c: char)
    requires
        c == '\t' || c == '\r' || c == '\n',
        forall|i: int| 0 <= i < tags.len() ==> count_char(#[trigger] tags[i], c) == 0,
    ensures
        count_char(tags_text(tags), c) == 0,
{
    let parts = tag_labels(tags);
    assert forall|i: int| 0 <= i < parts.len() implies count_char(#[trigger] parts[i], c)
        == 0 by {
        lemma_without_semicolons_counts(tags[i], c);
    }
    lemma_joined_count(parts, seq![';'], c);
    lemma_count_absent(seq![';'], c);
    if tags.len() > 0 {
        assert((parts.len() - 1) * 0 == 0);
    }
}

proof fn lemma_line_count(fact: FactView, start_text: Seq<char>, end_text: Seq<char>, c: char)
    requires
        c == '\t' || c == '\r' || c == '\n',
        count_char(fact.activity, c) == 0,
        forall|i: int| 0 <= i < fact.tags.len() ==> count_char(#[trigger] fact.tags[i], c) == 0,
        timestamp_chars_only(start_text),
        timestamp_chars_only(end_text),
    ensures
        count_char(fact.line(start_text, end_text), c) == if c == '\t' {
            5nat
        } else {
            0nat
        },
{
    let tab = seq!['\t'];
    let duration = duration_text(fact.duration);
    let tags = tags_text(fact.tags);
    let description = description_text(fact.description);
    lemma_count_single('\t', c);
    lemma_count_absent(start_text, c);
    lemma_count_absent(end_text, c);
    assert(count_char(duration, c) == 0) by {
        match fact.duration {
            Some(minutes) => {
                assert(!is_digit(c));
                lemma_decimal_chars(minutes, c);
            },
            None => {},
        }
    }
    lemma_tags_text_count(fact.tags, c);
    assert(count_char(description, c) == 0) by {
        match fact.description {
            Some(text) => {
                lemma_escaped_stays_in_field(text);
            },
            None => {},
        }
    }
    let l1 = fact.activity + tab;
    let l2 = l1 + start_text;
    let l3 = l2 + tab;
    let l4 = l3 + end_text;
    let l5 = l4 + tab;
    let l6 = l5 + duration;
    let l7 = l6 + tab;
    let l8 = l7 + tags;
    let l9 = l8 + tab;
    lemma_count_concat(fact.activity, tab, c);
    lemma_count_concat(l1, start_text, c);
    lemma_count_concat(l2, tab, c);
    lemma_count_concat(l3, end_text, c);
    lemma_count_concat(l4, tab, c);
    lemma_count_concat(l5, duration, c);
    lemma_count_concat(l6, tab, c);
    lemma_count_concat(l7, tags, c);
    lemma_count_concat(l8, tab, c);
    lemma_count_concat(l9, description, c);
}

/// Whether a text has six fields and is one line: it holds exactly five
/// tabs, no carriage return and no newline.
pub open spec fn has_six_fields(text: Seq<char>) -> bool {
    &&& count_char(text, '\t') == 5
    &&& count_char(text, '\r') == 0
    &&& count_char(text, '\n') == 0
}

/// A line has six fields and stays one line, whatever the description
/// holds, where the activity and the tags keep to their fields.
pub proof fn lemma_line_has_six_fields(fact: FactView, text: Seq<char>)
    requires
        fact.is_line(text),
        fact.keeps_fields(),
    ensures
        has_six_fields(text),
{
    let (start_text, end_text) = choose|start_text: Seq<char>, end_text: Seq<char>|
        fact.fits(start_text, end_text) && text == #[trigger] fact.line(start_text, end_text);
    lemma_line_count(fact, start_text, end_text, '\t');
    lemma_line_count(fact, start_text, end_text, '\r');
    lemma_line_count(fact, start_text, end_text, '\n');
}

/// Tags that are the same but for their order give labels that are the
/// same but for their order.
pub proof fn lemma_labels_of_same_tags(a: Seq<Seq<char>>, b: Seq<Seq<char>>)
    requires
        a.to_multiset() == b.to_multiset(),
    ensures
        tag_labels(a).to_multiset() == tag_labels(b).to_multiset(),
    decreases a.len(),
{
    a.to_multiset_ensures();
    b.to_multiset_ensures();
    if a.len() == 0 {
        assert(b.len() == 0);
        assert(tag_labels(a) =~= tag_labels(b));
    } else {
        let last = a.last();
        let front = a.drop_last();
        front.to_multiset_ensures();
        assert(front.push(last) =~= a);
        assert(a.to_multiset() =~= front.to_multiset().insert(last));
        assert(a.contains(last)) by {
            assert(a[a.len() - 1] == last);
        }
        assert(a.to_multiset().count(last) > 0);
        assert(b.to_multiset().count(last) > 0);
        assert(b.contains(last));
        let j = choose|j: int| 0 <= j < b.len() && b[j] == last;
        let rest = b.remove(j);
        assert(rest.to_multiset() =~= b.to_multiset().remove(last));
        assert(rest.to_multiset() =~= front.to_multiset());
        lemma_labels_of_same_tags(front, rest);

        let label = without_semicolons(last);
        let la = tag_labels(a);
        let lb = tag_labels(b);
        tag_labels(front).to_multiset_ensures();
        lb.to_multiset_ensures();
        assert(tag_labels(front).push(label) =~= la);
        assert(la.to_multiset() =~= tag_labels(front).to_multiset().insert(label));
        assert(lb.remove(j) =~= tag_labels(rest));
        assert(lb[j] == label);
        assert(lb.contains(label));
        assert(tag_labels(rest).to_multiset() =~= lb.to_multiset().remove(label));
        assert(lb.to_multiset() =~= tag_labels(rest).to_multiset().insert(label));
    }
}

/// Facts that hold the same are written alike. With the same texts for
/// start and end they agree in every field but the tags, and the labels of
/// their tags fields are the same but for their order; where the tags stand
/// in the same order too, the lines are equal. One fact gives one line.
pub proof fn lemma_equal_facts_render_alike(
    a: FactView,
    b: FactView,
    start_text: Seq<char>,
    end_text: Seq<char>,
)
    requires
        a.well_formed(),
        b.well_formed(),
        a.activity == b.activity,
        a.start_time == b.start_time,
        a.end_time == b.end_time,
        a.description == b.description,
        a.tags.to_multiset() == b.tags.to_multiset(),
    ensures
        duration_text(a.duration) == duration_text(b.duration),
        description_text(a.description) == description_text(b.description),
        tag_labels(a.tags).to_multiset() == tag_labels(b.tags).to_multiset(),
        a.tags == b.tags ==> a.line(start_text, end_text) == b.line(start_text, end_text),
{
    lemma_labels_of_same_tags(a.tags, b.tags);
}

} // verus!
