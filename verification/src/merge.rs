//! The set that facts from all sources are gathered in: the first fact of
//! an identity stays, every later one is dropped.

use crate::fact::{
    first_occurrences, has_six_fields, instant_of, lemma_first_occurrences_distinct,
    lemma_line_has_six_fields, new_fact, stays_in_field, text_of, Fact, FactView, Identity,
};
use crate::text::{clear_tabs, escaped, lemma_escaped_stays_in_field, texts};
use vstd::prelude::*;

verus! {

/// The identities of a sequence of facts, in order.
pub open spec fn identities(facts: Seq<FactView>) -> Seq<Identity> {
    Seq::new(facts.len(), |i: int| facts[i].identity())
}

/// Whether a fact of the given identity is among `facts`.
pub open spec fn holds(facts: Seq<FactView>, id: Identity) -> bool {
    identities(facts).contains(id)
}

/// Whether no two of the facts are the same fact.
pub open spec fn distinct(facts: Seq<FactView>) -> bool {
    identities(facts).no_duplicates()
}

/// The facts after `fact` came in: it is added at the end unless a fact of
/// its identity is there already, in which case nothing changes.
pub open spec fn inserted(facts: Seq<FactView>, fact: FactView) -> Seq<FactView> {
    if holds(facts, fact.identity()) {
        facts
    } else {
        facts.push(fact)
    }
}

/// The facts after all of `incoming` came in, one after another.
pub open spec fn merged(facts: Seq<FactView>, incoming: Seq<FactView>) -> Seq<FactView>
    decreases incoming.len(),
{
    if incoming.len() == 0 {
        facts
    } else {
        inserted(merged(facts, incoming.drop_last()), incoming.last())
    }
}

/// One row as a source yields it: the fields of the fact, and the rows of
/// its tags, of which those that could not be read are `None`.
pub struct Row {
    pub activity: String,
    pub start_time: i64,
    pub end_time: Option<i64>,
    pub description: Option<String>,
    pub tags: Vec<Option<String>>,
}

/// The tags that a row's tag rows give: each readable one escaped, in
/// order; an unreadable one is passed over.
pub open spec fn readable_tags(tags: Seq<Option<String>>) -> Seq<Seq<char>>
    decreases tags.len(),
{
    if tags.len() == 0 {
        Seq::empty()
    } else {
        let front = readable_tags(tags.drop_last());
        match tags.last() {
            Some(tag) => front.push(escaped(tag@)),
            None => front,
        }
    }
}

/// The fact that a row stands for.
pub open spec fn row_fact(row: Row) -> FactView {
    new_fact(
        row.activity@,
        row.start_time as int,
        instant_of(row.end_time),
        readable_tags(row.tags@),
        text_of(row.description),
    )
}

/// The facts that the rows of a source give: one for each row that could
/// be read, in order; a row that could not be read (`None`) is passed over.
pub open spec fn readable_facts(rows: Seq<Option<Row>>) -> Seq<FactView>
    decreases rows.len(),
{
    if rows.len() == 0 {
        Seq::empty()
    } else {
        let front = readable_facts(rows.drop_last());
        match rows.last() {
            Some(row) => front.push(row_fact(row)),
            None => front,
        }
    }
}

/// The facts gathered so far, in the order in which they came in. No two
/// of them are the same fact.
pub struct FactSet {
    facts: Vec<Fact>,
}

impl View for FactSet {
    type V = Seq<FactView>;

    closed spec fn view(&self) -> Seq<FactView> {
        Seq::new(self.facts@.len(), |i: int| self.facts@[i]@)
    }
}

impl FactSet {
    #[verifier::type_invariant]
    spec fn inv(self) -> bool {
        distinct(self@)
    }

    /// The empty set.
    pub fn new() -> (set: FactSet)
        ensures
            set@ == Seq::<FactView>::empty(),
    {
        let set = FactSet { facts: Vec::new() };
        assert(set@ =~= Seq::<FactView>::empty());
        set
    }

    /// Whether the set holds the same fact as `fact`.
    pub fn contains(&self, fact: &Fact) -> (found: bool)
        ensures
            found == holds(self@, fact@.identity()),
    {
        let mut i: usize = 0;
        while i < self.facts.len()
            invariant
                i <= self.facts.len(),
                forall|j: int| 0 <= j < i ==> identities(self@)[j] != fact@.identity(),
            decreases self.facts.len() - i,
        {
            if self.facts[i] == *fact {
                assert(identities(self@)[i as int] == fact@.identity());
                return true;
            }
            i += 1;
        }
        false
    }

    /// Takes `fact` in unless the set holds the same fact already, and says
    /// whether it was taken in.
    pub fn insert(&mut self, fact: Fact) -> (added: bool)
        ensures
            final(self)@ == inserted(old(self)@, fact@),
            added == !holds(old(self)@, fact@.identity()),
    {
        proof {
            use_type_invariant(&*self);
        }
        if self.contains(&fact) {
            false
        } else {
            let ghost before = self@;
            let mut facts: Vec<Fact> = Vec::new();
            proof {
                assert(identities(Seq::<FactView>::new(0, |i: int| facts@[i]@)) =~= Seq::empty());
            }
            core::mem::swap(&mut self.facts, &mut facts);
            facts.push(fact);
            proof {
                let after = Seq::new(facts@.len(), |i: int| facts@[i]@);
                assert(after =~= before.push(fact@));
                assert(identities(after) =~= identities(before).push(fact@.identity()));
            }
            core::mem::swap(&mut self.facts, &mut facts);
            true
        }
    }
}

/// Makes the fact that a row stands for: the tags that could be read are
/// escaped, the others are passed over.
pub fn fact_from_row(row: Row) -> (fact: Fact)
    ensures
        fact@ == row_fact(row),
        forall|i: int| 0 <= i < fact@.tags.len() ==> stays_in_field(#[trigger] fact@.tags[i]),
{
    proof {
        lemma_row_tags_stay_in_field(row);
    }
    let Row { activity, start_time, end_time, description, tags } = row;
    let mut names: Vec<String> = Vec::new();
    let mut i: usize = 0;
    assert(tags@.take(0) =~= Seq::empty());
    assert(texts(names@) =~= Seq::empty());
    while i < tags.len()
        invariant
            i <= tags.len(),
            texts(names@) == readable_tags(tags@.take(i as int)),
        decreases tags.len() - i,
    {
        let ghost before = texts(names@);
        assert(tags@.take(i + 1).drop_last() =~= tags@.take(i as int));
        assert(tags@.take(i + 1).last() == tags@[i as int]);
        match &tags[i] {
            Some(tag) => {
                names.push(clear_tabs(tag.as_str()));
                assert(texts(names@) =~= before.push(escaped(tag@)));
            },
            None => {},
        }
        i += 1;
    }
    assert(tags@.take(tags@.len() as int) =~= tags@);
    Fact::new(activity, start_time, end_time, names, description)
}

/// Takes the facts of one source into the set, row by row in the order
/// given. A row that could not be read is passed over; every other row
/// gives a fact, and the fact is taken in unless the set holds the same
/// fact already.
pub fn load_facts(facts: &mut FactSet, rows: Vec<Option<Row>>)
    ensures
        final(facts)@ == merged(old(facts)@, readable_facts(rows@)),
{
    broadcast use vstd::std_specs::vec::group_vec_axioms;

    assert(rows@.take(0) =~= Seq::empty());
    for entry in it: rows
        invariant
            it.seq() == rows@,
            facts@ == merged(old(facts)@, readable_facts(rows@.take(it.index()))),
    {
        let ghost n = it.index();
        assert(rows@.take(n + 1).drop_last() =~= rows@.take(n));
        assert(rows@.take(n + 1).last() == entry);
        match entry {
            Some(row) => {
                let fact = fact_from_row(row);
                assert(readable_facts(rows@.take(n + 1)).drop_last() =~= readable_facts(
                    rows@.take(n),
                ));
                facts.insert(fact);
            },
            None => {},
        }
    }
    assert(rows@.take(rows@.len() as int) =~= rows@);
}

impl FactSet {
    /// How many facts the set holds. No two of them are the same fact.
    pub fn len(&self) -> (n: usize)
        ensures
            n == self@.len(),
            distinct(self@),
    {
        proof {
            use_type_invariant(self);
        }
        self.facts.len()
    }

    /// The fact at position `index` in the order of arrival, if there is
    /// one.
    pub fn get(&self, index: usize) -> (r: Option<&Fact>)
        ensures
            r is Some <==> index < self@.len(),
            r matches Some(fact) ==> fact@ == self@[index as int],
    {
        if index < self.facts.len() {
            Some(&self.facts[index])
        } else {
            None
        }
    }
}

/// Writes the set out: one entry for each fact, in the order of arrival.
/// The entry is the line of the fact, or `None` for a fact whose start or
/// end has no timestamp: such a fact stays in the set and is left out of
/// what is written. There is no header and no summary.
pub fn export(facts: &FactSet) -> (lines: Vec<Option<String>>)
    ensures
        lines@.len() == facts@.len(),
        forall|i: int|
            0 <= i < facts@.len() ==> (lines@[i] is Some <==> (#[trigger] facts@[i]).renderable()),
        forall|i: int|
            0 <= i < facts@.len() ==> (lines@[i] matches Some(line) ==> (#[trigger] facts@[i]).is_line(
                line@,
            )),
        forall|i: int|
            0 <= i < facts@.len() && (#[trigger] facts@[i]).keeps_fields() ==> (lines@[i] matches Some(
                line,
            ) ==> has_six_fields(line@)),
{
    let mut lines: Vec<Option<String>> = Vec::new();
    let mut i: usize = 0;
    while i < facts.facts.len()
        invariant
            i <= facts.facts.len(),
            facts@.len() == facts.facts.len(),
            lines@.len() == i,
            forall|j: int|
                0 <= j < i ==> (lines@[j] is Some <==> (#[trigger] facts@[j]).renderable()),
            forall|j: int|
                0 <= j < i ==> (lines@[j] matches Some(line) ==> (#[trigger] facts@[j]).is_line(
                    line@,
                )),
            forall|j: int|
                0 <= j < i && (#[trigger] facts@[j]).keeps_fields() ==> (lines@[j] matches Some(
                    line,
                ) ==> has_six_fields(line@)),
        decreases facts.facts.len() - i,
    {
        let line = facts.facts[i].render();
        assert(facts@[i as int] == facts.facts@[i as int]@);
        lines.push(line);
        i += 1;
    }
    lines
}

/// Taking a fact in keeps the facts distinct.
pub proof fn lemma_inserted_distinct(facts: Seq<FactView>, fact: FactView)
    requires
        distinct(facts),
    ensures
        distinct(inserted(facts, fact)),
{
    if !holds(facts, fact.identity()) {
        assert(identities(facts.push(fact)) =~= identities(facts).push(fact.identity()));
    }
}

/// Taking facts in keeps the facts distinct, however many come.
pub proof fn lemma_merged_distinct(facts: Seq<FactView>, incoming: Seq<FactView>)
    requires
        distinct(facts),
    ensures
        distinct(merged(facts, incoming)),
    decreases incoming.len(),
{
    if incoming.len() > 0 {
        lemma_merged_distinct(facts, incoming.drop_last());
        lemma_inserted_distinct(merged(facts, incoming.drop_last()), incoming.last());
    }
}

/// The first of two equal facts wins: once `first` came in, a `second`
/// that is the same fact changes nothing, whatever else it holds. Coming
/// into an empty set, the two leave `first` alone.
pub proof fn lemma_first_wins(facts: Seq<FactView>, first: FactView, second: FactView)
    requires
        first.same_fact(second),
    ensures
        inserted(inserted(facts, first), second) == inserted(facts, first),
        merged(Seq::empty(), seq![first, second]) == seq![first],
{
    assert(first.identity() == second.identity());
    lemma_holds_after_insert(facts, first);
    let both = seq![first, second];
    let empty = Seq::<FactView>::empty();
    assert(both.drop_last() =~= seq![first]);
    assert(seq![first].drop_last() =~= empty);
    assert(identities(empty) =~= Seq::empty());
    assert(!holds(empty, first.identity()));
    assert(merged(empty, empty) == empty);
    assert(merged(empty, seq![first]) == inserted(empty, first));
    assert(inserted(empty, first) =~= seq![first]);
    lemma_holds_after_insert(empty, first);
    assert(merged(empty, both) == inserted(merged(empty, seq![first]), second));
}

/// After a fact came in, the facts hold its identity.
pub proof fn lemma_holds_after_insert(facts: Seq<FactView>, fact: FactView)
    ensures
        holds(inserted(facts, fact), fact.identity()),
{
    if !holds(facts, fact.identity()) {
        let after = facts.push(fact);
        assert(identities(after)[facts.len() as int] == fact.identity());
    }
}

/// The identities after a fact came in: those held before, and its own.
pub proof fn lemma_inserted_identities(facts: Seq<FactView>, fact: FactView, id: Identity)
    ensures
        holds(inserted(facts, fact), id) <==> holds(facts, id) || id == fact.identity(),
{
    lemma_holds_after_insert(facts, fact);
    if !holds(facts, fact.identity()) {
        let after = facts.push(fact);
        assert(identities(after) =~= identities(facts).push(fact.identity()));
        if holds(facts, id) {
            let i = choose|i: int| 0 <= i < identities(facts).len() && identities(facts)[i] == id;
            assert(identities(after)[i] == id);
        }
        if holds(after, id) {
            let i = choose|i: int| 0 <= i < identities(after).len() && identities(after)[i] == id;
            if i < facts.len() {
                assert(identities(facts)[i] == id);
            }
        }
    }
}

/// The identities after a merge are those held before together with those
/// that came in: the union of the sources.
pub proof fn lemma_merged_identities(facts: Seq<FactView>, incoming: Seq<FactView>)
    ensures
        forall|id: Identity|
            holds(merged(facts, incoming), id) <==> holds(facts, id) || holds(incoming, id),
        identities(merged(facts, incoming)).to_set() == identities(facts).to_set().union(
            identities(incoming).to_set(),
        ),
    decreases incoming.len(),
{
    assert forall|id: Identity|
        holds(merged(facts, incoming), id) <==> holds(facts, id) || holds(incoming, id) by {
        if incoming.len() == 0 {
            assert(identities(incoming) =~= Seq::empty());
        } else {
            let front = incoming.drop_last();
            let last = incoming.last();
            lemma_merged_identities(facts, front);
            lemma_inserted_identities(merged(facts, front), last, id);
            assert(identities(incoming).drop_last() =~= identities(front));
            if holds(front, id) {
                let i = choose|i: int| 0 <= i < identities(front).len() && identities(front)[i] == id;
                assert(identities(incoming)[i] == id);
            }
            if id == last.identity() {
                assert(identities(incoming)[incoming.len() - 1] == id);
            }
            if holds(incoming, id) {
                let i = choose|i: int|
                    0 <= i < identities(incoming).len() && identities(incoming)[i] == id;
                if i < front.len() {
                    assert(identities(front)[i] == id);
                }
            }
        }
    }
    let after = identities(merged(facts, incoming)).to_set();
    let both = identities(facts).to_set().union(identities(incoming).to_set());
    assert forall|id: Identity| after.contains(id) <==> both.contains(id) by {
        assert(after.contains(id) <==> holds(merged(facts, incoming), id));
        assert(both.contains(id) <==> holds(facts, id) || holds(incoming, id));
    }
    assert(after =~= both);
}

/// A merge into the empty set keeps one fact for each identity that came
/// in, so as many as there are distinct identities; two runs over the same
/// identities, in whatever order, keep equally many.
pub proof fn lemma_merged_count(incoming: Seq<FactView>, other: Seq<FactView>)
    ensures
        merged(Seq::empty(), incoming).len() == identities(incoming).to_set().len(),
        identities(incoming).to_set() == identities(other).to_set() ==> merged(
            Seq::empty(),
            incoming,
        ).len() == merged(Seq::empty(), other).len(),
{
    lemma_count_of(incoming);
    lemma_count_of(other);
}

proof fn lemma_count_of(incoming: Seq<FactView>)
    ensures
        merged(Seq::empty(), incoming).len() == identities(incoming).to_set().len(),
{
    let empty = Seq::<FactView>::empty();
    let kept = merged(empty, incoming);
    assert(identities(empty) =~= Seq::empty());
    lemma_merged_distinct(empty, incoming);
    lemma_merged_identities(empty, incoming);
    identities(kept).unique_seq_to_set();
    assert(identities(empty).to_set() =~= Set::empty());
    assert(identities(kept).to_set() =~= identities(incoming).to_set());
}

/// A merge of facts that are all held already changes nothing.
pub proof fn lemma_merge_of_held(facts: Seq<FactView>, incoming: Seq<FactView>)
    requires
        forall|i: int| 0 <= i < incoming.len() ==> holds(facts, (#[trigger] incoming[i]).identity()),
    ensures
        merged(facts, incoming) == facts,
    decreases incoming.len(),
{
    if incoming.len() > 0 {
        let front = incoming.drop_last();
        assert forall|i: int| 0 <= i < front.len() implies holds(
            facts,
            (#[trigger] front[i]).identity(),
        ) by {
            assert(front[i] == incoming[i]);
        }
        lemma_merge_of_held(facts, front);
    }
}

/// Taking a source in a second time changes nothing: every fact of it is
/// held after the first time.
pub proof fn lemma_merge_idempotent(facts: Seq<FactView>, incoming: Seq<FactView>)
    ensures
        merged(merged(facts, incoming), incoming) == merged(facts, incoming),
{
    let once = merged(facts, incoming);
    lemma_merged_identities(facts, incoming);
    assert forall|i: int| 0 <= i < incoming.len() implies holds(
        once,
        (#[trigger] incoming[i]).identity(),
    ) by {
        assert(identities(incoming)[i] == incoming[i].identity());
        assert(holds(incoming, incoming[i].identity()));
    }
    lemma_merge_of_held(once, incoming);
}

/// Whether `fact` came in with `incoming` as the first of its identity,
/// one that `facts` did not hold.
pub open spec fn came_first(facts: Seq<FactView>, incoming: Seq<FactView>, fact: FactView) -> bool {
    exists|i: int|
        {
            &&& 0 <= i < incoming.len()
            &&& #[trigger] incoming[i] == fact
            &&& !holds(facts, fact.identity())
            &&& forall|j: int|
                0 <= j < i ==> (#[trigger] incoming[j]).identity() != fact.identity()
        }
}

/// A merge never touches what is held: the facts before it stay where they
/// are, and every fact behind them came in and was the first of its
/// identity to come.
pub proof fn lemma_merged_keeps_first(facts: Seq<FactView>, incoming: Seq<FactView>)
    ensures
        facts.len() <= merged(facts, incoming).len(),
        merged(facts, incoming).take(facts.len() as int) == facts,
        forall|k: int|
            facts.len() <= k < merged(facts, incoming).len() ==> came_first(
                facts,
                incoming,
                #[trigger] merged(facts, incoming)[k],
            ),
    decreases incoming.len(),
{
    let all = merged(facts, incoming);
    if incoming.len() == 0 {
        assert(all.take(facts.len() as int) =~= facts);
    } else {
        let front = incoming.drop_last();
        let last = incoming.last();
        let before = merged(facts, front);
        lemma_merged_keeps_first(facts, front);
        lemma_merged_identities(facts, front);
        assert(all.take(facts.len() as int) =~= before.take(facts.len() as int));
        assert forall|k: int| facts.len() <= k < all.len() implies came_first(
            facts,
            incoming,
            #[trigger] all[k],
        ) by {
            if k < before.len() {
                assert(came_first(facts, front, before[k]));
                let i = choose|i: int|
                    {
                        &&& 0 <= i < front.len()
                        &&& #[trigger] front[i] == before[k]
                        &&& !holds(facts, before[k].identity())
                        &&& forall|j: int|
                            0 <= j < i ==> (#[trigger] front[j]).identity() != before[k].identity()
                    };
                assert(incoming[i] == all[k]);
                assert forall|j: int| 0 <= j < i implies (#[trigger] incoming[j]).identity()
                    != all[k].identity() by {
                    assert(front[j] == incoming[j]);
                }
            } else {
                let i = incoming.len() - 1;
                assert(incoming[i] == all[k]);
                assert(!holds(before, last.identity()));
                assert forall|j: int| 0 <= j < i implies (#[trigger] incoming[j]).identity()
                    != all[k].identity() by {
                    if incoming[j].identity() == last.identity() {
                        assert(identities(front)[j] == last.identity());
                        assert(holds(front, last.identity()));
                    }
                }
            }
        }
    }
}

proof fn lemma_readable_tags_escaped(tags: Seq<Option<String>>)
    ensures
        forall|i: int|
            0 <= i < readable_tags(tags).len() ==> stays_in_field(#[trigger] readable_tags(tags)[i]),
    decreases tags.len(),
{
    if tags.len() > 0 {
        let front = readable_tags(tags.drop_last());
        let all = readable_tags(tags);
        lemma_readable_tags_escaped(tags.drop_last());
        assert forall|i: int| 0 <= i < all.len() implies stays_in_field(#[trigger] all[i]) by {
            if i < front.len() {
                assert(all[i] == front[i]);
            } else {
                lemma_escaped_stays_in_field(tags.last()->0@);
            }
        }
    }
}

/// The tags of a row's fact keep to their fields, whatever the tag rows
/// held: each was escaped as it was read.
pub proof fn lemma_row_tags_stay_in_field(row: Row)
    ensures
        forall|i: int|
            0 <= i < row_fact(row).tags.len() ==> stays_in_field(#[trigger] row_fact(row).tags[i]),
{
    let fact = row_fact(row);
    let read = readable_tags(row.tags@);
    lemma_readable_tags_escaped(row.tags@);
    lemma_first_occurrences_distinct(read);
    assert forall|i: int| 0 <= i < fact.tags.len() implies stays_in_field(
        #[trigger] fact.tags[i],
    ) by {
        assert(first_occurrences(read).contains(fact.tags[i]));
        assert(read.contains(fact.tags[i]));
        let j = choose|j: int| 0 <= j < read.len() && read[j] == fact.tags[i];
        assert(stays_in_field(read[j]));
    }
}

/// The line of a row has six fields and stays one line, whatever the tags
/// and the description of the row hold, where its activity holds no tab,
/// no carriage return and no newline.
pub proof fn lemma_row_line_has_six_fields(row: Row, text: Seq<char>)
    requires
        row_fact(row).is_line(text),
        stays_in_field(row.activity@),
    ensures
        has_six_fields(text),
{
    lemma_row_tags_stay_in_field(row);
    lemma_line_has_six_fields(row_fact(row), text);
}

/// Every row that could be read gives a fact, whatever it holds.
pub proof fn lemma_readable_row_gives_fact(rows: Seq<Option<Row>>, i: int)
    requires
        0 <= i < rows.len(),
        rows[i] is Some,
    ensures
        readable_facts(rows).contains(row_fact(rows[i]->0)),
    decreases rows.len(),
{
    let all = readable_facts(rows);
    let front = readable_facts(rows.drop_last());
    if i == rows.len() - 1 {
        assert(all[front.len() as int] == row_fact(rows[i]->0));
    } else {
        lemma_readable_row_gives_fact(rows.drop_last(), i);
        let j = choose|j: int| 0 <= j < front.len() && front[j] == row_fact(rows[i]->0);
        assert(all[j] == front[j]);
    }
}

/// After a source was taken in, the set holds the identity of every row
/// that could be read, beside the identities it held before.
pub proof fn lemma_every_row_is_held(facts: Seq<FactView>, rows: Seq<Option<Row>>, i: int)
    requires
        0 <= i < rows.len(),
        rows[i] is Some,
    ensures
        holds(merged(facts, readable_facts(rows)), row_fact(rows[i]->0).identity()),
{
    let incoming = readable_facts(rows);
    let fact = row_fact(rows[i]->0);
    lemma_readable_row_gives_fact(rows, i);
    let j = choose|j: int| 0 <= j < incoming.len() && incoming[j] == fact;
    assert(identities(incoming)[j] == fact.identity());
    assert(holds(incoming, fact.identity()));
    lemma_merged_identities(facts, incoming);
    assert(holds(merged(facts, incoming), fact.identity()) <==> holds(facts, fact.identity())
        || holds(incoming, fact.identity()));
}

/// Of two rows that give the same fact, the first stays: taken into an
/// empty set one after the other, they leave the fact of the first row,
/// with its end, its tags and its description.
pub proof fn lemma_first_row_wins(first: Row, second: Row)
    requires
        row_fact(first).same_fact(row_fact(second)),
    ensures
        merged(Seq::empty(), readable_facts(seq![Some(first), Some(second)])) == seq![
            row_fact(first),
        ],
{
    let rows = seq![Some(first), Some(second)];
    assert(rows.drop_last() =~= seq![Some(first)]);
    assert(seq![Some(first)].drop_last() =~= Seq::<Option<Row>>::empty());
    assert(readable_facts(Seq::<Option<Row>>::empty()) =~= Seq::<FactView>::empty());
    assert(readable_facts(seq![Some(first)]) =~= seq![row_fact(first)]);
    assert(readable_facts(rows) =~= seq![row_fact(first), row_fact(second)]);
    lemma_first_wins(Seq::empty(), row_fact(first), row_fact(second));
}

} // verus!
