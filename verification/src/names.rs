//! Maps keyed by name.

use vstd::prelude::*;

use crate::text::comes_before;
use crate::text::lemma_text_before_irreflexive;
use crate::text::lemma_text_before_total;
use crate::text::lemma_text_before_transitive;
use crate::text::text_before;

verus! {

/// Entries keyed by name, in name order.
#[derive(Clone, Debug, Eq, PartialEq)]
pub struct NameMap<V> {
    pub entries: Vec<(String, V)>,
}

impl<V> View for NameMap<V> {
    type V = Seq<(Seq<char>, V)>;

    open spec fn view(&self) -> Seq<(Seq<char>, V)> {
        Seq::new(self.entries@.len(), |i: int| (self.entries@[i].0@, self.entries@[i].1))
    }
}

/// Whether each name comes before the next.
pub open spec fn names_ordered<V>(entries: Seq<(Seq<char>, V)>) -> bool {
    forall|i: int, j: int|
        0 <= i < j < entries.len() ==> text_before(#[trigger] entries[i].0, #[trigger] entries[j].0)
}

/// The value of the first entry at or after `from` named `name`.
pub open spec fn named_from<V>(entries: Seq<(Seq<char>, V)>, name: Seq<char>, from: int) -> Option<V>
    decreases entries.len() - from,
{
    if from >= entries.len() {
        None
    } else if entries[from].0 == name {
        Some(entries[from].1)
    } else {
        named_from(entries, name, from + 1)
    }
}

/// The value of the entry named `name`.
pub open spec fn named<V>(entries: Seq<(Seq<char>, V)>, name: Seq<char>) -> Option<V> {
    named_from(entries, name, 0)
}

/// `entries` with the value of `name` set to `value`.
pub open spec fn with_entry<V>(
    entries: Seq<(Seq<char>, V)>,
    name: Seq<char>,
    value: V,
) -> Seq<(Seq<char>, V)>
    decreases entries.len(),
{
    if entries.len() == 0 {
        seq![(name, value)]
    } else if text_before(entries.last().0, name) {
        entries.push((name, value))
    } else if entries.last().0 == name {
        entries.drop_last().push((name, value))
    } else {
        with_entry(entries.drop_last(), name, value).push(entries.last())
    }
}

proof fn lemma_with_entry_names<V>(entries: Seq<(Seq<char>, V)>, name: Seq<char>, value: V, bound: Seq<char>)
    requires
        text_before(name, bound),
        forall|i: int| 0 <= i < entries.len() ==> text_before(#[trigger] entries[i].0, bound),
    ensures
        forall|i: int|
            0 <= i < with_entry(entries, name, value).len() ==> text_before(
                #[trigger] with_entry(entries, name, value)[i].0,
                bound,
            ),
    decreases entries.len(),
{
    if entries.len() > 0 && !text_before(entries.last().0, name) && entries.last().0 != name {
        lemma_with_entry_names(entries.drop_last(), name, value, bound);
        let inner = with_entry(entries.drop_last(), name, value);
        assert forall|i: int| 0 <= i < inner.len() + 1 implies text_before(
            #[trigger] inner.push(entries.last())[i].0,
            bound,
        ) by {
            if i < inner.len() {
                assert(text_before(inner[i].0, bound));
            } else {
                assert(text_before(entries[entries.len() - 1].0, bound));
            }
        }
    }
}

/// Setting a value keeps the names in order.
pub proof fn law_with_entry_keeps_order<V>(entries: Seq<(Seq<char>, V)>, name: Seq<char>, value: V)
    requires
        names_ordered(entries),
    ensures
        names_ordered(with_entry(entries, name, value)),
    decreases entries.len(),
{
    if entries.len() > 0 {
        let last = entries.last();
        let out = with_entry(entries, name, value);
        lemma_text_before_total(last.0, name);
        if text_before(last.0, name) {
            assert forall|i: int, j: int| 0 <= i < j < out.len() implies text_before(
                #[trigger] out[i].0,
                #[trigger] out[j].0,
            ) by {
                if j == entries.len() && i < entries.len() - 1 {
                    assert(text_before(entries[i].0, entries[entries.len() - 1].0));
                    lemma_text_before_transitive(entries[i].0, last.0, name);
                } else if j < entries.len() {
                    assert(text_before(entries[i].0, entries[j].0));
                }
            }
        } else if last.0 != name {
            law_with_entry_keeps_order(entries.drop_last(), name, value);
            assert forall|i: int| 0 <= i < entries.drop_last().len() implies text_before(
                #[trigger] entries.drop_last()[i].0,
                last.0,
            ) by {
                assert(text_before(entries[i].0, entries[entries.len() - 1].0));
            }
            lemma_with_entry_names(entries.drop_last(), name, value, last.0);
            let inner = with_entry(entries.drop_last(), name, value);
            assert forall|i: int, j: int| 0 <= i < j < out.len() implies text_before(
                #[trigger] out[i].0,
                #[trigger] out[j].0,
            ) by {
                if j < inner.len() {
                    assert(text_before(inner[i].0, inner[j].0));
                } else {
                    assert(text_before(inner[i].0, last.0));
                }
            }
        } else {
            assert forall|i: int, j: int| 0 <= i < j < out.len() implies text_before(
                #[trigger] out[i].0,
                #[trigger] out[j].0,
            ) by {
                assert(text_before(entries[i].0, entries[j].0));
            }
        }
    }
}

proof fn lemma_named_from<V>(entries: Seq<(Seq<char>, V)>, name: Seq<char>, from: int, at: int)
    requires
        names_ordered(entries),
        0 <= from <= at < entries.len(),
        entries[at].0 == name,
    ensures
        named_from(entries, name, from) == Some(entries[at].1),
    decreases at - from,
{
    if from < at {
        assert(text_before(entries[from].0, entries[at].0));
        lemma_text_before_irreflexive(name);
        lemma_named_from(entries, name, from + 1, at);
    }
}

proof fn lemma_named_none<V>(entries: Seq<(Seq<char>, V)>, name: Seq<char>, from: int)
    requires
        0 <= from,
        forall|i: int| from <= i < entries.len() ==> (#[trigger] entries[i]).0 != name,
    ensures
        named_from(entries, name, from) is None,
    decreases entries.len() - from,
{
    if from < entries.len() {
        lemma_named_none(entries, name, from + 1);
    }
}

spec fn holds_entry<V>(entries: Seq<(Seq<char>, V)>, name: Seq<char>, value: V) -> bool {
    exists|i: int| 0 <= i < entries.len() && entries[i] == (name, value)
}

proof fn lemma_with_entry_holds<V>(
    entries: Seq<(Seq<char>, V)>,
    name: Seq<char>,
    value: V,
    other: Seq<char>,
    held: V,
)
    requires
        names_ordered(entries),
    ensures
        holds_entry(with_entry(entries, name, value), other, held) <==> if other == name {
            held == value
        } else {
            holds_entry(entries, other, held)
        },
    decreases entries.len(),
{
    let out = with_entry(entries, name, value);
    if entries.len() == 0 {
        if holds_entry(out, other, held) {
            let i = choose|i: int| 0 <= i < out.len() && out[i] == (other, held);
            assert(i == 0);
        }
        if other == name && held == value {
            assert(out[0] == (other, held));
        }
    } else {
        let rest = entries.drop_last();
        let last = entries.last();
        lemma_text_before_total(last.0, name);
        lemma_text_before_irreflexive(name);
        if text_before(last.0, name) || last.0 == name {
            if holds_entry(out, other, held) {
                let i = choose|i: int| 0 <= i < out.len() && out[i] == (other, held);
                if i < out.len() - 1 {
                    assert(entries[i] == (other, held));
                    if i < entries.len() - 1 {
                        assert(text_before(entries[i].0, entries[entries.len() - 1].0));
                    }
                    if other == name {
                        if text_before(last.0, name) && i < entries.len() - 1 {
                            lemma_text_before_transitive(entries[i].0, last.0, name);
                        }
                        assert(false);
                    }
                }
            }
            if other == name && held == value {
                assert(out[out.len() - 1] == (other, held));
            }
            if other != name && holds_entry(entries, other, held) {
                let i = choose|i: int| 0 <= i < entries.len() && entries[i] == (other, held);
                assert(out[i] == (other, held));
            }
        } else {
            lemma_with_entry_holds(rest, name, value, other, held);
            let inner = with_entry(rest, name, value);
            if holds_entry(out, other, held) {
                let i = choose|i: int| 0 <= i < out.len() && out[i] == (other, held);
                if i < inner.len() {
                    assert(inner[i] == (other, held));
                    if other != name {
                        let k = choose|k: int| 0 <= k < rest.len() && rest[k] == (other, held);
                        assert(entries[k] == (other, held));
                    }
                } else {
                    assert(entries[entries.len() - 1] == (other, held));
                }
            }
            if other == name && held == value {
                let k = choose|k: int| 0 <= k < inner.len() && inner[k] == (other, held);
                assert(out[k] == (other, held));
            }
            if other != name && holds_entry(entries, other, held) {
                let i = choose|i: int| 0 <= i < entries.len() && entries[i] == (other, held);
                if i < rest.len() {
                    assert(rest[i] == (other, held));
                    let k = choose|k: int| 0 <= k < inner.len() && inner[k] == (other, held);
                    assert(out[k] == (other, held));
                } else {
                    assert(out[out.len() - 1] == (other, held));
                }
            }
        }
    }
}

proof fn lemma_named_holds<V>(entries: Seq<(Seq<char>, V)>, name: Seq<char>)
    requires
        names_ordered(entries),
    ensures
        forall|value: V| named(entries, name) == Some(value) <==> holds_entry(entries, name, value),
{
    assert forall|value: V| named(entries, name) == Some(value) <==> holds_entry(
        entries,
        name,
        value,
    ) by {
        if holds_entry(entries, name, value) {
            let i = choose|i: int| 0 <= i < entries.len() && entries[i] == (name, value);
            lemma_named_from(entries, name, 0, i);
        }
        if named(entries, name) == Some(value) {
            if forall|i: int| 0 <= i < entries.len() ==> (#[trigger] entries[i]).0 != name {
                lemma_named_none(entries, name, 0);
            } else {
                let i = choose|i: int| 0 <= i < entries.len() && (#[trigger] entries[i]).0 == name;
                lemma_named_from(entries, name, 0, i);
                assert(entries[i] == (name, value));
            }
        }
    }
}

/// Reading a name gives the value last set for it; other names keep theirs.
pub proof fn law_read_after_set<V>(
    entries: Seq<(Seq<char>, V)>,
    name: Seq<char>,
    value: V,
    other: Seq<char>,
)
    requires
        names_ordered(entries),
    ensures
        named(with_entry(entries, name, value), other) == if other == name {
            Some(value)
        } else {
            named(entries, other)
        },
{
    let out = with_entry(entries, name, value);
    law_with_entry_keeps_order(entries, name, value);
    lemma_named_holds(out, other);
    lemma_named_holds(entries, other);
    assert forall|held: V| holds_entry(out, other, held) <==> if other == name {
        held == value
    } else {
        holds_entry(entries, other, held)
    } by {
        lemma_with_entry_holds(entries, name, value, other, held);
    }
    if other == name {
        assert(holds_entry(out, other, value));
    } else if let Some(held) = named(out, other) {
        assert(holds_entry(out, other, held));
        assert(holds_entry(entries, other, held));
    } else if let Some(held) = named(entries, other) {
        assert(holds_entry(entries, other, held));
        assert(holds_entry(out, other, held));
    }
}

proof fn lemma_with_entry_at<V>(entries: Seq<(Seq<char>, V)>, name: Seq<char>, value: V, at: int)
    requires
        0 <= at <= entries.len(),
        forall|i: int|
            at <= i < entries.len() ==> !text_before((#[trigger] entries[i]).0, name)
                && entries[i].0 != name,
        at > 0 ==> text_before(entries[at - 1].0, name) || entries[at - 1].0 == name,
    ensures
        at > 0 && entries[at - 1].0 == name && !text_before(entries[at - 1].0, name)
            ==> with_entry(entries, name, value) == entries.update(at - 1, (name, value)),
        at == 0 || text_before(entries[at - 1].0, name) ==> with_entry(entries, name, value)
            == entries.insert(at, (name, value)),
    decreases entries.len() - at,
{
    if at == entries.len() {
        if entries.len() == 0 {
            assert(entries.insert(0, (name, value)) =~= seq![(name, value)]);
        } else {
            assert(entries.insert(at, (name, value)) =~= entries.push((name, value)));
            assert(entries.update(at - 1, (name, value)) =~= entries.drop_last().push(
                (name, value),
            ));
        }
    } else {
        let rest = entries.drop_last();
        assert(!text_before(entries[entries.len() - 1].0, name) && entries[entries.len() - 1].0
            != name);
        assert forall|i: int| at <= i < rest.len() implies !text_before(
            (#[trigger] rest[i]).0,
            name,
        ) && rest[i].0 != name by {
            assert(entries[i] == rest[i]);
        }
        lemma_with_entry_at(rest, name, value, at);
        assert(entries =~= rest.push(entries.last()));
        assert(entries.insert(at, (name, value)) =~= rest.insert(at, (name, value)).push(
            entries.last(),
        ));
        if at > 0 {
            assert(entries.update(at - 1, (name, value)) =~= rest.update(
                at - 1,
                (name, value),
            ).push(entries.last()));
        }
    }
}

impl<V> NameMap<V> {
    /// An empty map.
    pub fn new() -> (map: Self)
        ensures
            map@ == Seq::<(Seq<char>, V)>::empty(),
    {
        let map = NameMap { entries: Vec::new() };
        assert(map@ =~= Seq::<(Seq<char>, V)>::empty());
        map
    }

    /// Sets the value of `name`.
    pub fn insert(&mut self, name: String, value: V)
        ensures
            final(self)@ == with_entry(old(self)@, name@, value),
    {
        let ghost before = self@;
        let mut at: usize = self.entries.len();
        while at > 0 && !comes_before(self.entries[at - 1].0.as_str(), name.as_str())
            && self.entries[at - 1].0 != name
            invariant
                self@ == before,
                at <= self.entries@.len(),
                forall|i: int|
                    at <= i < before.len() ==> !text_before((#[trigger] before[i]).0, name@)
                        && before[i].0 != name@,
            decreases at,
        {
            assert(before[at - 1].0 == self.entries@[at - 1].0@);
            at -= 1;
        }
        proof {
            if at > 0 {
                assert(before[at - 1].0 == self.entries@[at - 1].0@);
            }
            lemma_with_entry_at(before, name@, value, at as int);
            lemma_text_before_irreflexive(name@);
        }
        let ghost text = name@;
        if at > 0 && self.entries[at - 1].0 == name {
            self.entries.set(at - 1, (name, value));
            assert(self@ =~= before.update(at - 1, (text, value)));
        } else {
            self.entries.insert(at, (name, value));
            assert(self@ =~= before.insert(at as int, (text, value)));
        }
    }

    /// The value of `name`.
    pub fn get(&self, name: &str) -> (value: Option<&V>)
        ensures
            match value {
                Some(value) => named(self@, name@) == Some(*value),
                None => named(self@, name@) is None,
            },
    {
        let wanted = name.to_owned();
        let mut i: usize = 0;
        while i < self.entries.len()
            invariant
                wanted@ == name@,
                i <= self.entries@.len(),
                named(self@, name@) == named_from(self@, name@, i as int),
            decreases self.entries@.len() - i,
        {
            assert(self@[i as int].0 == self.entries@[i as int].0@);
            if self.entries[i].0 == wanted {
                return Some(&self.entries[i].1);
            }
            i += 1;
        }
        None
    }
}

impl NameMap<u32> {
    /// A copy with the same entries.
    pub fn copy_numbers(&self) -> (copy: Self)
        ensures
            copy@ == self@,
    {
        let mut entries: Vec<(String, u32)> = Vec::new();
        for i in 0..self.entries.len()
            invariant
                entries@.len() == i,
                forall|j: int| 0 <= j < i ==> entries@[j].0@ == self.entries@[j].0@
                    && entries@[j].1 == self.entries@[j].1,
        {
            let name = self.entries[i].0.clone();
            entries.push((name, self.entries[i].1));
        }
        let copy = NameMap { entries };
        assert(copy@ =~= self@);
        copy
    }
}

/// The entries of a map from names to texts.
pub open spec fn text_entries(map: NameMap<String>) -> Seq<(Seq<char>, Seq<char>)> {
    Seq::new(map.entries@.len(), |i: int| (map.entries@[i].0@, map.entries@[i].1@))
}

/// Entries with the views of their values.
pub open spec fn viewed<V: View>(entries: Seq<(Seq<char>, V)>) -> Seq<(Seq<char>, V::V)> {
    Seq::new(entries.len(), |i: int| (entries[i].0, entries[i].1@))
}

/// Setting a value sets its view.
pub proof fn lemma_viewed<V: View>(entries: Seq<(Seq<char>, V)>, name: Seq<char>, value: V)
    ensures
        viewed(with_entry(entries, name, value)) == with_entry(viewed(entries), name, value@),
    decreases entries.len(),
{
    let views = viewed(entries);
    if entries.len() > 0 {
        let rest = entries.drop_last();
        lemma_viewed(rest, name, value);
        assert(views.drop_last() =~= viewed(rest));
        assert(views.last().0 == entries.last().0);
    }
    assert(viewed(with_entry(entries, name, value)) =~= with_entry(views, name, value@));
}

/// Reading a value reads its view.
pub proof fn lemma_viewed_named<V: View>(entries: Seq<(Seq<char>, V)>, name: Seq<char>, from: int)
    requires
        0 <= from,
    ensures
        named_from(viewed(entries), name, from) == match named_from(entries, name, from) {
            Some(value) => Some(value@),
            None => None,
        },
    decreases entries.len() - from,
{
    if from < entries.len() {
        assert(viewed(entries)[from] == (entries[from].0, entries[from].1@));
        lemma_viewed_named(entries, name, from + 1);
    }
}

impl NameMap<String> {
    /// Sets the text of `name`.
    pub fn insert_text(&mut self, name: String, value: String)
        ensures
            text_entries(*final(self)) == with_entry(text_entries(*old(self)), name@, value@),
    {
        let ghost before = self@;
        proof {
            lemma_viewed(before, name@, value);
            assert(viewed(before) =~= text_entries(*self));
        }
        self.insert(name, value);
        assert(viewed(self@) =~= text_entries(*self));
    }

    /// The text of `name`.
    pub fn get_text(&self, name: &str) -> (text: Option<&String>)
        ensures
            match text {
                Some(text) => named(text_entries(*self), name@) == Some(text@),
                None => named(text_entries(*self), name@) is None,
            },
    {
        proof {
            lemma_viewed_named(self@, name@, 0);
            assert(viewed(self@) =~= text_entries(*self));
        }
        self.get(name)
    }
}

impl NameMap<String> {
    /// A copy with the same entries.
    pub fn copy_texts(&self) -> (copy: Self)
        ensures
            text_entries(copy) == text_entries(*self),
    {
        let mut entries: Vec<(String, String)> = Vec::new();
        for i in 0..self.entries.len()
            invariant
                entries@.len() == i,
                forall|j: int| 0 <= j < i ==> entries@[j].0@ == self.entries@[j].0@
                    && entries@[j].1@ == self.entries@[j].1@,
        {
            let name = self.entries[i].0.clone();
            let value = self.entries[i].1.clone();
            entries.push((name, value));
        }
        let copy = NameMap { entries };
        assert(text_entries(copy) =~= text_entries(*self));
        copy
    }
}

} // verus!
