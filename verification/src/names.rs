//! A map from names to numbers that keeps its entries in the order of names.
use vstd::prelude::*;

use crate::text;

verus! {

/// Entries in the order of their names, each name once.
pub struct NameMap {
    entries: Vec<(String, usize)>,
}

/// Whether entries stand in the order of their names, each name once.
pub open spec fn in_name_order(entries: Seq<(Seq<char>, usize)>) -> bool {
    forall|i: int, j: int| #![trigger entries[i], entries[j]]
        0 <= i < j < entries.len() ==> text::text_less(entries[i].0, entries[j].0)
}

impl View for NameMap {
    type V = Seq<(Seq<char>, usize)>;

    closed spec fn view(&self) -> Seq<(Seq<char>, usize)> {
        self.entries@.map_values(|e: (String, usize)| (e.0@, e.1))
    }
}

impl NameMap {
    /// Whether the entries stand in the order of their names, each name once.
    pub open spec fn wf(self) -> bool {
        in_name_order(self@)
    }

    /// Whether a name has an entry.
    pub open spec fn has(self, name: Seq<char>) -> bool {
        exists|i: int| 0 <= i < self@.len() && (#[trigger] self@[i]).0 == name
    }

    /// The numbers of all entries, in the order of the names.
    pub open spec fn ids(self) -> Seq<usize> {
        self@.map_values(|e: (Seq<char>, usize)| e.1)
    }

    /// A map without entries.
    pub fn new() -> (map: NameMap)
        ensures
            map@ == Seq::<(Seq<char>, usize)>::empty(),
            map.wf(),
    {
        let map = NameMap { entries: Vec::new() };
        assert(map@ =~= Seq::<(Seq<char>, usize)>::empty());
        map
    }

    /// How many names come before the one given.
    fn position(&self, name: &str) -> (k: usize)
        requires
            self.wf(),
        ensures
            k <= self@.len(),
            forall|i: int| 0 <= i < k ==> text::text_less((#[trigger] self@[i]).0, name@),
            forall|i: int| k <= i < self@.len() ==> !text::text_less((#[trigger] self@[i]).0, name@),
    {
        let mut low: usize = 0;
        let mut high: usize = self.entries.len();
        while low < high
            invariant
                self.wf(),
                low <= high <= self.entries@.len(),
                self@.len() == self.entries@.len(),
                forall|i: int| 0 <= i < low ==> text::text_less((#[trigger] self@[i]).0, name@),
                forall|i: int|
                    high <= i < self@.len() ==> !text::text_less((#[trigger] self@[i]).0, name@),
            decreases high - low,
        {
            let middle: usize = low + (high - low) / 2;
            assert(self@[middle as int].0 == self.entries@[middle as int].0@);
            if text::less(self.entries[middle].0.as_str(), name) {
                assert forall|i: int| 0 <= i < middle + 1 implies text::text_less(
                    (#[trigger] self@[i]).0,
                    name@,
                ) by {
                    if i < middle {
                        text::lemma_text_less_transitive(self@[i].0, self@[middle as int].0, name@);
                    }
                }
                low = middle + 1;
            } else {
                assert forall|i: int| middle <= i < self@.len() implies !text::text_less(
                    (#[trigger] self@[i]).0,
                    name@,
                ) by {
                    if i > middle && text::text_less(self@[i].0, name@) {
                        text::lemma_text_less_transitive(self@[middle as int].0, self@[i].0, name@);
                    }
                }
                high = middle;
            }
        }
        low
    }

    /// The number that a name has.
    pub fn get(&self, name: &str) -> (id: Option<usize>)
        requires
            self.wf(),
        ensures
            match id {
                Some(n) => self@.contains((name@, n)),
                None => !self.has(name@),
            },
    {
        let k = self.position(name);
        assert(self@.len() == self.entries@.len());
        if k < self.entries.len() && text::same(self.entries[k].0.as_str(), name) {
            assert(self@[k as int] == (name@, self.entries@[k as int].1));
            Some(self.entries[k].1)
        } else {
            proof {
                if self.has(name@) {
                    let i = choose|i: int| 0 <= i < self@.len() && (#[trigger] self@[i]).0 == name@;
                    text::lemma_text_less_irreflexive(name@);
                    assert(k <= i);
                    if k < i {
                        assert(self@[k as int].0 == self.entries@[k as int].0@);
                        assert(text::text_less(self@[k as int].0, self@[i].0));
                    } else {
                        assert(self@[k as int].0 == self.entries@[k as int].0@);
                    }
                    assert(false);
                }
            }
            None
        }
    }

    /// Adds an entry for a name that has none.
    pub fn insert(&mut self, name: String, id: usize)
        requires
            old(self).wf(),
            !old(self).has(name@),
        ensures
            final(self).wf(),
            exists|k: int|
                0 <= k <= old(self)@.len() && final(self)@ == #[trigger] old(self)@.insert(
                    k,
                    (name@, id),
                ),
            forall|e: (Seq<char>, usize)|
                #[trigger] final(self)@.contains(e) <==> old(self)@.contains(e) || e == (name@, id),
    {
        let k = self.position(name.as_str());
        let ghost before = self@;
        let ghost entry = (name@, id);
        assert(before.len() == self.entries@.len());
        self.entries.insert(k, (name, id));
        assert(self@ =~= before.insert(k as int, entry));
        let ghost after = self@;
        proof {
            assert(after[k as int] == entry);
            assert forall|e: (Seq<char>, usize)| #[trigger]
                after.contains(e) <==> before.contains(e) || e == entry by {
                if before.contains(e) {
                    let i = choose|i: int| 0 <= i < before.len() && before[i] == e;
                    assert(after[if i < k { i } else { i + 1 }] == e);
                }
                if after.contains(e) && e != entry {
                    let i = choose|i: int| 0 <= i < after.len() && after[i] == e;
                    assert(before[if i < k { i } else { i - 1 }] == e);
                }
            }
        }
        assert forall|i: int, j: int| #![trigger after[i], after[j]]
            0 <= i < j < after.len() implies text::text_less(after[i].0, after[j].0) by {
            if i == k {
                assert(after[j] == before[j - 1]);
                text::lemma_text_less_total(before[j - 1].0, entry.0);
                assert(before[j - 1].0 != entry.0);
            } else if j == k {
                assert(after[i] == before[i]);
            } else {
                let x = if i < k { i } else { i - 1 };
                let y = if j < k { j } else { j - 1 };
                assert(after[i] == before[x] && after[j] == before[y]);
            }
        }
    }

    /// The numbers of all entries, in the order of the names.
    pub fn values(&self) -> (ids: Vec<usize>)
        ensures
            ids@ == self.ids(),
            ids@.len() == self@.len(),
            forall|i: int| 0 <= i < ids@.len() ==> #[trigger] ids@[i] == self@[i].1,
    {
        let mut ids: Vec<usize> = Vec::new();
        for i in 0..self.entries.len()
            invariant
                self@.len() == self.entries@.len(),
                ids@ == self.ids().take(i as int),
        {
            ids.push(self.entries[i].1);
            assert(self@[i as int].1 == self.entries@[i as int].1);
            assert(ids@ =~= self.ids().take(i as int + 1));
        }
        assert(self.ids().take(self@.len() as int) =~= self.ids());
        ids
    }
}

} // verus!
