//! Counting the results, folder by folder and as a whole.
use vstd::prelude::*;

use crate::counting;
use crate::marks;
use crate::model::{self, Counts, FileId, Model, Node, NodeId, Status, Tally};
use crate::text;
use crate::tree;

verus! {

impl Model {
    /// What one file adds to the counts.
    pub open spec fn file_tally(self, f: int) -> Tally {
        let size = self.groups@[self.files@[f].group as int].size as nat;
        let one = Tally { total: 1, ..Tally::zero() };
        if !self.visible(f) {
            Tally::zero()
        } else {
            match self.status_of(f) {
                Status::Pending => one,
                Status::Delete => Tally { delete: 1, delete_bytes: size, ..one },
                Status::Keep => Tally { keep: 1, ..one },
                Status::Conflict => Tally { delete: 1, conflict: 1, ..one },
            }
        }
    }

    /// Whether a file lies in a folder or below it; any file does where no
    /// folder is given.
    pub open spec fn counted(self, f: int, top: Option<int>) -> bool {
        match top {
            None => true,
            Some(n) => model::under(self.nodes@, self.files@[f].node as int, n),
        }
    }

    /// What the first files add to the counts of a folder, or to the totals.
    pub open spec fn tally(self, count: nat, top: Option<int>) -> Tally
        decreases count,
    {
        if count == 0 {
            Tally::zero()
        } else {
            let earlier = self.tally((count - 1) as nat, top);
            if self.counted(count - 1, top) {
                earlier.plus(self.file_tally(count - 1))
            } else {
                earlier
            }
        }
    }

    /// How many files of a group are present.
    pub open spec fn alive_count(self, g: int) -> nat {
        model::alive_among(self.groups@[g].files@, self.files@).len()
    }

    /// How many of the first groups have two files present or more.
    pub open spec fn shown_groups(self, count: nat) -> nat
        decreases count,
    {
        if count == 0 {
            0
        } else {
            self.shown_groups((count - 1) as nat) + if self.alive_count(count - 1) >= 2 {
                1nat
            } else {
                0nat
            }
        }
    }

    /// The bytes that a group takes beyond those of one copy.
    pub open spec fn group_waste(self, g: int) -> nat {
        if self.alive_count(g) >= 2 {
            self.groups@[g].size as nat * (self.alive_count(g) - 1) as nat
        } else {
            0
        }
    }

    /// The bytes that the first groups take beyond those of one copy each.
    pub open spec fn waste(self, count: nat) -> nat
        decreases count,
    {
        if count == 0 {
            0
        } else {
            self.waste((count - 1) as nat) + self.group_waste(count - 1)
        }
    }

    /// Whether the sums of bytes can be held.
    pub open spec fn sums_fit(self) -> bool {
        &&& self.generation < u64::MAX
        &&& self.waste(self.groups@.len()) <= u64::MAX
    }

    proof fn lemma_tally_bounds(self, count: nat, top: Option<int>)
        ensures
            self.tally(count, top).total <= count,
            self.tally(count, top).delete <= count,
            self.tally(count, top).keep <= count,
            self.tally(count, top).conflict <= count,
            self.tally(count, top).at_most(self.tally(count, None)),
        decreases count,
    {
        if count > 0 {
            self.lemma_tally_bounds((count - 1) as nat, top);
        }
    }

    proof fn lemma_tally_grows(self, count: nat, whole: nat)
        requires
            count <= whole,
        ensures
            self.tally(count, None).at_most(self.tally(whole, None)),
        decreases whole,
    {
        if count < whole {
            self.lemma_tally_grows(count, (whole - 1) as nat);
        }
    }

    proof fn lemma_waste_grows(self, count: nat, whole: nat)
        requires
            count <= whole,
        ensures
            self.waste(count) <= self.waste(whole),
            self.shown_groups(count) <= count,
        decreases whole,
    {
        if count < whole {
            self.lemma_waste_grows(count, (whole - 1) as nat);
        } else if count > 0 {
            self.lemma_waste_grows((count - 1) as nat, (count - 1) as nat);
        }
    }

    /// What one file adds to the counts.
    fn file_counts(&self, file: FileId) -> (counts: Counts)
        requires
            self.wf(),
            file < self.files@.len(),
        ensures
            counts@ == self.file_tally(file as int),
    {
        let mut counts = Counts::default();
        if !self.is_visible(file) {
            return counts;
        }
        let size = self.groups[self.files[file].group].size;
        counts.total = 1;
        match self.status(file) {
            Status::Pending => {},
            Status::Delete => {
                counts.delete = 1;
                counts.delete_bytes = size;
            },
            Status::Keep => {
                counts.keep = 1;
            },
            Status::Conflict => {
                counts.delete = 1;
                counts.conflict = 1;
            },
        }
        counts
    }
}

/// Whether two counts can be added.
spec fn can_add(a: Tally, b: Tally) -> bool {
    let sum = a.plus(b);
    &&& sum.total <= usize::MAX
    &&& sum.delete <= usize::MAX
    &&& sum.keep <= usize::MAX
    &&& sum.conflict <= usize::MAX
    &&& sum.delete_bytes <= u64::MAX
}

/// Adds to the counts of a folder and of all that hold it.
fn add_up(nodes: &Vec<Node>, counts: &mut Vec<Counts>, start: NodeId, more: Counts)
    requires
        forall|n: int| #![trigger nodes@[n]]
            0 <= n < nodes@.len() ==> (nodes@[n].parent matches Some(p) ==> p < n),
        old(counts)@.len() == nodes@.len(),
        start < nodes@.len(),
        forall|n: int| #![trigger old(counts)@[n]]
            0 <= n < nodes@.len() && model::under(nodes@, start as int, n) ==> can_add(
                old(counts)@[n]@,
                more@,
            ),
    ensures
        final(counts)@.len() == nodes@.len(),
        forall|n: int| #![trigger final(counts)@[n]]
            0 <= n < nodes@.len() ==> final(counts)@[n]@ == (if model::under(
                nodes@,
                start as int,
                n,
            ) {
                old(counts)@[n]@.plus(more@)
            } else {
                old(counts)@[n]@
            }),
{
    let ghost before = counts@;
    let mut current: Option<NodeId> = Some(start);
    proof {
        assert(model::under(nodes@, start as int, start as int));
        assert forall|n: int| #![trigger counts@[n]]
            0 <= n < nodes@.len() && model::under(nodes@, start as int, n) implies n <= start by {
            marks::lemma_under_order(nodes@, start as int, n);
        }
    }
    while current.is_some()
        invariant
            forall|n: int| #![trigger nodes@[n]]
                0 <= n < nodes@.len() ==> (nodes@[n].parent matches Some(p) ==> p < n),
            before.len() == nodes@.len(),
            counts@.len() == nodes@.len(),
            start < nodes@.len(),
            forall|n: int| #![trigger before[n]]
                0 <= n < nodes@.len() && model::under(nodes@, start as int, n) ==> can_add(
                    before[n]@,
                    more@,
                ),
            match current {
                Some(c) => c < nodes@.len() && model::under(nodes@, start as int, c as int)
                    && forall|n: int| #![trigger counts@[n]]
                    0 <= n < nodes@.len() ==> counts@[n]@ == (if model::under(
                        nodes@,
                        start as int,
                        n,
                    ) && n > c {
                        before[n]@.plus(more@)
                    } else {
                        before[n]@
                    }),
                None => forall|n: int| #![trigger counts@[n]]
                    0 <= n < nodes@.len() ==> counts@[n]@ == (if model::under(
                        nodes@,
                        start as int,
                        n,
                    ) {
                        before[n]@.plus(more@)
                    } else {
                        before[n]@
                    }),
            },
        decreases
            (match current {
                Some(c) => c + 1,
                None => 0,
            }),
    {
        let c: NodeId = current.unwrap();
        let ghost now = counts@;
        assert(now[c as int]@ == before[c as int]@);
        let mut own = counts[c];
        model::add_counts(&mut own, more);
        counts.set(c, own);
        current = nodes[c].parent;
        proof {
            assert forall|n: int| #![trigger counts@[n]] 0 <= n < nodes@.len() implies {
                let reached = match current {
                    Some(p) => n > p,
                    None => true,
                };
                counts@[n]@ == (if model::under(nodes@, start as int, n) && reached {
                    before[n]@.plus(more@)
                } else {
                    before[n]@
                })
            } by {
                assert(now[n]@ == (if model::under(nodes@, start as int, n) && n > c {
                    before[n]@.plus(more@)
                } else {
                    before[n]@
                }));
                if n < c && model::under(nodes@, start as int, n) {
                    marks::lemma_under_chain(nodes@, start as int, n, c as int);
                    assert(current is Some);
                    marks::lemma_under_order(nodes@, current->0 as int, n);
                }
            }
            if let Some(p) = current {
                lemma_under_parent(nodes@, start as int, c as int);
            }
        }
    }
}

/// What lies below a folder lies below the one that holds it.
proof fn lemma_under_parent(nodes: Seq<Node>, n: int, c: int)
    requires
        model::under(nodes, n, c),
        nodes[c].parent is Some,
        0 <= nodes[c].parent->0 < c,
    ensures
        model::under(nodes, n, nodes[c].parent->0 as int),
    decreases n,
{
    if n != c {
        lemma_under_parent(nodes, nodes[n].parent->0 as int, c);
    } else {
        let p = nodes[c].parent->0 as int;
        assert(model::under(nodes, p, p));
    }
}

impl Model {
    /// Whether nothing but the counts of folders and the totals differs.
    pub open spec fn same_but_counts(self, before: Model) -> bool {
        &&& self.files == before.files
        &&& self.groups == before.groups
        &&& self.roots == before.roots
        &&& self.keys() == before.keys()
        &&& self.path_index() == before.path_index()
        &&& self.nodes@.len() == before.nodes@.len()
        &&& forall|n: int| #![trigger self.nodes@[n]]
            0 <= n < self.nodes@.len() ==> {
                &&& self.nodes@[n].name == before.nodes@[n].name
                &&& self.nodes@[n].parent == before.nodes@[n].parent
                &&& self.nodes@[n].children == before.nodes@[n].children
                &&& self.nodes@[n].files == before.nodes@[n].files
            }
    }

    /// The counts have no part in what every operation keeps.
    pub proof fn lemma_counts_apart(self, before: Model)
        requires
            before.wf(),
            self.same_but_counts(before),
        ensures
            self.wf(),
            forall|n: int| 0 <= n < self.nodes@.len() ==> #[trigger] self.parts(n) == before.parts(
                n,
            ),
    {
        assert forall|n: int| 0 <= n < self.nodes@.len() implies #[trigger] self.parts(n)
            == before.parts(n) by {
            tree::lemma_parts_kept(before.nodes@, self.nodes@, n);
        }
        assert(model::tree_wf(self.nodes@, self.roots)) by {
            reveal(model::tree_wf);
            let nodes = self.nodes@;
            assert forall|n: int| #![trigger nodes[n]] 0 <= n < nodes.len() implies {
                &&& nodes[n].children.wf()
                &&& crate::paths::are_components(model::node_parts(nodes, n))
                &&& match nodes[n].parent {
                    None => self.roots@.contains((nodes[n].name@, n as usize)),
                    Some(p) => p < n && nodes[p as int].children@.contains(
                        (nodes[n].name@, n as usize),
                    ),
                }
            } by {
                assert(before.nodes@[n].children.wf());
                assert(self.parts(n) == before.parts(n));
            }
            assert forall|e: (Seq<char>, usize)| #[trigger] self.roots@.contains(e) implies e.1
                < nodes.len() && nodes[e.1 as int].parent is None && nodes[e.1 as int].name@
                == e.0 by {
                assert(before.nodes@[e.1 as int].parent is None);
            }
            assert forall|n: int, e: (Seq<char>, usize)|
                0 <= n < nodes.len() && #[trigger] nodes[n].children@.contains(e) implies e.1
                < nodes.len() && nodes[e.1 as int].parent == Some(n as usize) && nodes[e.1 as int].name@
                == e.0 by {
                assert(before.nodes@[n].children@.contains(e));
            }
        }
        assert(self.nodes_wf()) by {
            assert forall|f: int| #![trigger self.files@[f]]
                0 <= f < self.files@.len() implies {
                &&& self.files@[f].node < self.nodes@.len()
                &&& self.nodes@[self.files@[f].node as int].files@.contains(f as usize)
                &&& self.parts(self.files@[f].node as int) == crate::paths::components(
                    self.files@[f].path@,
                ).drop_last()
                &&& crate::paths::components(self.files@[f].path@).len() >= 2
            } by {
                assert(before.files@[f].node < before.nodes@.len());
                assert(self.parts(self.files@[f].node as int) == before.parts(
                    before.files@[f].node as int,
                ));
            }
            assert forall|n: int, i: int| #![trigger self.nodes@[n].files@[i]]
                0 <= n < self.nodes@.len() && 0 <= i < self.nodes@[n].files@.len() implies {
                &&& self.nodes@[n].files@[i] < self.files@.len()
                &&& self.files@[self.nodes@[n].files@[i] as int].node == n
            } by {
                assert(before.nodes@[n].files@[i] < before.files@.len());
            }
            assert forall|n: int, i: int, j: int|
                #![trigger self.nodes@[n].files@[i], self.nodes@[n].files@[j]]
                0 <= n < self.nodes@.len() && 0 <= i < j < self.nodes@[n].files@.len() implies self.nodes@[n].files@[i]
                < self.nodes@[n].files@[j] by {
                assert(before.nodes@[n].files@[i] < before.nodes@[n].files@[j]);
            }
        }
        assert(self.groups_wf());
        assert(self.index_wf());
    }

    /// Whether the counts are those of the files as they stand.
    pub open spec fn counts_right(self) -> bool {
        &&& self.totals@ == self.tally(self.files@.len(), None)
        &&& forall|n: int| #![trigger self.nodes@[n]]
            0 <= n < self.nodes@.len() ==> self.nodes@[n].counts@ == self.tally(
                self.files@.len(),
                Some(n),
            )
        &&& self.visible_groups == self.shown_groups(self.groups@.len())
        &&& self.wasted_bytes == self.waste(self.groups@.len())
    }

    /// Whether the numbers of files that are shown in folders are right. They do
    /// not depend on marks.
    pub open spec fn totals_right(self) -> bool {
        forall|n: int| #![trigger self.nodes@[n]]
            0 <= n < self.nodes@.len() ==> self.nodes@[n].counts.total == self.tally(
                self.files@.len(),
                Some(n),
            ).total
    }

    /// The numbers of files that are shown are right once all counts are, and
    /// stay so while files are only marked.
    pub proof fn lemma_totals_kept(self, before: Model)
        requires
            before.counts_right() || before.totals_right(),
            self.same_presence(before),
        ensures
            before.totals_right(),
            self.totals_right(),
    {
        assert forall|n: int| #![trigger before.nodes@[n]]
            0 <= n < before.nodes@.len() implies before.nodes@[n].counts.total == before.tally(
            before.files@.len(),
            Some(n),
        ).total by {
            assert(before.nodes@[n].counts@.total == before.nodes@[n].counts.total);
        }
        assert forall|n: int| #![trigger self.nodes@[n]]
            0 <= n < self.nodes@.len() implies self.nodes@[n].counts.total == self.tally(
            self.files@.len(),
            Some(n),
        ).total by {
            self.lemma_total_unmarked(before, self.files@.len(), n);
            assert(before.nodes@[n].counts.total == before.tally(
                before.files@.len(),
                Some(n),
            ).total);
        }
    }

    proof fn lemma_total_unmarked(self, before: Model, count: nat, n: int)
        requires
            self.same_presence(before),
            count <= self.files@.len(),
        ensures
            self.tally(count, Some(n)).total == before.tally(count, Some(n)).total,
        decreases count,
    {
        if count > 0 {
            let f = count - 1;
            self.lemma_total_unmarked(before, f as nat, n);
            self.lemma_visible_kept(before);
            assert(self.visible(f) == before.visible(f));
            assert(self.files@[f].node == before.files@[f].node);
            assert(self.counted(f, Some(n)) == before.counted(f, Some(n)));
        }
    }

    proof fn lemma_tally_apart(self, before: Model, count: nat, top: Option<int>)
        requires
            before.wf(),
            self.same_but_counts(before),
            count <= self.files@.len(),
        ensures
            self.tally(count, top) == before.tally(count, top),
        decreases count,
    {
        if count > 0 {
            let f = count - 1;
            self.lemma_tally_apart(before, (count - 1) as nat, top);
            assert(before.files@[f].node < before.nodes@.len());
            match top {
                None => {},
                Some(n) => {
                    tree::lemma_under_kept(
                        before.nodes@,
                        self.nodes@,
                        before.files@[f].node as int,
                        n,
                    );
                },
            }
            assert forall|o: int| #[trigger] self.other(f, o) == before.other(f, o) by {}
            assert(self.visible(f) == before.visible(f)) by {
                if before.visible(f) {
                    let o = choose|o: int| before.other(f, o);
                    assert(self.other(f, o));
                }
                if self.visible(f) {
                    let o = choose|o: int| self.other(f, o);
                    assert(before.other(f, o));
                }
            }
            assert(self.others_marked(f) == before.others_marked(f)) by {
                if before.others_marked(f) {
                    let o = choose|o: int| before.other(f, o);
                    assert(self.other(f, o));
                }
                if self.others_marked(f) {
                    let o = choose|o: int| self.other(f, o);
                    assert(before.other(f, o));
                    assert forall|p: int| #[trigger] before.other(f, p) implies before.files@[p].marked by {
                        assert(self.other(f, p));
                    }
                }
            }
        }
    }

    proof fn lemma_waste_apart(self, before: Model, count: nat)
        requires
            self.same_but_counts(before),
            count <= self.groups@.len(),
        ensures
            self.waste(count) == before.waste(count),
            self.shown_groups(count) == before.shown_groups(count),
        decreases count,
    {
        if count > 0 {
            self.lemma_waste_apart(before, (count - 1) as nat);
        }
    }

    /// Whether the counts are right unless they are known to be out of date.
    pub open spec fn fresh(self) -> bool {
        self.dirty || self.counts_right()
    }

    /// Whether no file is marked, gone or hidden that was not before, nor the
    /// other way round.
    pub open spec fn same_flags(self, before: Model) -> bool {
        &&& self.same_presence(before)
        &&& forall|f: int| #![trigger self.files@[f]]
            0 <= f < self.files@.len() ==> self.files@[f].marked == before.files@[f].marked
    }

    proof fn lemma_tally_flags(self, before: Model, count: nat, top: Option<int>)
        requires
            self.same_flags(before),
            count <= self.files@.len(),
        ensures
            self.tally(count, top) == before.tally(count, top),
        decreases count,
    {
        if count > 0 {
            let f = count - 1;
            self.lemma_tally_flags(before, f as nat, top);
            self.lemma_visible_kept(before);
            assert(self.visible(f) == before.visible(f));
            assert(self.files@[f].marked == before.files@[f].marked);
            assert(self.files@[f].group == before.files@[f].group);
            assert(self.files@[f].node == before.files@[f].node);
            assert forall|o: int| #[trigger] self.other(f, o) implies self.files@[o].marked
                == before.files@[o].marked && before.other(f, o) by {}
            assert forall|o: int| #[trigger] before.other(f, o) implies self.other(f, o) by {}
            assert(self.others_marked(f) == before.others_marked(f)) by {
                if before.others_marked(f) {
                    let o = choose|o: int| before.other(f, o);
                    assert(self.other(f, o));
                }
                if self.others_marked(f) {
                    let o = choose|o: int| self.other(f, o);
                    assert(before.other(f, o));
                    assert forall|p: int| #[trigger] before.other(f, p) implies before.files@[p].marked by {
                        assert(self.other(f, p));
                    }
                }
            }
        }
    }

    proof fn lemma_alive_flags(self, before: Model, ids: Seq<FileId>)
        requires
            self.same_flags(before),
            forall|i: int| 0 <= i < ids.len() ==> (#[trigger] ids[i]) < self.files@.len(),
        ensures
            model::alive_among(ids, self.files@) == model::alive_among(ids, before.files@),
        decreases ids.len(),
    {
        reveal(Seq::filter);
        if ids.len() > 0 {
            let rest = ids.drop_last();
            assert forall|i: int| 0 <= i < rest.len() implies (#[trigger] rest[i])
                < self.files@.len() by {
                assert(rest[i] == ids[i]);
            }
            self.lemma_alive_flags(before, rest);
            let f = ids[ids.len() - 1];
            assert(self.files@[f as int].removed == before.files@[f as int].removed);
        }
    }

    proof fn lemma_waste_flags(self, before: Model, count: nat)
        requires
            before.wf(),
            self.same_flags(before),
            count <= self.groups@.len(),
        ensures
            self.waste(count) == before.waste(count),
            self.shown_groups(count) == before.shown_groups(count),
        decreases count,
    {
        if count > 0 {
            let g = count - 1;
            self.lemma_waste_flags(before, g as nat);
            assert forall|i: int| 0 <= i < before.groups@[g].files@.len() implies (
            #[trigger] before.groups@[g].files@[i]) < self.files@.len() by {}
            self.lemma_alive_flags(before, before.groups@[g].files@);
        }
    }

    /// Counts are right unless they are known to be out of date, and stay so
    /// under every operation that says they are wherever it marks, hides or
    /// removes a file, or shows one again.
    pub proof fn lemma_fresh_kept(self, before: Model)
        requires
            before.wf(),
            before.fresh(),
            self.dirty || (!before.dirty && self.same_flags(before)),
        ensures
            self.fresh(),
    {
        if !self.dirty {
            let n = self.files@.len();
            self.lemma_tally_flags(before, n, None);
            self.lemma_waste_flags(before, self.groups@.len());
            assert forall|k: int| #![trigger self.nodes@[k]]
                0 <= k < self.nodes@.len() implies self.nodes@[k].counts@ == self.tally(
                n,
                Some(k),
            ) by {
                self.lemma_tally_flags(before, n, Some(k));
                assert(before.nodes@[k].counts@ == before.tally(n, Some(k)));
            }
        }
    }

    /// Counts anew, where the results have changed.
    pub fn refresh(&mut self)
        requires
            old(self).wf(),
            old(self).dirty ==> old(self).sums_fit(),
        ensures
            final(self).wf(),
            !old(self).dirty ==> *final(self) == *old(self),
            old(self).dirty ==> {
                &&& final(self).same_but_counts(*old(self))
                &&& final(self).counts_right()
                &&& !final(self).dirty
                &&& final(self).generation == old(self).generation + 1
            },
            old(self).fresh() ==> final(self).counts_right(),
    {
        if !self.dirty {
            return;
        }
        let ghost before = *self;
        let mut totals = Counts::default();
        let mut counts: Vec<Counts> = Vec::new();
        for n in 0..self.nodes.len()
            invariant
                counts@.len() == n,
                forall|m: int| 0 <= m < n ==> (#[trigger] counts@[m])@ == Tally::zero(),
        {
            counts.push(Counts::default());
        }
        proof {
            reveal(model::tree_wf);
            assert forall|n: int| #![trigger self.nodes@[n]]
                0 <= n < self.nodes@.len() implies (self.nodes@[n].parent matches Some(p) ==> p
                < n) by {}
            before.lemma_delete_within_waste();
        }
        for id in 0..self.files.len()
            invariant
                *self == before,
                before.wf(),
                before.tally(before.files@.len(), None).delete_bytes <= u64::MAX,
                forall|n: int| #![trigger before.nodes@[n]]
                    0 <= n < before.nodes@.len() ==> (before.nodes@[n].parent matches Some(p)
                        ==> p < n),
                totals@ == before.tally(id as nat, None),
                counts@.len() == before.nodes@.len(),
                forall|n: int| #![trigger counts@[n]]
                    0 <= n < counts@.len() ==> counts@[n]@ == before.tally(id as nat, Some(n)),
        {
            let more = self.file_counts(id);
            let ghost next = (id + 1) as nat;
            proof {
                assert(before.files@.len() == before.files.len());
                before.lemma_tally_bounds(next, None);
                before.lemma_tally_grows(next, before.files@.len());
                assert(before.counted(id as int, None));
                assert(before.tally(next, None) == before.tally(id as nat, None).plus(more@));
                assert forall|n: int| #![trigger counts@[n]]
                    0 <= n < before.nodes@.len() && model::under(
                        before.nodes@,
                        before.files@[id as int].node as int,
                        n,
                    ) implies can_add(counts@[n]@, more@) by {
                    before.lemma_tally_bounds(next, Some(n));
                    assert(before.counted(id as int, Some(n)));
                    assert(before.tally(next, Some(n)) == before.tally(id as nat, Some(n)).plus(
                        more@,
                    ));
                }
            }
            model::add_counts(&mut totals, more);
            add_up(&self.nodes, &mut counts, self.files[id].node, more);
            proof {
                assert forall|n: int| #![trigger counts@[n]] 0 <= n < counts@.len() implies counts@[n]@
                    == before.tally(next, Some(n)) by {
                    assert(before.counted(id as int, Some(n)) == model::under(
                        before.nodes@,
                        before.files@[id as int].node as int,
                        n,
                    ));
                }
            }
        }
        let mut visible_groups: usize = 0;
        let mut wasted_bytes: u64 = 0;
        for g in 0..self.groups.len()
            invariant
                *self == before,
                before.wf(),
                before.sums_fit(),
                visible_groups == before.shown_groups(g as nat),
                visible_groups <= g,
                wasted_bytes == before.waste(g as nat),
        {
            proof {
                assert forall|i: int| 0 <= i < before.groups@[g as int].files@.len() implies (
                #[trigger] before.groups@[g as int].files@[i]) < before.files@.len() by {}
                before.lemma_waste_grows((g + 1) as nat, before.groups@.len());
            }
            let alive = self.groups[g].alive(self.files.as_slice()).len();
            if alive >= 2 {
                let copies: u64 = (alive - 1) as u64;
                let size = self.groups[g].size;
                assert(before.group_waste(g as int) == size as nat * copies as nat);
                visible_groups = visible_groups + 1;
                wasted_bytes = wasted_bytes + size * copies;
            }
        }
        self.dirty = false;
        self.generation = self.generation + 1;
        self.totals = totals;
        self.visible_groups = visible_groups;
        self.wasted_bytes = wasted_bytes;
        let node_count = self.nodes.len();
        for n in 0..node_count
            invariant
                node_count == before.nodes@.len(),
                counts@.len() == before.nodes@.len(),
                self.nodes@.len() == before.nodes@.len(),
                self.same_but_counts(before),
                self.totals == totals,
                self.visible_groups == visible_groups,
                self.wasted_bytes == wasted_bytes,
                self.generation == before.generation + 1,
                !self.dirty,
                forall|m: int| #![trigger self.nodes@[m]]
                    0 <= m < n ==> self.nodes@[m].counts == counts@[m],
        {
            let ghost now = *self;
            self.nodes[n].counts = counts[n];
            assert forall|m: int| #![trigger self.nodes@[m]] 0 <= m < self.nodes@.len() implies {
                &&& self.nodes@[m].name == before.nodes@[m].name
                &&& self.nodes@[m].parent == before.nodes@[m].parent
                &&& self.nodes@[m].children == before.nodes@[m].children
                &&& self.nodes@[m].files == before.nodes@[m].files
                &&& m < n + 1 ==> self.nodes@[m].counts == counts@[m]
            } by {
                assert(now.nodes@[m].name == before.nodes@[m].name);
            }
        }
        proof {
            self.lemma_counts_apart(before);
            self.lemma_tally_apart(before, self.files@.len(), None);
            self.lemma_waste_apart(before, self.groups@.len());
            assert forall|n: int| #![trigger self.nodes@[n]]
                0 <= n < self.nodes@.len() implies self.nodes@[n].counts@ == self.tally(
                self.files@.len(),
                Some(n),
            ) by {
                self.lemma_tally_apart(before, self.files@.len(), Some(n));
            }
        }
    }
}


impl Model {
    /// Whether the sums of bytes can be held.
    pub fn can_refresh(&self) -> (result: bool)
        requires
            self.wf(),
        ensures
            result == self.sums_fit(),
    {
        if self.generation == u64::MAX {
            return false;
        }
        let limit: u128 = u64::MAX as u128;
        let mut wasted: u128 = 0;
        for g in 0..self.groups.len()
            invariant
                self.wf(),
                limit == u64::MAX,
                wasted == self.waste(g as nat),
                wasted <= u64::MAX,
        {
            proof {
                assert forall|i: int| 0 <= i < self.groups@[g as int].files@.len() implies (
                #[trigger] self.groups@[g as int].files@[i]) < self.files@.len() by {}
                self.lemma_waste_grows((g + 1) as nat, self.groups@.len());
            }
            let alive = self.groups[g].alive(self.files.as_slice()).len();
            if alive >= 2 {
                let copies: u128 = (alive - 1) as u128;
                let size: u128 = self.groups[g].size as u128;
                assert(size * copies <= u64::MAX * usize::MAX) by (nonlinear_arith)
                    requires
                        size <= u64::MAX,
                        copies <= usize::MAX,
                ;
                assert(self.group_waste(g as int) == size as nat * copies as nat);
                wasted = wasted + size * copies;
                if wasted > limit {
                    return false;
                }
            }
        }
        true
    }

    // ---------------------------------------------------------------- folders

    /// Whether a file is shown in a folder or below it.
    pub open spec fn shown_in(self, n: int, f: int) -> bool {
        &&& 0 <= f < self.files@.len()
        &&& self.visible(f)
        &&& model::under(self.nodes@, self.files@[f].node as int, n)
    }

    proof fn lemma_tally_reads(self, count: nat, n: int)
        requires
            count <= self.files@.len(),
        ensures
            ({
                let t = self.tally(count, Some(n));
                &&& t.delete <= t.total
                &&& t.keep <= t.total
                &&& t.total == 0 <==> forall|f: int| 0 <= f < count ==> !#[trigger] self.shown_in(n, f)
                &&& t.conflict > 0 <==> exists|f: int|
                    0 <= f < count && #[trigger] self.shown_in(n, f) && self.status_of(f)
                        == Status::Conflict
                &&& t.delete == t.total <==> forall|f: int|
                    0 <= f < count && #[trigger] self.shown_in(n, f) ==> self.status_of(f)
                        == Status::Delete || self.status_of(f) == Status::Conflict
                &&& t.keep == t.total <==> forall|f: int|
                    0 <= f < count && #[trigger] self.shown_in(n, f) ==> self.status_of(f)
                        == Status::Keep
            }),
        decreases count,
    {
        if count > 0 {
            let last = count - 1;
            self.lemma_tally_reads(last as nat, n);
            assert(self.shown_in(n, last) == (self.visible(last) && self.counted(last, Some(n))));
            if exists|f: int|
                0 <= f < count && #[trigger] self.shown_in(n, f) && self.status_of(f)
                    == Status::Conflict {
                let f = choose|f: int|
                    0 <= f < count && #[trigger] self.shown_in(n, f) && self.status_of(f)
                        == Status::Conflict;
                assert(f < last ==> self.shown_in(n, f));
            }
        }
    }

    /// Once counted, a folder is shown as in conflict where a file in it is, as
    /// to be deleted where all files shown in it are, and as kept where all are.
    pub proof fn lemma_folder_status(self, n: int)
        requires
            self.counts_right(),
            0 <= n < self.nodes@.len(),
        ensures
            self.folder_status(n) == Status::Conflict <==> exists|f: int| #[trigger]
                self.shown_in(n, f) && self.status_of(f) == Status::Conflict,
            self.folder_status(n) == Status::Delete <==> (exists|f: int| self.shown_in(n, f)) && (
            forall|f: int| #[trigger] self.shown_in(n, f) ==> self.status_of(f) == Status::Delete),
            self.folder_status(n) == Status::Keep <==> (exists|f: int| self.shown_in(n, f)) && (
            forall|f: int| #[trigger] self.shown_in(n, f) ==> self.status_of(f) == Status::Keep),
    {
        self.lemma_tally_reads(self.files@.len(), n);
        assert(self.nodes@[n].counts@ == self.tally(self.files@.len(), Some(n)));
    }

    /// Whether a file is shown in a folder itself.
    pub open spec fn shown_directly(self, n: int) -> spec_fn(int) -> bool {
        |f: int| self.visible(f) && self.files@[f].node == n
    }

    /// How many files are shown in or below each sub-folder of a folder.
    pub open spec fn child_totals(self, n: int, count: nat) -> spec_fn(int) -> nat {
        |i: int| self.tally(count, Some(self.nodes@[n].children.ids()[i] as int)).total
    }

    /// The sub-folder of a folder that holds what lies below it.
    proof fn lemma_child_above(self, m: int, n: int) -> (i: int)
        requires
            self.wf(),
            0 <= m < self.nodes@.len(),
            0 <= n,
            m != n,
            model::under(self.nodes@, m, n),
        ensures
            0 <= i < self.nodes@[n].children.ids().len(),
            model::under(self.nodes@, m, self.nodes@[n].children.ids()[i] as int),
        decreases m,
    {
        let p = self.nodes@[m].parent->0 as int;
        marks::lemma_under_order(self.nodes@, m, n);
        assert(self.nodes@.len() == self.nodes.len());
        if p == n {
            self.lemma_children(n);
            let children = self.nodes@[n].children.ids();
            assert(self.parents()[m] == Some(n as usize));
            let i = children.index_of(m as usize);
            assert(children[i] == m);
            assert(model::under(self.nodes@, m, m));
            i
        } else {
            self.lemma_child_above(p, n)
        }
    }

    /// What is shown in a folder is shown in itself or in one of its
    /// sub-folders.
    proof fn lemma_totals_split(self, n: int, count: nat)
        requires
            self.wf(),
            0 <= n < self.nodes@.len(),
            count <= self.files@.len(),
        ensures
            self.tally(count, Some(n)).total == counting::count(count, self.shown_directly(n))
                + counting::total(
                self.nodes@[n].children.ids().len(),
                self.child_totals(n, count),
            ),
        decreases count,
    {
        let nodes = self.nodes@;
        let children = nodes[n].children.ids();
        let now = self.child_totals(n, count);
        if count == 0 {
            counting::lemma_total_zero(children.len(), now);
        } else {
            let f = count - 1;
            let before = self.child_totals(n, f as nat);
            self.lemma_totals_split(n, f as nat);
            let m = self.files@[f].node as int;
            assert(m < nodes.len());
            self.lemma_children(n);
            assert forall|i: int| 0 <= i < children.len() implies {
                &&& children[i] > n
                &&& #[trigger] now(i) == before(i) + (if self.visible(f) && model::under(
                    nodes,
                    m,
                    children[i] as int,
                ) {
                    1nat
                } else {
                    0nat
                })
            } by {
                assert(self.parents()[children[i] as int] == Some(n as usize));
                assert(self.counted(f, Some(children[i] as int)) == model::under(
                    nodes,
                    m,
                    children[i] as int,
                ));
            }
            assert(self.counted(f, Some(n)) == model::under(nodes, m, n));
            if !self.visible(f) {
                counting::lemma_total_same(children.len(), before, now);
            } else if m == n {
                assert(model::under(nodes, m, n));
                assert forall|i: int| 0 <= i < children.len() implies #[trigger] before(i)
                    == now(i) by {
                    assert(children[i] > n);
                    if model::under(nodes, m, children[i] as int) {
                        marks::lemma_under_order(nodes, m, children[i] as int);
                    }
                }
                counting::lemma_total_same(children.len(), before, now);
            } else if model::under(nodes, m, n) {
                let k = self.lemma_child_above(m, n);
                assert forall|i: int| 0 <= i < children.len() && i != k implies #[trigger] before(i)
                    == now(i) by {
                    if model::under(nodes, m, children[i] as int) {
                        self.lemma_one_child(m, n, i, k);
                    }
                }
                counting::lemma_total_more(children.len(), before, now, k, 1);
            } else {
                assert forall|i: int| 0 <= i < children.len() implies #[trigger] before(i)
                    == now(i) by {
                    let c = children[i] as int;
                    if model::under(nodes, m, c) {
                        assert(self.parents()[c] == Some(n as usize));
                        lemma_under_parent(nodes, m, c);
                    }
                }
                counting::lemma_total_same(children.len(), before, now);
            }
        }
    }

    /// No two sub-folders of a folder hold the same.
    proof fn lemma_one_child(self, m: int, n: int, i: int, k: int)
        requires
            self.wf(),
            0 <= n < self.nodes@.len(),
            0 <= i < self.nodes@[n].children.ids().len(),
            0 <= k < self.nodes@[n].children.ids().len(),
            model::under(self.nodes@, m, self.nodes@[n].children.ids()[i] as int),
            model::under(self.nodes@, m, self.nodes@[n].children.ids()[k] as int),
        ensures
            i == k,
    {
        let nodes = self.nodes@;
        let children = nodes[n].children.ids();
        self.lemma_children(n);
        let a = children[i] as int;
        let b = children[k] as int;
        assert(children[i] > n && children[k] > n);
        assert(self.parents()[a] == Some(n as usize) && self.parents()[b] == Some(n as usize));
        if a < b {
            marks::lemma_under_chain(nodes, m, a, b);
            assert(model::under(nodes, n, a));
            marks::lemma_under_order(nodes, n, a);
        } else if b < a {
            marks::lemma_under_chain(nodes, m, b, a);
            assert(model::under(nodes, n, b));
            marks::lemma_under_order(nodes, n, b);
        }
    }

    /// The sub-folders of a folder in which files are shown.
    pub fn visible_children(&self, node: NodeId) -> (children: Vec<NodeId>)
        requires
            self.wf(),
            node < self.nodes@.len(),
        ensures
            children@ == self.nodes@[node as int].children.ids().filter(
                |c: NodeId| self.nodes@[c as int].counts.total > 0,
            ),
    {
        let all = self.nodes[node].children.values();
        let ghost pred = |c: NodeId| self.nodes@[c as int].counts.total > 0;
        let mut children: Vec<NodeId> = Vec::new();
        proof {
            reveal(Seq::filter);
            assert(all@.take(0).filter(pred) =~= Seq::<NodeId>::empty());
            self.lemma_children(node as int);
        }
        for i in 0..all.len()
            invariant
                marks::are_children(self.parents(), node as int, all@),
                pred == (|c: NodeId| self.nodes@[c as int].counts.total > 0),
                children@ == all@.take(i as int).filter(pred),
        {
            let c = all[i];
            proof {
                reveal(Seq::filter);
                assert(all@.take(i as int + 1).drop_last() =~= all@.take(i as int));
                assert(all@[i as int] < self.parents().len());
            }
            if self.nodes[c].counts.total > 0 {
                children.push(c);
            }
        }
        assert(all@.take(all@.len() as int) =~= all@);
        children
    }

    /// The files of a folder itself that are shown.
    pub fn visible_files(&self, node: NodeId) -> (files: Vec<FileId>)
        requires
            self.wf(),
            node < self.nodes@.len(),
        ensures
            files@ == self.nodes@[node as int].files@.filter(|f: FileId| self.visible(f as int)),
    {
        let ghost all = self.nodes@[node as int].files@;
        let ghost pred = |f: FileId| self.visible(f as int);
        let mut files: Vec<FileId> = Vec::new();
        proof {
            reveal(Seq::filter);
            assert(all.take(0).filter(pred) =~= Seq::<FileId>::empty());
        }
        let count = self.nodes[node].files.len();
        for i in 0..count
            invariant
                self.wf(),
                node < self.nodes@.len(),
                count == all.len(),
                all == self.nodes@[node as int].files@,
                pred == (|f: FileId| self.visible(f as int)),
                files@ == all.take(i as int).filter(pred),
        {
            let f = self.nodes[node].files[i];
            proof {
                reveal(Seq::filter);
                assert(all.take(i as int + 1).drop_last() =~= all.take(i as int));
                assert(self.nodes@[node as int].files@[i as int] < self.files@.len());
            }
            if self.is_visible(f) {
                files.push(f);
            }
        }
        assert(all.take(all.len() as int) =~= all);
        files
    }

    /// How many files are shown in a folder itself.
    pub fn direct_file_count(&self, node: NodeId) -> (count: usize)
        requires
            self.wf(),
            self.totals_right(),
            node < self.nodes@.len(),
        ensures
            count == counting::count(self.files@.len(), self.shown_directly(node as int)),
    {
        let all = self.nodes[node].children.values();
        let ghost totals = self.child_totals(node as int, self.files@.len());
        proof {
            self.lemma_children(node as int);
            self.lemma_totals_split(node as int, self.files@.len());
            assert(self.nodes@[node as int].counts.total == self.tally(
                self.files@.len(),
                Some(node as int),
            ).total);
        }
        let mut left: usize = self.nodes[node].counts.total;
        for i in 0..all.len()
            invariant
                self.totals_right(),
                marks::are_children(self.parents(), node as int, all@),
                node < self.nodes@.len(),
                all@ == self.nodes@[node as int].children.ids(),
                totals == self.child_totals(node as int, self.files@.len()),
                self.nodes@[node as int].counts.total == counting::count(
                    self.files@.len(),
                    self.shown_directly(node as int),
                ) + counting::total(all@.len(), totals),
                left + counting::total(i as nat, totals) == self.nodes@[node as int].counts.total,
        {
            let c = all[i];
            proof {
                assert(all@[i as int] < self.parents().len());
                assert(self.nodes@[c as int].counts.total == self.tally(
                    self.files@.len(),
                    Some(c as int),
                ).total);
                assert(totals(i as int) == self.nodes@[c as int].counts.total);
                counting::lemma_total_grows((i + 1) as nat, all@.len(), totals);
            }
            left = left - self.nodes[c].counts.total;
        }
        left
    }
}

// ----------------------------------------------------------------- top folders

/// What the first of some tallies add up to.
pub open spec fn tally_sum(n: nat, f: spec_fn(int) -> Tally) -> Tally
    decreases n,
{
    if n == 0 {
        Tally::zero()
    } else {
        tally_sum((n - 1) as nat, f).plus(f(n - 1))
    }
}

proof fn lemma_sum_same(n: nat, f: spec_fn(int) -> Tally, g: spec_fn(int) -> Tally)
    requires
        forall|i: int| 0 <= i < n ==> #[trigger] f(i) == g(i),
    ensures
        tally_sum(n, f) == tally_sum(n, g),
    decreases n,
{
    if n > 0 {
        lemma_sum_same((n - 1) as nat, f, g);
        assert(f(n - 1) == g(n - 1));
    }
}

proof fn lemma_sum_zero(n: nat, f: spec_fn(int) -> Tally)
    requires
        forall|i: int| 0 <= i < n ==> #[trigger] f(i) == Tally::zero(),
    ensures
        tally_sum(n, f) == Tally::zero(),
    decreases n,
{
    if n > 0 {
        lemma_sum_zero((n - 1) as nat, f);
        assert(f(n - 1) == Tally::zero());
    }
}

proof fn lemma_sum_more(
    n: nat,
    f: spec_fn(int) -> Tally,
    g: spec_fn(int) -> Tally,
    k: int,
    more: Tally,
)
    requires
        0 <= k < n,
        forall|i: int| 0 <= i < n && i != k ==> #[trigger] f(i) == g(i),
        g(k) == f(k).plus(more),
    ensures
        tally_sum(n, g) == tally_sum(n, f).plus(more),
    decreases n,
{
    assert forall|i: int| 0 <= i < n - 1 && i != k implies #[trigger] f(i) == g(i) by {}
    if k == n - 1 {
        lemma_sum_same((n - 1) as nat, f, g);
    } else {
        assert(f(n - 1) == g(n - 1));
        lemma_sum_more((n - 1) as nat, f, g, k, more);
    }
}

impl Model {
    /// The top folders, each once, are those that no other holds.
    proof fn lemma_tops(self)
        requires
            self.wf(),
        ensures
            self.roots.ids().no_duplicates(),
            forall|i: int| #![trigger self.roots.ids()[i]]
                0 <= i < self.roots.ids().len() ==> self.roots.ids()[i] < self.nodes@.len()
                    && self.nodes@[self.roots.ids()[i] as int].parent is None,
            forall|n: int| #![trigger self.nodes@[n]]
                0 <= n < self.nodes@.len() && self.nodes@[n].parent is None
                    ==> self.roots.ids().contains(n as usize),
            forall|n: int| #![trigger self.nodes@[n]]
                0 <= n < self.nodes@.len() ==> (self.nodes@[n].parent matches Some(p) ==> p < n),
    {
        reveal(model::tree_wf);
        let map = self.roots;
        let tops = map.ids();
        assert(self.nodes@.len() == self.nodes.len());
        assert forall|i: int| #![trigger tops[i]] 0 <= i < tops.len() implies tops[i]
            < self.nodes@.len() && self.nodes@[tops[i] as int].parent is None && self.nodes@[
        tops[i] as int].name@ == map@[i].0 by {
            assert(map@.contains(map@[i]));
        }
        assert forall|i: int, j: int| 0 <= i < j < tops.len() implies tops[i] != tops[j] by {
            if tops[i] == tops[j] {
                assert(text::text_less(map@[i].0, map@[j].0));
                text::lemma_text_less_irreflexive(map@[i].0);
            }
        }
        assert forall|n: int| #![trigger self.nodes@[n]]
            0 <= n < self.nodes@.len() && self.nodes@[n].parent is None implies tops.contains(
            n as usize,
        ) by {
            let e = (self.nodes@[n].name@, n as usize);
            let i = map@.index_of(e);
            assert(tops[i] == n as usize);
        }
    }

    /// The top folder that holds a folder.
    proof fn lemma_top_above(self, m: int) -> (i: int)
        requires
            self.wf(),
            0 <= m < self.nodes@.len(),
        ensures
            0 <= i < self.roots.ids().len(),
            model::under(self.nodes@, m, self.roots.ids()[i] as int),
        decreases m,
    {
        self.lemma_tops();
        assert(self.nodes@.len() == self.nodes.len());
        match self.nodes@[m].parent {
            None => {
                let i = self.roots.ids().index_of(m as usize);
                assert(self.roots.ids()[i] == m);
                i
            },
            Some(p) => self.lemma_top_above(p as int),
        }
    }

    /// What is counted in each top folder.
    spec fn top_tallies(self, count: nat) -> spec_fn(int) -> Tally {
        |i: int| self.tally(count, Some(self.roots.ids()[i] as int))
    }

    proof fn lemma_tops_split(self, count: nat)
        requires
            self.wf(),
            count <= self.files@.len(),
        ensures
            tally_sum(self.roots.ids().len(), self.top_tallies(count)) == self.tally(count, None),
        decreases count,
    {
        let tops = self.roots.ids();
        let now = self.top_tallies(count);
        if count == 0 {
            lemma_sum_zero(tops.len(), now);
        } else {
            let f = count - 1;
            let before = self.top_tallies(f as nat);
            let m = self.files@[f].node as int;
            self.lemma_tops_split(f as nat);
            self.lemma_tops();
            assert(m < self.nodes@.len());
            let k = self.lemma_top_above(m);
            assert(self.counted(f, Some(tops[k] as int)));
            assert forall|i: int| 0 <= i < tops.len() && i != k implies #[trigger] before(i)
                == now(i) by {
                let a = tops[i] as int;
                let b = tops[k] as int;
                assert(a != b);
                if model::under(self.nodes@, m, a) {
                    if a < b {
                        marks::lemma_under_chain(self.nodes@, m, a, b);
                    } else {
                        marks::lemma_under_chain(self.nodes@, m, b, a);
                    }
                }
                assert(!self.counted(f, Some(a)));
            }
            assert(now(k) == before(k).plus(self.file_tally(f)));
            lemma_sum_more(tops.len(), before, now, k, self.file_tally(f));
        }
    }

    /// The counts of the top folders.
    pub open spec fn top_counts(self) -> spec_fn(int) -> Tally {
        |i: int| self.nodes@[self.roots.ids()[i] as int].counts@
    }

    /// The counts of the top folders add up to the totals.
    pub proof fn lemma_tops_add_up(self)
        requires
            self.wf(),
            self.counts_right(),
        ensures
            tally_sum(self.roots.ids().len(), self.top_counts()) == self.totals@,
    {
        let n = self.files@.len();
        self.lemma_tops();
        self.lemma_tops_split(n);
        assert forall|i: int| 0 <= i < self.roots.ids().len() implies #[trigger] self.top_tallies(
            n,
        )(i) == self.top_counts()(i) by {
            let top = self.roots.ids()[i] as int;
            assert(self.nodes@[top].counts@ == self.tally(n, Some(top)));
        }
        lemma_sum_same(self.roots.ids().len(), self.top_tallies(n), self.top_counts());
    }
}

// ----------------------------------------------------------------------- bytes

impl Model {
    /// Whether a file of a group counts towards what is deleted.
    spec fn deleted_in(self, g: int) -> spec_fn(int) -> bool {
        |f: int|
            self.visible(f) && self.status_of(f) == Status::Delete && self.files@[f].group == g
    }

    /// Whether a file of a group is present.
    spec fn present_in(self, g: int) -> spec_fn(int) -> bool {
        |f: int| self.alive(f) && self.files@[f].group == g
    }

    /// The members of a group are its files.
    proof fn lemma_members_count(self, g: int, p: spec_fn(int) -> bool, count: nat, upto: nat)
        requires
            self.wf(),
            0 <= g < self.groups@.len(),
            forall|f: int| #[trigger] p(f) ==> self.files@[f].group == g,
            count <= self.groups@[g].files@.len(),
            upto <= self.files@.len(),
            count > 0 ==> self.groups@[g].files@[count - 1] < upto,
            count < self.groups@[g].files@.len() ==> self.groups@[g].files@[count as int] >= upto,
        ensures
            counting::count(upto, p) == counting::count(
                count,
                |i: int| p(self.groups@[g].files@[i] as int),
            ),
        decreases upto,
    {
        let members = self.groups@[g].files@;
        let q = |i: int| p(members[i] as int);
        assert(self.files@.len() == self.files.len());
        if upto == 0 {
            assert(count == 0);
        } else {
            let f = upto - 1;
            if count > 0 && members[count - 1] == f {
                if count > 1 {
                    assert(self.groups@[g].files@[count - 2] < self.groups@[g].files@[count - 1]);
                }
                self.lemma_members_count(g, p, (count - 1) as nat, f as nat);
                assert(q(count - 1) == p(f));
            } else {
                if p(f) {
                    assert(self.files@[f].group == g);
                    assert(members.contains(f as usize));
                    let j = members.index_of(f as usize);
                    assert(members[j] == f);
                    if j < count - 1 {
                        assert(self.groups@[g].files@[j] < self.groups@[g].files@[count - 1]);
                    }
                    if j > count {
                        assert(self.groups@[g].files@[count as int] < self.groups@[g].files@[j]);
                    }
                    assert(false);
                }
                self.lemma_members_count(g, p, count, f as nat);
            }
        }
    }

    proof fn lemma_alive_count(self, ids: Seq<FileId>)
        ensures
            model::alive_among(ids, self.files@).len() == counting::count(
                ids.len(),
                |i: int| self.alive(ids[i] as int),
            ),
        decreases ids.len(),
    {
        reveal(Seq::filter);
        let p = |i: int| self.alive(ids[i] as int);
        if ids.len() > 0 {
            let rest = ids.drop_last();
            self.lemma_alive_count(rest);
            counting::lemma_count_same(rest.len(), |i: int| self.alive(rest[i] as int), p);
            assert(p(ids.len() - 1) == self.alive(ids.last() as int));
        }
    }

    /// The files of a group that are present are those among all files.
    pub proof fn lemma_alive_counted(self, g: int)
        requires
            self.wf(),
            0 <= g < self.groups@.len(),
        ensures
            self.alive_count(g) == counting::count(
                self.files@.len(),
                |f: int| self.alive(f) && self.files@[f].group == g,
            ),
    {
        let n = self.files@.len();
        let members = self.groups@[g].files@;
        let present = self.present_in(g);
        if members.len() > 0 {
            assert(self.groups@[g].files@[members.len() - 1] < n);
        }
        self.lemma_members_count(g, present, members.len(), n);
        self.lemma_alive_count(members);
        assert forall|i: int| 0 <= i < members.len() implies self.files@[
        #[trigger] members[i] as int].group == g by {
            assert(self.groups@[g].files@[i] < n);
        }
        counting::lemma_count_same(
            members.len(),
            |i: int| self.alive(members[i] as int),
            |i: int| present(members[i] as int),
        );
        counting::lemma_count_same(
            n,
            present,
            |f: int| self.alive(f) && self.files@[f].group == g,
        );
    }

    /// Of the files of a group that are present, one at least is not deleted.
    proof fn lemma_one_left(self, g: int)
        requires
            self.wf(),
            0 <= g < self.groups@.len(),
        ensures
            self.groups@[g].size as nat * counting::count(self.files@.len(), self.deleted_in(g))
                <= self.group_waste(g),
    {
        let n = self.files@.len();
        let members = self.groups@[g].files@;
        let deleted = self.deleted_in(g);
        let present = self.present_in(g);
        if members.len() > 0 {
            assert(self.groups@[g].files@[members.len() - 1] < n);
        }
        self.lemma_members_count(g, present, members.len(), n);
        self.lemma_alive_count(members);
        counting::lemma_count_same(
            members.len(),
            |i: int| self.alive(members[i] as int),
            |i: int| present(members[i] as int),
        );
        assert forall|i: int| 0 <= i < members.len() implies self.files@[
        #[trigger] members[i] as int].group == g by {
            assert(self.groups@[g].files@[i] < n);
        }
        assert(self.alive_count(g) == counting::count(n, present));
        counting::lemma_count_within(n, deleted, present);
        if counting::count(n, deleted) > 0 {
            let f = counting::lemma_count_one(n, deleted);
            assert(deleted(f));
            assert(!self.others_marked(f));
            let o = choose|o: int| self.other(f, o);
            assert(self.other(f, o));
            let u = choose|u: int| #[trigger] self.other(f, u) && !self.files@[u].marked;
            assert(present(u) && !deleted(u));
            counting::lemma_count_strictly(n, deleted, present, u);
            if f < u {
                counting::lemma_count_two(n, present, f, u);
            } else {
                counting::lemma_count_two(n, present, u, f);
            }
            let size = self.groups@[g].size as nat;
            let a = counting::count(n, deleted);
            let b = (self.alive_count(g) - 1) as nat;
            assert(size * a <= size * b) by (nonlinear_arith)
                requires
                    a <= b,
            ;
        } else {
            assert(self.groups@[g].size as nat * 0nat == 0) by (nonlinear_arith);
        }
    }

    proof fn lemma_delete_split(self, count: nat)
        requires
            self.wf(),
            count <= self.files@.len(),
        ensures
            self.tally(count, None).delete_bytes == counting::total(
                self.groups@.len(),
                |g: int|
                    self.groups@[g].size as nat * counting::count(count, self.deleted_in(g)),
            ),
        decreases count,
    {
        let now = |g: int|
            self.groups@[g].size as nat * counting::count(count, self.deleted_in(g));
        let groups = self.groups@.len();
        if count == 0 {
            assert forall|g: int| 0 <= g < groups implies #[trigger] now(g) == 0 by {
                assert(self.groups@[g].size as nat * 0nat == 0) by (nonlinear_arith);
            }
            counting::lemma_total_zero(groups, now);
        } else {
            let f = count - 1;
            let before = |g: int|
                self.groups@[g].size as nat * counting::count(f as nat, self.deleted_in(g));
            self.lemma_delete_split(f as nat);
            let home = self.files@[f].group as int;
            assert(home < groups);
            assert(self.counted(f, None));
            assert forall|g: int| 0 <= g < groups && g != home implies #[trigger] before(g) == now(
                g,
            ) by {
                assert(!self.deleted_in(g)(f));
            }
            if self.deleted_in(home)(f) {
                let size = self.groups@[home].size as nat;
                let c = counting::count(f as nat, self.deleted_in(home));
                assert(size * (c + 1) == size * c + size) by (nonlinear_arith);
                counting::lemma_total_more(groups, before, now, home, size);
            } else {
                assert(before(home) == now(home));
                counting::lemma_total_same(groups, before, now);
            }
        }
    }

    proof fn lemma_waste_total(self, count: nat)
        ensures
            self.waste(count) == counting::total(count, |g: int| self.group_waste(g)),
        decreases count,
    {
        if count > 0 {
            self.lemma_waste_total((count - 1) as nat);
        }
    }

    /// What is marked for deletion never takes more than what can be recovered:
    /// of each group a copy is left.
    pub proof fn lemma_delete_within_waste(self)
        requires
            self.wf(),
        ensures
            self.tally(self.files@.len(), None).delete_bytes <= self.waste(self.groups@.len()),
    {
        self.lemma_delete_split(self.files@.len());
        self.lemma_waste_total(self.groups@.len());
        let deleted = |g: int|
            self.groups@[g].size as nat * counting::count(
                self.files@.len(),
                self.deleted_in(g),
            );
        let wasted = |g: int| self.group_waste(g);
        assert forall|g: int| 0 <= g < self.groups@.len() implies #[trigger] deleted(g) <= wasted(
            g,
        ) by {
            self.lemma_one_left(g);
        }
        counting::lemma_total_within(self.groups@.len(), deleted, wasted);
    }
}

} // verus!
