//! Marking files for deletion.
use vstd::prelude::*;

use crate::model::{self, DupFile, FileId, Model, NodeId};

verus! {

impl Model {
    /// Whether a file is the only one whose fields differ, and how.
    pub open spec fn only_file(self, before: Model, file: int, now: DupFile) -> bool {
        self.same_but_files(before) && self.files@ == before.files@.update(file, now)
    }

    /// Marks a file, or takes its mark away.
    pub fn set_marked(&mut self, file: FileId, marked: bool)
        requires
            old(self).wf(),
            file < old(self).files@.len(),
        ensures
            final(self).wf(),
            final(self).only_file(
                *old(self),
                file as int,
                model::with_mark(old(self).files@[file as int], marked),
            ),
            final(self).dirty == (old(self).dirty || old(self).files@[file as int].marked
                != marked),
    {
        self.files[file].rule_pending = false;
        if self.files[file].marked != marked {
            self.files[file].marked = marked;
            self.dirty = true;
        }
        assert(self.files@ =~= old(self).files@.update(
            file as int,
            model::with_mark(old(self).files@[file as int], marked),
        ));
        proof {
            self.lemma_wf_kept(*old(self));
        }
    }

    /// Notes that a file was deleted from the disk.
    pub fn mark_removed(&mut self, file: FileId)
        requires
            old(self).wf(),
            file < old(self).files@.len(),
        ensures
            final(self).wf(),
            final(self).only_file(
                *old(self),
                file as int,
                (DupFile { removed: true, marked: false, ..old(self).files@[file as int] }),
            ),
            final(self).dirty,
    {
        self.files[file].removed = true;
        self.files[file].marked = false;
        self.dirty = true;
        assert(self.files@ =~= old(self).files@.update(
            file as int,
            (DupFile { removed: true, marked: false, ..old(self).files@[file as int] }),
        ));
        proof {
            self.lemma_wf_kept(*old(self));
        }
    }

    /// Whether the same files are present as before.
    pub open spec fn same_presence(self, before: Model) -> bool {
        &&& self.same_but_files(before)
        &&& forall|f: int| #![trigger self.files@[f]]
            0 <= f < self.files@.len() ==> self.files@[f].removed == before.files@[f].removed
                && self.files@[f].excluded == before.files@[f].excluded
    }

    /// Which files are shown rests on which are present alone.
    pub proof fn lemma_visible_kept(self, before: Model)
        requires
            self.same_presence(before),
        ensures
            forall|f: int|
                0 <= f < self.files@.len() ==> #[trigger] self.visible(f) == before.visible(f),
            forall|f: int, o: int|
                0 <= f < self.files@.len() ==> #[trigger] self.other(f, o) == before.other(f, o),
    {
        assert forall|f: int, o: int| 0 <= f < self.files@.len() implies #[trigger] self.other(
            f,
            o,
        ) == before.other(f, o) by {
            if 0 <= o < self.files@.len() {
                assert(self.files@[o].group == before.files@[o].group);
                assert(self.files@[f].group == before.files@[f].group);
            }
        }
        assert forall|f: int| 0 <= f < self.files@.len() implies #[trigger] self.visible(f)
            == before.visible(f) by {
            if before.visible(f) {
                let o = choose|o: int| before.other(f, o);
                assert(self.other(f, o));
            }
            if self.visible(f) {
                let o = choose|o: int| self.other(f, o);
                assert(before.other(f, o));
            }
        }
    }

    /// What `keep_only` leaves in the place of a file.
    pub open spec fn kept_only(self, file: int, f: int) -> DupFile {
        if self.files@[f].group == self.files@[file].group && self.alive(f) {
            model::with_mark(self.files@[f], f != file)
        } else {
            self.files@[f]
        }
    }

    /// Keeps a file and marks all other copies.
    pub fn keep_only(&mut self, file: FileId)
        requires
            old(self).wf(),
            file < old(self).files@.len(),
        ensures
            final(self).wf(),
            final(self).same_presence(*old(self)),
            forall|f: int|
                0 <= f < old(self).files@.len() ==> #[trigger] final(self).files@[f] == old(
                    self,
                ).kept_only(file as int, f),
            final(self).dirty == (old(self).dirty || exists|f: int| #![trigger old(self).files@[f]]
                0 <= f < old(self).files@.len() && old(self).kept_only(file as int, f).marked != old(
                    self,
                ).files@[f].marked),
    {
        let ghost before = *self;
        let g = self.files[file].group;
        let others = self.groups[g].alive(self.files.as_slice());
        let ghost pred = |f: FileId|
            !before.files@[f as int].removed && !before.files@[f as int].excluded;
        let ghost members = before.groups@[g as int].files@;
        proof {
            assert forall|i: int| 0 <= i < others@.len() implies {
                &&& (#[trigger] others@[i]) < before.files@.len()
                &&& before.files@[others@[i] as int].group == g
                &&& before.alive(others@[i] as int)
            } by {
                members.lemma_filter_pred(pred, i);
                members.lemma_filter_contains_rev(pred, others@[i]);
                let k = choose|k: int| 0 <= k < members.len() && members[k] == others@[i];
                assert(before.groups@[g as int].files@[k] == others@[i]);
            }
            assert forall|f: int|
                0 <= f < before.files@.len() && before.files@[f].group == g && before.alive(
                    f,
                ) implies others@.contains(f as usize) by {
                assert(members.contains(f as usize));
                let k = choose|k: int| 0 <= k < members.len() && members[k] == f as usize;
                members.lemma_filter_contains(pred, k);
            }
        }
        for i in 0..others.len()
            invariant
                self.wf(),
                self.same_presence(before),
                file < before.files@.len(),
                g == before.files@[file as int].group,
                forall|j: int|
                    0 <= j < others@.len() ==> {
                        &&& (#[trigger] others@[j]) < before.files@.len()
                        &&& before.files@[others@[j] as int].group == g
                        &&& before.alive(others@[j] as int)
                    },
                forall|f: int|
                    0 <= f < before.files@.len() ==> #[trigger] self.files@[f] == (if exists|j: int|
                        0 <= j < i && others@[j] == f {
                        before.kept_only(file as int, f)
                    } else {
                        before.files@[f]
                    }),
                self.dirty == (before.dirty || exists|j: int|
                    0 <= j < i && before.kept_only(file as int, #[trigger] others@[j] as int).marked
                        != before.files@[others@[j] as int].marked),
        {
            let ghost now = *self;
            let o = others[i];
            self.set_marked(o, o != file);
            proof {
                assert forall|f: int| 0 <= f < before.files@.len() implies #[trigger] self.files@[f]
                    == (if exists|j: int| 0 <= j < i + 1 && others@[j] == f {
                    before.kept_only(file as int, f)
                } else {
                    before.files@[f]
                }) by {
                    assert(now.files@[f] == (if exists|j: int| 0 <= j < i && others@[j] == f {
                        before.kept_only(file as int, f)
                    } else {
                        before.files@[f]
                    }));
                    if f == o {
                        assert(others@[i as int] == f);
                    }
                }
                assert(self.same_presence(before)) by {
                    assert forall|f: int| #![trigger self.files@[f]]
                        0 <= f < self.files@.len() implies self.files@[f].removed
                        == before.files@[f].removed && self.files@[f].excluded
                        == before.files@[f].excluded && self.files@[f].path == before.files@[f].path
                        && self.files@[f].group == before.files@[f].group && self.files@[f].node
                        == before.files@[f].node by {
                        assert(now.files@[f].removed == before.files@[f].removed);
                    }
                }
                assert(others@[i as int] == o);
                if now.files@[o as int].marked != before.files@[o as int].marked {
                    let j = choose|j: int| 0 <= j < i && others@[j] == o;
                    assert(others@[j] == o);
                }
            }
        }
        proof {
            assert forall|f: int| 0 <= f < before.files@.len() implies #[trigger] self.files@[f]
                == before.kept_only(file as int, f) by {
                if before.files@[f].group == g && before.alive(f) {
                    assert(others@.contains(f as usize));
                }
            }
            if exists|f: int| #![trigger before.files@[f]]
                0 <= f < before.files@.len() && before.kept_only(file as int, f).marked
                    != before.files@[f].marked {
                let f = choose|f: int| #![trigger before.files@[f]]
                    0 <= f < before.files@.len() && before.kept_only(file as int, f).marked
                        != before.files@[f].marked;
                assert(others@.contains(f as usize));
            }
        }
    }

    /// Whether an unmarked copy other than the file is present.
    pub open spec fn spare(self, file: int) -> bool {
        exists|o: int| #[trigger] self.other(file, o) && !self.files@[o].marked
    }

    /// Marks a file unless that would leave no unmarked copy. Says whether the
    /// file was marked.
    pub fn mark_keeping_one(&mut self, file: FileId) -> (marked: bool)
        requires
            old(self).wf(),
            file < old(self).files@.len(),
        ensures
            final(self).wf(),
            marked == (!old(self).files@[file as int].marked && !old(self).files@[file as int].removed
                && old(self).spare(file as int)),
            marked ==> final(self).dirty && final(self).only_file(
                *old(self),
                file as int,
                model::with_mark(old(self).files@[file as int], true),
            ),
            !marked ==> *final(self) == *old(self),
    {
        if self.files[file].marked || self.files[file].removed {
            return false;
        }
        let g = self.files[file].group;
        let members = &self.groups[g].files;
        let mut spare = false;
        for i in 0..members.len()
            invariant
                self.wf(),
                file < self.files@.len(),
                members == self.groups@[g as int].files,
                g == self.files@[file as int].group,
                g < self.groups@.len(),
                spare ==> self.spare(file as int),
                !spare ==> forall|j: int|
                    0 <= j < i && self.other(
                        file as int,
                        #[trigger] self.groups@[g as int].files@[j] as int,
                    ) ==> self.files@[self.groups@[g as int].files@[j] as int].marked,
        {
            let o = members[i];
            assert(self.groups@[g as int].files@[i as int] == o);
            if o != file && !self.files[o].removed && !self.files[o].excluded
                && !self.files[o].marked {
                assert(self.other(file as int, o as int));
                spare = true;
            }
        }
        proof {
            assert forall|o: int| #[trigger] self.other(file as int, o) implies exists|j: int|
                0 <= j < self.groups@[g as int].files@.len()
                    && #[trigger] self.groups@[g as int].files@[j] == o by {
                assert(self.groups@[self.files@[o].group as int].files@.contains(o as usize));
            }
        }
        if !spare {
            return false;
        }
        self.set_marked(file, true);
        true
    }

    /// What marking the folder `top` leaves in the place of a file.
    pub open spec fn subtree_marked(self, top: int, marked: bool, f: int) -> DupFile {
        if model::under(self.nodes@, self.files@[f].node as int, top) && self.visible(f) {
            model::with_mark(self.files@[f], marked)
        } else {
            self.files@[f]
        }
    }
}

/// A folder lies below no folder that stands after it.
pub proof fn lemma_under_order(nodes: Seq<model::Node>, n: int, top: int)
    requires
        model::under(nodes, n, top),
    ensures
        top <= n,
    decreases n,
{
    if n != top {
        lemma_under_order(nodes, nodes[n].parent->0 as int, top);
    }
}

/// Of two folders that hold a third one, the earlier holds the later.
pub proof fn lemma_under_chain(nodes: Seq<model::Node>, n: int, a: int, b: int)
    requires
        model::under(nodes, n, a),
        model::under(nodes, n, b),
        a <= b,
    ensures
        model::under(nodes, b, a),
    decreases n,
{
    if n == b {
    } else if n == a {
        lemma_under_order(nodes, n, b);
    } else {
        lemma_under_chain(nodes, nodes[n].parent->0 as int, a, b);
    }
}

/// Whether a set of folders, those done and those still to do, holds the
/// sub-folders of all that are done.
spec fn frontier(
    parents: Seq<Option<NodeId>>,
    top: int,
    done: Set<int>,
    todo: Seq<NodeId>,
) -> bool {
    &&& done.finite()
    &&& todo.no_duplicates()
    &&& done.contains(top) || todo.contains(top as usize)
    &&& forall|n: int| #[trigger] done.contains(n) ==> 0 <= n < parents.len()
    &&& forall|k: int|
        0 <= k < todo.len() ==> (#[trigger] todo[k]) < parents.len() && !done.contains(
            todo[k] as int,
        )
    &&& forall|n: int| #[trigger]
        done.contains(n) ==> n == top || (parents[n] is Some && done.contains(
            parents[n]->0 as int,
        ))
    &&& forall|k: int| #![trigger todo[k]]
        0 <= k < todo.len() ==> todo[k] == top || (parents[todo[k] as int] is Some
            && done.contains(parents[todo[k] as int]->0 as int))
    &&& forall|n: int| #![trigger parents[n]]
        0 <= n < parents.len() && parents[n] is Some && done.contains(parents[n]->0 as int)
            ==> done.contains(n) || todo.contains(n as usize)
}

/// Whether some folders are the sub-folders of a folder.
pub open spec fn are_children(parents: Seq<Option<NodeId>>, n: int, children: Seq<NodeId>) -> bool {
    &&& children.no_duplicates()
    &&& forall|i: int|
        0 <= i < children.len() ==> (#[trigger] children[i]) < parents.len() && children[i] > n
            && parents[children[i] as int] == Some(n as usize)
    &&& forall|m: int| #![trigger parents[m]]
        0 <= m < parents.len() && parents[m] == Some(n as usize) ==> children.contains(m as usize)
}

proof fn lemma_frontier_step(
    parents: Seq<Option<NodeId>>,
    top: int,
    done: Set<int>,
    todo: Seq<NodeId>,
    children: Seq<NodeId>,
)
    requires
        parents.len() <= usize::MAX,
        0 <= top < parents.len(),
        frontier(parents, top, done, todo),
        todo.len() > 0,
        top <= todo.last(),
        are_children(parents, todo.last() as int, children),
    ensures
        frontier(parents, top, done.insert(todo.last() as int), todo.drop_last() + children),
{
    let n = todo.last() as int;
    let next = done.insert(n);
    let start = todo.drop_last();
    let rest = start + children;
    assert(todo[todo.len() - 1] == n);
    assert forall|i: int| 0 <= i < children.len() implies !done.contains(
        #[trigger] children[i] as int,
    ) && !todo.contains(children[i]) by {
        let c = children[i] as int;
        assert(c > n >= top);
        if todo.contains(children[i]) {
            let k = choose|k: int| 0 <= k < todo.len() && todo[k] == children[i];
            assert(todo[k] == c);
        }
    }
    assert forall|i: int| 0 <= i < start.len() implies #[trigger] start[i] == todo[i]
        && todo.contains(start[i]) && start[i] != n by {
        assert(todo[i] != todo[todo.len() - 1]);
    }
    assert(rest.no_duplicates()) by {
        assert forall|i: int, j: int| 0 <= i < j < rest.len() implies rest[i] != rest[j] by {
            if j < start.len() {
                assert(rest[i] == start[i] && rest[j] == start[j]);
            } else if i < start.len() {
                assert(rest[i] == start[i] && rest[j] == children[j - start.len()]);
            } else {
                assert(rest[i] == children[i - start.len()] && rest[j] == children[j
                    - start.len()]);
            }
        }
    }
    assert forall|m: usize| start.contains(m) || children.contains(m) implies rest.contains(m) by {
        if start.contains(m) {
            let k = choose|k: int| 0 <= k < start.len() && start[k] == m;
            assert(rest[k] == m);
        } else {
            let k = choose|k: int| 0 <= k < children.len() && children[k] == m;
            assert(rest[k + start.len()] == m);
        }
    }
    assert forall|m: usize| todo.contains(m) implies m == n || start.contains(m) by {
        let k = choose|k: int| 0 <= k < todo.len() && todo[k] == m;
        if k < start.len() {
            assert(start[k] == m);
        }
    }
    assert forall|k: int| #![trigger rest[k]] 0 <= k < rest.len() implies rest[k] < parents.len()
        && !next.contains(rest[k] as int) && (rest[k] == top || (parents[rest[k] as int] is Some
        && next.contains(parents[rest[k] as int]->0 as int))) by {
        if k < start.len() {
            assert(rest[k] == start[k]);
        } else {
            assert(rest[k] == children[k - start.len()]);
        }
    }
    assert forall|m: int| #[trigger] next.contains(m) implies m == top || (parents[m] is Some
        && next.contains(parents[m]->0 as int)) by {
        if m != n {
            assert(done.contains(m));
        }
    }
    assert forall|m: int| #![trigger parents[m]]
        0 <= m < parents.len() && parents[m] is Some && next.contains(
            parents[m]->0 as int,
        ) implies next.contains(m) || rest.contains(m as usize) by {
        let p = parents[m]->0 as int;
        if p == n {
            assert(children.contains(m as usize));
        } else {
            assert(done.contains(m) || todo.contains(m as usize));
        }
    }
}

impl Model {
    /// The folder that holds each folder.
    pub open spec fn parents(self) -> Seq<Option<NodeId>> {
        self.nodes@.map_values(|n: model::Node| n.parent)
    }

    pub proof fn lemma_children(self, n: int)
        requires
            self.wf(),
            0 <= n < self.nodes@.len(),
        ensures
            are_children(self.parents(), n, self.nodes@[n].children.ids()),
    {
        reveal(model::tree_wf);
        let map = self.nodes@[n].children;
        let children = map.ids();
        let parents = self.parents();
        assert(self.nodes@.len() == self.nodes.len());
        assert forall|i: int| 0 <= i < children.len() implies (#[trigger] children[i])
            < parents.len() && children[i] > n && parents[children[i] as int] == Some(
            n as usize,
        ) && self.nodes@[children[i] as int].name@ == map@[i].0 by {
            assert(map@.contains(map@[i]));
            assert(self.nodes@[n].children@.contains(map@[i]));
            let c = map@[i].1;
            assert(self.nodes@[c as int].parent == Some(n as usize));
        }
        assert forall|i: int, j: int| 0 <= i < j < children.len() implies children[i]
            != children[j] by {
            if children[i] == children[j] {
                assert(map@[i].0 == map@[j].0);
                assert(crate::text::text_less(map@[i].0, map@[j].0));
                crate::text::lemma_text_less_irreflexive(map@[i].0);
            }
        }
        assert forall|m: int| #![trigger parents[m]]
            0 <= m < parents.len() && parents[m] == Some(n as usize) implies children.contains(
            m as usize,
        ) by {
            let e = (self.nodes@[m].name@, m as usize);
            assert(self.nodes@[m].parent == Some(n as usize));
            assert(self.nodes@[n].children@.contains(e));
            let i = choose|i: int| 0 <= i < map@.len() && map@[i] == e;
            assert(children[i] == m as usize);
        }
    }

    proof fn lemma_frontier_under(self, top: int, done: Set<int>, todo: Seq<NodeId>, n: int)
        requires
            self.wf(),
            frontier(self.parents(), top, done, todo),
            0 <= n < self.nodes@.len(),
            done.contains(n) || todo.contains(n as usize),
        ensures
            model::under(self.nodes@, n, top),
        decreases n,
    {
        reveal(model::tree_wf);
        assert(self.nodes@.len() == self.nodes.len());
        if n != top {
            if !done.contains(n) {
                let k = choose|k: int| 0 <= k < todo.len() && todo[k] == n as usize;
                assert(todo[k] == n);
            }
            assert(self.parents()[n] == self.nodes@[n].parent);
            let p = self.nodes@[n].parent->0 as int;
            assert(p < n);
            self.lemma_frontier_under(top, done, todo, p);
        }
    }

    proof fn lemma_frontier_all(self, top: int, done: Set<int>, n: int)
        requires
            self.wf(),
            frontier(self.parents(), top, done, Seq::empty()),
            0 <= n < self.nodes@.len(),
            model::under(self.nodes@, n, top),
        ensures
            done.contains(n),
        decreases n,
    {
        if n != top {
            let p = self.nodes@[n].parent->0 as int;
            self.lemma_frontier_all(top, done, p);
            assert(self.parents()[n] == self.nodes@[n].parent);
        }
    }

    /// Marks all files shown in a folder itself, or takes their marks away.
    fn mark_folder(&mut self, node: NodeId, marked: bool)
        requires
            old(self).wf(),
            node < old(self).nodes@.len(),
        ensures
            final(self).wf(),
            final(self).same_presence(*old(self)),
            forall|f: int|
                0 <= f < old(self).files@.len() ==> #[trigger] final(self).files@[f] == (if old(
                    self,
                ).files@[f].node == node && old(self).visible(f) {
                    model::with_mark(old(self).files@[f], marked)
                } else {
                    old(self).files@[f]
                }),
            final(self).dirty == (old(self).dirty || exists|f: int| #![trigger old(self).files@[f]]
                0 <= f < old(self).files@.len() && old(self).files@[f].node == node && old(
                    self,
                ).visible(f) && old(self).files@[f].marked != marked),
    {
        let ghost before = *self;
        let ghost own = before.nodes@[node as int].files@;
        let count: usize = self.nodes[node].files.len();
        proof {
            assert forall|i: int| 0 <= i < own.len() implies (#[trigger] own[i])
                < before.files@.len() && before.files@[own[i] as int].node == node by {
                assert(before.nodes@[node as int].files@[i] == own[i]);
            }
            assert forall|i: int, j: int| 0 <= i < j < own.len() implies own[i] < own[j] by {
                assert(before.nodes@[node as int].files@[i] < before.nodes@[node as int].files@[j]);
            }
        }
        for i in 0..count
            invariant
                self.wf(),
                self.same_presence(before),
                node < before.nodes@.len(),
                own == before.nodes@[node as int].files@,
                count == own.len(),
                forall|j: int|
                    0 <= j < own.len() ==> (#[trigger] own[j]) < before.files@.len()
                        && before.files@[own[j] as int].node == node,
                forall|j: int, k: int| 0 <= j < k < own.len() ==> own[j] < own[k],
                forall|f: int|
                    0 <= f < before.files@.len() ==> #[trigger] self.files@[f] == (if own.take(
                        i as int,
                    ).contains(f as usize) && before.visible(f) {
                        model::with_mark(before.files@[f], marked)
                    } else {
                        before.files@[f]
                    }),
                self.dirty == (before.dirty || exists|j: int|
                    0 <= j < i && before.visible(#[trigger] own[j] as int)
                        && before.files@[own[j] as int].marked != marked),
        {
            let ghost now = *self;
            let f: FileId = self.nodes[node].files[i];
            assert(own[i as int] == f);
            proof {
                now.lemma_visible_kept(before);
                assert(before.files@.len() == before.files.len());
                if own.take(i as int).contains(f) {
                    let j = choose|j: int| 0 <= j < i && own.take(i as int)[j] == f;
                    assert(own[j] < own[i as int]);
                }
                assert(now.files@[f as int] == before.files@[f as int]);
                assert(now.visible(f as int) == before.visible(f as int));
            }
            if self.is_visible(f) {
                self.set_marked(f, marked);
            }
            proof {
                assert forall|m: int| 0 <= m < before.files@.len() implies #[trigger] self.files@[m]
                    == (if own.take(i as int + 1).contains(m as usize) && before.visible(m) {
                    model::with_mark(before.files@[m], marked)
                } else {
                    before.files@[m]
                }) by {
                    assert(own.take(i as int + 1) =~= own.take(i as int).push(f));
                    if own.take(i as int).contains(m as usize) {
                        let j = choose|j: int| 0 <= j < i && own.take(i as int)[j] == m as usize;
                        assert(own.take(i as int + 1)[j] == m as usize);
                    }
                    if own.take(i as int + 1).contains(m as usize) && m != f {
                        let longer = own.take(i as int + 1);
                        let j = choose|j: int| 0 <= j < longer.len() && longer[j] == m as usize;
                        assert(own.take(i as int)[j] == m as usize);
                    }
                    if m == f {
                        assert(own.take(i as int + 1)[i as int] == f);
                    }
                    assert(now.files@[m] == (if own.take(i as int).contains(m as usize)
                        && before.visible(m) {
                        model::with_mark(before.files@[m], marked)
                    } else {
                        before.files@[m]
                    }));
                }
                assert forall|m: int| #![trigger self.files@[m]]
                    0 <= m < self.files@.len() implies self.files@[m].removed
                    == before.files@[m].removed && self.files@[m].excluded
                    == before.files@[m].excluded && self.files@[m].path == before.files@[m].path
                    && self.files@[m].group == before.files@[m].group && self.files@[m].node
                    == before.files@[m].node by {
                    assert(now.files@[m].removed == before.files@[m].removed);
                }
            }
        }
        proof {
            assert(own.take(count as int) =~= own);
            assert(before.files@.len() == before.files.len());
            assert forall|f: int| #![trigger before.files@[f]]
                0 <= f < before.files@.len() implies (own.contains(f as usize)
                <==> before.files@[f].node == node) by {
                if own.contains(f as usize) {
                    let j = choose|j: int| 0 <= j < own.len() && own[j] == f as usize;
                    assert(before.files@[own[j] as int].node == node);
                }
            }
            if exists|f: int| #![trigger before.files@[f]]
                0 <= f < before.files@.len() && before.files@[f].node == node && before.visible(f)
                    && before.files@[f].marked != marked {
                let f = choose|f: int| #![trigger before.files@[f]]
                    0 <= f < before.files@.len() && before.files@[f].node == node && before.visible(
                        f,
                    ) && before.files@[f].marked != marked;
                assert(own.contains(f as usize));
                let j = choose|j: int| 0 <= j < own.len() && own[j] == f as usize;
                assert(before.visible(own[j] as int));
            }
        }
    }

    /// Marks all files shown in a folder and below it, or takes their marks away.
    pub fn set_marked_subtree(&mut self, node: NodeId, marked: bool)
        requires
            old(self).wf(),
            node < old(self).nodes@.len(),
        ensures
            final(self).wf(),
            final(self).same_presence(*old(self)),
            forall|f: int|
                0 <= f < old(self).files@.len() ==> #[trigger] final(self).files@[f] == old(
                    self,
                ).subtree_marked(node as int, marked, f),
            final(self).dirty == (old(self).dirty || exists|f: int| #![trigger old(self).files@[f]]
                0 <= f < old(self).files@.len() && old(self).subtree_marked(
                    node as int,
                    marked,
                    f,
                ).marked != old(self).files@[f].marked),
    {
        let ghost before = *self;
        let ghost mut done = Set::<int>::empty();
        let mut todo: Vec<NodeId> = Vec::new();
        todo.push(node);
        proof {
            assert(todo@[0] == node);
            assert(todo@.contains(node));
        }
        while todo.len() > 0
            invariant
                before.wf(),
                self.wf(),
                node < before.nodes@.len(),
                self.same_presence(before),
                frontier(before.parents(), node as int, done, todo@),
                forall|f: int|
                    0 <= f < before.files@.len() ==> #[trigger] self.files@[f] == (if done.contains(
                        before.files@[f].node as int,
                    ) && before.visible(f) {
                        model::with_mark(before.files@[f], marked)
                    } else {
                        before.files@[f]
                    }),
                self.dirty == (before.dirty || exists|f: int| #![trigger before.files@[f]]
                    0 <= f < before.files@.len() && done.contains(before.files@[f].node as int)
                        && before.visible(f) && before.files@[f].marked != marked),
            decreases before.nodes@.len() - done.len(),
        {
            let ghost list = todo@;
            let ghost earlier = done;
            let ghost start = *self;
            let n: NodeId = todo.pop().unwrap();
            assert(list[list.len() - 1] == n);
            let mut children = self.nodes[n].children.values();
            let ghost below = children@;
            todo.append(&mut children);
            proof {
                assert(todo@ =~= list.drop_last() + below);
                assert(before.nodes@.len() == before.nodes.len());
                assert(list.contains(n));
                before.lemma_children(n as int);
                before.lemma_frontier_under(node as int, earlier, list, n as int);
                lemma_under_order(before.nodes@, n as int, node as int);
                lemma_frontier_step(before.parents(), node as int, earlier, list, below);
                done = earlier.insert(n as int);
                assert(!earlier.contains(n as int));
                let all = vstd::set_lib::set_int_range(0, before.nodes@.len() as int);
                vstd::set_lib::lemma_int_range(0, before.nodes@.len() as int);
                assert(done.subset_of(all));
                vstd::set_lib::lemma_len_subset(done, all);
            }
            self.mark_folder(n, marked);
            proof {
                start.lemma_visible_kept(before);
                assert forall|f: int| 0 <= f < before.files@.len() implies #[trigger] self.files@[f]
                    == (if done.contains(before.files@[f].node as int) && before.visible(f) {
                    model::with_mark(before.files@[f], marked)
                } else {
                    before.files@[f]
                }) by {
                    assert(start.files@[f].node == before.files@[f].node);
                    assert(start.visible(f) == before.visible(f));
                }
                assert forall|f: int| #![trigger self.files@[f]]
                    0 <= f < self.files@.len() implies self.files@[f].removed
                    == before.files@[f].removed && self.files@[f].excluded
                    == before.files@[f].excluded && self.files@[f].path == before.files@[f].path
                    && self.files@[f].group == before.files@[f].group && self.files@[f].node
                    == before.files@[f].node by {
                    assert(start.files@[f].removed == before.files@[f].removed);
                }
                if exists|f: int| #![trigger before.files@[f]]
                    0 <= f < before.files@.len() && done.contains(before.files@[f].node as int)
                        && before.visible(f) && before.files@[f].marked != marked {
                    let f = choose|f: int| #![trigger before.files@[f]]
                        0 <= f < before.files@.len() && done.contains(before.files@[f].node as int)
                            && before.visible(f) && before.files@[f].marked != marked;
                    assert(start.visible(f) == before.visible(f));
                    if !earlier.contains(before.files@[f].node as int) {
                        assert(start.files@[f] == before.files@[f]);
                    }
                }
                if self.dirty && !start.dirty {
                    let f = choose|f: int| #![trigger start.files@[f]]
                        0 <= f < start.files@.len() && start.files@[f].node == n && start.visible(f)
                            && start.files@[f].marked != marked;
                    assert(start.visible(f) == before.visible(f));
                    assert(before.files@[f].marked != marked);
                }
            }
        }
        proof {
            assert(todo@ =~= Seq::<NodeId>::empty());
            assert forall|f: int| 0 <= f < before.files@.len() implies done.contains(
                #[trigger] before.files@[f].node as int,
            ) == model::under(before.nodes@, before.files@[f].node as int, node as int) by {
                let n = before.files@[f].node as int;
                if done.contains(n) {
                    before.lemma_frontier_under(node as int, done, todo@, n);
                }
                if model::under(before.nodes@, n, node as int) {
                    before.lemma_frontier_all(node as int, done, n);
                }
            }
        }
    }
}

} // verus!
