//! Hiding the results that are left out of the search.
use vstd::prelude::*;

use crate::model::{self, DupFile, FileId, Model, NodeId};
use crate::paths;
use crate::rules::Exclusions;

verus! {

impl Model {
    /// Whether a folder is hidden, itself or by one that holds it.
    pub open spec fn hidden_node(self, excl: Exclusions, n: int) -> bool {
        exists|m: int|
            0 <= m < self.nodes@.len() && #[trigger] model::under(self.nodes@, n, m)
                && excl.hides_dir(paths::joined(self.parts(m)))
    }

    /// Whether a file is hidden, itself or by its folder.
    pub open spec fn hidden(self, excl: Exclusions, f: int) -> bool {
        excl.hides_file(self.files@[f].path@) || self.hidden_node(excl, self.files@[f].node as int)
    }

    /// A folder is hidden where it matches or the one that holds it is hidden.
    proof fn lemma_hidden_node(self, excl: Exclusions, n: int)
        requires
            self.wf(),
            0 <= n < self.nodes@.len(),
        ensures
            self.hidden_node(excl, n) == (excl.hides_dir(paths::joined(self.parts(n))) || (
            self.nodes@[n].parent is Some && self.hidden_node(
                excl,
                self.nodes@[n].parent->0 as int,
            ))),
            self.nodes@[n].parent matches Some(p) ==> p < n,
    {
        reveal(model::tree_wf);
        let nodes = self.nodes@;
        assert(nodes[n].parent matches Some(p) ==> p < n);
        assert(model::under(nodes, n, n));
        if self.hidden_node(excl, n) {
            let m = choose|m: int|
                0 <= m < nodes.len() && #[trigger] model::under(nodes, n, m) && excl.hides_dir(
                    paths::joined(self.parts(m)),
                );
            if m != n {
                assert(model::under(nodes, nodes[n].parent->0 as int, m));
            }
        }
        if nodes[n].parent is Some && self.hidden_node(excl, nodes[n].parent->0 as int) {
            let p = nodes[n].parent->0 as int;
            let m = choose|m: int|
                0 <= m < nodes.len() && #[trigger] model::under(nodes, p, m) && excl.hides_dir(
                    paths::joined(self.parts(m)),
                );
            assert(model::under(nodes, n, m));
        }
    }

    /// For each folder, whether it is hidden, itself or by one that holds it.
    pub fn excluded_nodes(&self, excl: &Exclusions) -> (result: Vec<bool>)
        requires
            self.wf(),
        ensures
            result@ == Seq::new(self.nodes@.len(), |n: int| self.hidden_node(*excl, n)),
    {
        let mut result: Vec<bool> = Vec::new();
        for n in 0..self.nodes.len()
            invariant
                self.wf(),
                result@.len() == n,
                forall|m: int| 0 <= m < n ==> #[trigger] result@[m] == self.hidden_node(*excl, m),
        {
            proof {
                self.lemma_hidden_node(*excl, n as int);
            }
            let by_parent = match self.nodes[n].parent {
                Some(p) => result[p],
                None => false,
            };
            let path = self.node_path(n);
            let hidden = by_parent || excl.excludes_dir(path.as_str());
            result.push(hidden);
        }
        result
    }

    /// Whether a file is hidden, itself or by its folder.
    fn is_hidden(&self, excl: &Exclusions, file: FileId) -> (result: bool)
        requires
            self.wf(),
            file < self.files@.len(),
        ensures
            result == self.hidden(*excl, file as int),
    {
        let mut excluded = excl.excludes_file(self.files[file].path.as_str());
        let mut current: Option<NodeId> = Some(self.files[file].node);
        while !excluded && current.is_some()
            invariant
                self.wf(),
                file < self.files@.len(),
                current matches Some(n) ==> n < self.nodes@.len(),
                self.hidden(*excl, file as int) == (excluded || (current is Some
                    && self.hidden_node(*excl, current->0 as int))),
            decreases
                (match current {
                    Some(n) => n + 1,
                    None => 0,
                }),
        {
            let n: NodeId = current.unwrap();
            proof {
                self.lemma_hidden_node(*excl, n as int);
            }
            let path = self.node_path(n);
            excluded = excl.excludes_dir(path.as_str());
            current = self.nodes[n].parent;
        }
        excluded
    }

    /// What the exclusions leave in the place of a file: one that is newly hidden
    /// loses its mark.
    pub open spec fn with_exclusions(self, excl: Exclusions, f: int) -> DupFile {
        let file = self.files@[f];
        let excluded = self.hidden(excl, f);
        DupFile {
            excluded,
            marked: if excluded && !file.excluded {
                false
            } else {
                file.marked
            },
            ..file
        }
    }

    proof fn lemma_hidden_kept(self, before: Model, excl: Exclusions, f: int)
        requires
            before.wf(),
            self.same_but_files(before),
            0 <= f < self.files@.len(),
        ensures
            self.hidden(excl, f) == before.hidden(excl, f),
    {
        assert(self.files@[f].path == before.files@[f].path);
        assert(self.files@[f].node == before.files@[f].node);
    }

    /// Hides the files that the exclusions cover, and shows those again that
    /// they no longer cover.
    pub fn apply_exclusions(&mut self, excl: &Exclusions)
        requires
            old(self).wf(),
        ensures
            final(self).wf(),
            final(self).same_but_files(*old(self)),
            forall|f: int| #![trigger final(self).files@[f]]
                0 <= f < final(self).files@.len() ==> final(self).files@[f]
                    == old(self).with_exclusions(*excl, f),
            final(self).dirty == (old(self).dirty || exists|f: int| #![trigger old(self).files@[f]]
                0 <= f < old(self).files@.len() && old(self).files@[f].excluded
                    != old(self).hidden(*excl, f)),
    {
        let ghost before = *self;
        let nodes = self.excluded_nodes(excl);
        let count = self.files.len();
        for f in 0..count
            invariant
                before.wf(),
                self.wf(),
                self.same_but_files(before),
                count == self.files@.len(),
                nodes@ == Seq::new(before.nodes@.len(), |n: int| before.hidden_node(*excl, n)),
                forall|o: int| #![trigger self.files@[o]]
                    0 <= o < f ==> self.files@[o] == before.with_exclusions(*excl, o),
                forall|o: int| #![trigger self.files@[o]]
                    f <= o < count ==> self.files@[o] == before.files@[o],
                self.dirty == (before.dirty || exists|o: int| #![trigger before.files@[o]]
                    0 <= o < f && before.files@[o].excluded != before.hidden(*excl, o)),
        {
            let ghost now = *self;
            assert(now.files@[f as int] == before.files@[f as int]);
            assert(before.files@[f as int].node < before.nodes@.len());
            let excluded = nodes[self.files[f].node] || excl.excludes_file(
                self.files[f].path.as_str(),
            );
            assert(excluded == before.hidden(*excl, f as int));
            if self.files[f].excluded != excluded {
                self.files[f].excluded = excluded;
                if excluded {
                    self.files[f].marked = false;
                }
                self.dirty = true;
                assert(before.files@[f as int].excluded != before.hidden(*excl, f as int));
            }
            proof {
                assert(self.files@ =~= now.files@.update(
                    f as int,
                    before.with_exclusions(*excl, f as int),
                ));
                self.lemma_wf_kept(before);
                if self.dirty && !now.dirty {
                    assert(before.files@[f as int].excluded != before.hidden(*excl, f as int));
                }
            }
        }
    }

    /// Hides, among some files, those that the exclusions cover.
    pub fn apply_exclusions_to(&mut self, excl: &Exclusions, files: &[FileId])
        requires
            old(self).wf(),
            forall|i: int| 0 <= i < files@.len() ==> (#[trigger] files@[i]) < old(self).files@.len(),
        ensures
            final(self).wf(),
            final(self).same_but_files(*old(self)),
            forall|f: int| #![trigger final(self).files@[f]]
                0 <= f < final(self).files@.len() ==> final(self).files@[f] == (if files@.contains(
                    f as usize,
                ) && old(self).hidden(*excl, f) {
                    DupFile { excluded: true, marked: false, ..old(self).files@[f] }
                } else {
                    old(self).files@[f]
                }),
            final(self).dirty == (old(self).dirty || exists|i: int| #![trigger files@[i]]
                0 <= i < files@.len() && old(self).hidden(*excl, files@[i] as int)),
    {
        let ghost before = *self;
        for i in 0..files.len()
            invariant
                before.wf(),
                self.wf(),
                self.same_but_files(before),
                forall|j: int| 0 <= j < files@.len() ==> (#[trigger] files@[j]) < before.files@.len(),
                forall|f: int| #![trigger self.files@[f]]
                    0 <= f < self.files@.len() ==> self.files@[f] == (if files@.take(
                        i as int,
                    ).contains(f as usize) && before.hidden(*excl, f) {
                        DupFile { excluded: true, marked: false, ..before.files@[f] }
                    } else {
                        before.files@[f]
                    }),
                self.dirty == (before.dirty || exists|j: int| #![trigger files@[j]]
                    0 <= j < i && before.hidden(*excl, files@[j] as int)),
        {
            let f = files[i];
            let ghost now = *self;
            assert(files@[i as int] < before.files@.len());
            let hidden = self.is_hidden(excl, f);
            proof {
                self.lemma_hidden_kept(before, *excl, f as int);
            }
            if hidden {
                self.files[f].excluded = true;
                self.files[f].marked = false;
                self.dirty = true;
                assert(before.hidden(*excl, files@[i as int] as int));
                proof {
                    assert(self.files@ =~= now.files@.update(
                        f as int,
                        (DupFile { excluded: true, marked: false, ..now.files@[f as int] }),
                    ));
                    self.lemma_wf_kept(before);
                }
            }
            proof {
                let shorter = files@.take(i as int);
                let longer = files@.take(i + 1);
                assert(longer =~= shorter.push(f));
                assert forall|o: int| #![trigger self.files@[o]]
                    0 <= o < self.files@.len() implies self.files@[o] == (if longer.contains(
                    o as usize,
                ) && before.hidden(*excl, o) {
                    DupFile { excluded: true, marked: false, ..before.files@[o] }
                } else {
                    before.files@[o]
                }) by {
                    assert(longer[i as int] == f);
                    if shorter.contains(o as usize) {
                        let j = shorter.index_of(o as usize);
                        assert(longer[j] == o as usize);
                    }
                    if longer.contains(o as usize) && o != f {
                        let j = longer.index_of(o as usize);
                        assert(shorter[j] == o as usize);
                    }
                    assert(now.files@[o] == (if shorter.contains(o as usize) && before.hidden(
                        *excl,
                        o,
                    ) {
                        DupFile { excluded: true, marked: false, ..before.files@[o] }
                    } else {
                        before.files@[o]
                    }));
                }
                if self.dirty && !now.dirty {
                    assert(before.hidden(*excl, files@[i as int] as int));
                }
            }
        }
        assert(files@.take(files@.len() as int) =~= files@);
    }

    /// The files that exclusions are said to hide while they are being typed are
    /// those among the files shown that they hide when they are applied.
    pub proof fn lemma_hideable_is_hidden(self, excl: Exclusions, f: int)
        ensures
            self.hideable(excl)(f) == (self.visible(f) && self.with_exclusions(excl, f).excluded),
    {
    }

    /// Taking all exclusions away shows again every file that is still there.
    pub proof fn lemma_nothing_hidden(self, excl: Exclusions, f: int)
        requires
            excl@.len() == 0,
        ensures
            !self.with_exclusions(excl, f).excluded,
            self.with_exclusions(excl, f).marked == self.files@[f].marked,
    {
        assert forall|path: Seq<char>| !excl.hides_file(path) && !excl.hides_dir(path) by {}
    }
}

} // verus!
