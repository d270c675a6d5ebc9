//! Counts are right unless they are known to be out of date: each operation keeps
//! that, so that counting anew always leaves them right.
use vstd::prelude::*;

use crate::counting;
use crate::model::{self, FileId, Model};
use crate::rules::{Exclusions, Rule};
use crate::runs;

verus! {

impl Model {
    /// Results without any file are counted right.
    pub proof fn lemma_new_is_fresh(self)
        requires
            self.is_new(),
        ensures
            self.fresh(),
    {
        assert(self.tally(0, None) == model::Tally::zero());
    }

    /// Marking a file keeps that counts are right unless known to be out of date.
    pub proof fn lemma_set_marked_fresh(self, before: Model, file: int, marked: bool)
        requires
            before.wf(),
            before.fresh(),
            0 <= file < before.files@.len(),
            self.only_file(before, file, model::with_mark(before.files@[file], marked)),
            self.dirty == (before.dirty || before.files@[file].marked != marked),
        ensures
            self.fresh(),
    {
        if !self.dirty {
            assert forall|f: int| #![trigger self.files@[f]] 0 <= f < self.files@.len() implies {
                &&& self.files@[f].removed == before.files@[f].removed
                &&& self.files@[f].excluded == before.files@[f].excluded
                &&& self.files@[f].marked == before.files@[f].marked
            } by {}
        }
        self.lemma_fresh_kept(before);
    }

    /// Keeping one copy alone keeps that counts are right unless known to be out
    /// of date.
    pub proof fn lemma_keep_only_fresh(self, before: Model, file: int)
        requires
            before.wf(),
            before.fresh(),
            0 <= file < before.files@.len(),
            self.same_presence(before),
            forall|f: int|
                0 <= f < before.files@.len() ==> #[trigger] self.files@[f] == before.kept_only(
                    file,
                    f,
                ),
            self.dirty == (before.dirty || exists|f: int| #![trigger before.files@[f]]
                0 <= f < before.files@.len() && before.kept_only(file, f).marked
                    != before.files@[f].marked),
        ensures
            self.fresh(),
    {
        if !self.dirty {
            assert forall|f: int| #![trigger self.files@[f]]
                0 <= f < self.files@.len() implies self.files@[f].marked
                == before.files@[f].marked by {
                assert(before.files@[f] == before.files@[f]);
            }
        }
        self.lemma_fresh_kept(before);
    }

    /// Marking a folder keeps that counts are right unless known to be out of
    /// date.
    pub proof fn lemma_subtree_fresh(self, before: Model, node: int, marked: bool)
        requires
            before.wf(),
            before.fresh(),
            self.same_presence(before),
            forall|f: int|
                0 <= f < before.files@.len() ==> #[trigger] self.files@[f]
                    == before.subtree_marked(node, marked, f),
            self.dirty == (before.dirty || exists|f: int| #![trigger before.files@[f]]
                0 <= f < before.files@.len() && before.subtree_marked(node, marked, f).marked
                    != before.files@[f].marked),
        ensures
            self.fresh(),
    {
        if !self.dirty {
            assert forall|f: int| #![trigger self.files@[f]]
                0 <= f < self.files@.len() implies self.files@[f].marked
                == before.files@[f].marked by {
                assert(before.files@[f] == before.files@[f]);
            }
        }
        self.lemma_fresh_kept(before);
    }

    /// Hiding and showing files keeps that counts are right unless known to be
    /// out of date.
    pub proof fn lemma_exclusions_fresh(self, before: Model, excl: Exclusions)
        requires
            before.wf(),
            before.fresh(),
            self.same_but_files(before),
            forall|f: int| #![trigger self.files@[f]]
                0 <= f < self.files@.len() ==> self.files@[f] == before.with_exclusions(excl, f),
            self.dirty == (before.dirty || exists|f: int| #![trigger before.files@[f]]
                0 <= f < before.files@.len() && before.files@[f].excluded != before.hidden(
                    excl,
                    f,
                )),
        ensures
            self.fresh(),
    {
        if !self.dirty {
            assert forall|f: int| #![trigger self.files@[f]] 0 <= f < self.files@.len() implies {
                &&& self.files@[f].removed == before.files@[f].removed
                &&& self.files@[f].excluded == before.files@[f].excluded
                &&& self.files@[f].marked == before.files@[f].marked
            } by {
                assert(before.files@[f].excluded == before.hidden(excl, f));
            }
        }
        self.lemma_fresh_kept(before);
    }

    /// A run of a rule keeps that counts are right unless known to be out of
    /// date.
    pub proof fn lemma_run_fresh(self, before: Model, hits: Seq<bool>, ids: Seq<FileId>, note: bool)
        requires
            before.wf(),
            before.fresh(),
            runs::are_files(before.files@, ids),
            self.same_but_files(before),
            self.files@ == runs::run(before.files@, hits, ids, note),
            self.dirty || (!before.dirty && forall|f: int| #![trigger self.files@[f]]
                0 <= f < self.files@.len() ==> self.files@[f].marked == before.files@[f].marked),
        ensures
            self.fresh(),
    {
        runs::lemma_run_frame(before.files@, hits, ids, note);
        self.lemma_fresh_kept(before);
    }

    /// Where a run marks nothing, no mark differs.
    pub proof fn lemma_run_without_marks(self, hits: Seq<bool>, ids: Seq<FileId>, f: int)
        requires
            runs::are_files(self.files@, ids),
            runs::marks_made(self.files@, hits, ids) == 0,
            0 <= f < self.files@.len(),
        ensures
            runs::run(self.files@, hits, ids, false)[f] == self.files@[f],
        decreases ids.len(),
    {
        if ids.len() > 0 {
            let rest = ids.drop_last();
            assert forall|i: int| 0 <= i < rest.len() implies (#[trigger] rest[i])
                < self.files@.len() by {
                assert(rest[i] == ids[i]);
            }
            self.lemma_run_without_marks(hits, rest, f);
        }
    }

    /// Taking marks away keeps that counts are right unless known to be out of
    /// date.
    pub proof fn lemma_unapply_fresh(self, before: Model, rule: Rule)
        requires
            before.wf(),
            before.fresh(),
            self.same_but_files(before),
            forall|f: int| #![trigger self.files@[f]]
                0 <= f < self.files@.len() ==> self.files@[f] == (if before.files@[f].marked
                    && rule.covers(before.files@[f].path@) {
                    model::with_mark(before.files@[f], false)
                } else {
                    before.files@[f]
                }),
            self.dirty == (before.dirty || counting::count(
                before.files@.len(),
                |f: int| before.files@[f].marked && rule.covers(before.files@[f].path@),
            ) > 0),
        ensures
            self.fresh(),
    {
        let hit = |f: int| before.files@[f].marked && rule.covers(before.files@[f].path@);
        if !self.dirty {
            assert forall|f: int| #![trigger self.files@[f]] 0 <= f < self.files@.len() implies {
                &&& self.files@[f].removed == before.files@[f].removed
                &&& self.files@[f].excluded == before.files@[f].excluded
                &&& self.files@[f].marked == before.files@[f].marked
            } by {
                if hit(f) {
                    counting::lemma_count_some(before.files@.len(), hit, f);
                }
            }
        }
        self.lemma_fresh_kept(before);
    }
}

} // verus!
