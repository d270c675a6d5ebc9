//! What a run of a rule over some files does to their marks.
use vstd::prelude::*;

use crate::model::{self, DupFile, FileId, Model};

verus! {

/// Whether a file is present.
pub open spec fn present(files: Seq<DupFile>, f: int) -> bool {
    !files[f].removed && !files[f].excluded
}

/// Whether a file is another copy, present, of the content of the first.
pub open spec fn copy_of(files: Seq<DupFile>, f: int, o: int) -> bool {
    &&& 0 <= o < files.len()
    &&& o != f
    &&& files[o].group == files[f].group
    &&& present(files, o)
}

/// Whether a file is shown: it is present, and so is another copy.
pub open spec fn shown(files: Seq<DupFile>, f: int) -> bool {
    present(files, f) && exists|o: int| copy_of(files, f, o)
}

/// Whether an unmarked copy other than the file is present.
pub open spec fn spared(files: Seq<DupFile>, f: int) -> bool {
    exists|o: int| #[trigger] copy_of(files, f, o) && !files[o].marked
}

/// What a run does where it reaches a file. A file that matches is marked if an
/// unmarked copy is left; if not, that can be noted.
pub open spec fn step(files: Seq<DupFile>, hits: Seq<bool>, f: int, note: bool) -> Seq<DupFile> {
    if !wanted(files, hits, f) {
        files
    } else if spared(files, f) {
        files.update(f, model::with_mark(files[f], true))
    } else if note {
        files.update(f, DupFile { rule_pending: true, ..files[f] })
    } else {
        files
    }
}

/// Whether a file is shown, unmarked, and matches.
pub open spec fn wanted(files: Seq<DupFile>, hits: Seq<bool>, f: int) -> bool {
    shown(files, f) && !files[f].marked && hits[f]
}

/// What a run over some files leaves.
pub open spec fn run(
    files: Seq<DupFile>,
    hits: Seq<bool>,
    ids: Seq<FileId>,
    note: bool,
) -> Seq<DupFile>
    decreases ids.len(),
{
    if ids.len() == 0 {
        files
    } else {
        step(run(files, hits, ids.drop_last(), note), hits, ids.last() as int, note)
    }
}

/// How many files a run marks.
pub open spec fn marks_made(files: Seq<DupFile>, hits: Seq<bool>, ids: Seq<FileId>) -> nat
    decreases ids.len(),
{
    if ids.len() == 0 {
        0
    } else {
        let before = run(files, hits, ids.drop_last(), false);
        let f = ids.last() as int;
        marks_made(files, hits, ids.drop_last()) + if wanted(before, hits, f) && spared(
            before,
            f,
        ) {
            1nat
        } else {
            0nat
        }
    }
}

/// How many matching files a run leaves so that a copy remains.
pub open spec fn marks_withheld(files: Seq<DupFile>, hits: Seq<bool>, ids: Seq<FileId>) -> nat
    decreases ids.len(),
{
    if ids.len() == 0 {
        0
    } else {
        let before = run(files, hits, ids.drop_last(), false);
        let f = ids.last() as int;
        marks_withheld(files, hits, ids.drop_last()) + if wanted(before, hits, f) && !spared(
            before,
            f,
        ) {
            1nat
        } else {
            0nat
        }
    }
}

/// Whether some numbers are those of files.
pub open spec fn are_files(files: Seq<DupFile>, ids: Seq<FileId>) -> bool {
    forall|i: int| 0 <= i < ids.len() ==> (#[trigger] ids[i]) < files.len()
}

/// Whether nothing but marks differs, and no mark is gone.
pub open spec fn marked_more(before: Seq<DupFile>, after: Seq<DupFile>) -> bool {
    &&& before.len() == after.len()
    &&& forall|f: int| #![trigger after[f]]
        0 <= f < after.len() ==> {
            &&& after[f].path == before[f].path
            &&& after[f].group == before[f].group
            &&& after[f].node == before[f].node
            &&& after[f].removed == before[f].removed
            &&& after[f].excluded == before[f].excluded
            &&& before[f].marked ==> after[f] == before[f]
        }
}

pub proof fn lemma_presence_kept(before: Seq<DupFile>, after: Seq<DupFile>, f: int)
    requires
        marked_more(before, after),
        0 <= f < before.len(),
    ensures
        shown(after, f) == shown(before, f),
        forall|o: int| copy_of(after, f, o) == #[trigger] copy_of(before, f, o),
{
    assert forall|o: int| copy_of(after, f, o) == #[trigger] copy_of(before, f, o) by {
        if 0 <= o < before.len() {
            assert(after[o].group == before[o].group);
            assert(after[f].group == before[f].group);
        }
    }
    if shown(before, f) {
        let o = choose|o: int| copy_of(before, f, o);
        assert(copy_of(before, f, o));
        assert(copy_of(after, f, o));
    }
    if shown(after, f) {
        let o = choose|o: int| copy_of(after, f, o);
        assert(copy_of(before, f, o));
    }
}

/// A run changes nothing but marks, and takes none away. A file that does not
/// match stays as it is.
pub proof fn lemma_run_frame(files: Seq<DupFile>, hits: Seq<bool>, ids: Seq<FileId>, note: bool)
    requires
        are_files(files, ids),
    ensures
        marked_more(files, run(files, hits, ids, note)),
        forall|f: int| #![trigger run(files, hits, ids, note)[f]]
            0 <= f < files.len() && !hits[f] ==> run(files, hits, ids, note)[f] == files[f],
    decreases ids.len(),
{
    if ids.len() > 0 {
        let rest = ids.drop_last();
        assert forall|i: int| 0 <= i < rest.len() implies (#[trigger] rest[i]) < files.len() by {
            assert(rest[i] == ids[i]);
        }
        lemma_run_frame(files, hits, rest, note);
        assert(ids.last() == ids[ids.len() - 1]);
    }
}

/// A rule never marks the last unmarked copy of a group: where a group has an
/// unmarked copy that is present, it still has one after any run.
pub proof fn lemma_run_keeps_one(
    files: Seq<DupFile>,
    hits: Seq<bool>,
    ids: Seq<FileId>,
    note: bool,
    u: int,
) -> (k: int)
    requires
        are_files(files, ids),
        0 <= u < files.len(),
        present(files, u),
        !files[u].marked,
    ensures
        0 <= k < files.len(),
        files[k].group == files[u].group,
        present(run(files, hits, ids, note), k),
        !run(files, hits, ids, note)[k].marked,
    decreases ids.len(),
{
    lemma_run_frame(files, hits, ids, note);
    if ids.len() == 0 {
        u
    } else {
        let rest = ids.drop_last();
        assert forall|i: int| 0 <= i < rest.len() implies (#[trigger] rest[i]) < files.len() by {
            assert(rest[i] == ids[i]);
        }
        let k = lemma_run_keeps_one(files, hits, rest, note, u);
        let before = run(files, hits, rest, note);
        let after = run(files, hits, ids, note);
        let f = ids.last() as int;
        assert(ids.last() == ids[ids.len() - 1]);
        lemma_run_frame(files, hits, rest, note);
        if f == k && wanted(before, hits, f) && spared(before, f) {
            let o = choose|o: int| #[trigger] copy_of(before, f, o) && !before[o].marked;
            assert(after[o] == before[o]);
            assert(before[o].group == before[f].group);
            assert(before[o].group == files[o].group);
            assert(before[k].group == files[k].group);
            o
        } else {
            assert(after[k].marked == before[k].marked);
            k
        }
    }
}

impl Model {
    pub proof fn lemma_as_files(self, f: int)
        ensures
            self.visible(f) == shown(self.files@, f),
            self.spare(f) == spared(self.files@, f),
    {
        assert forall|o: int| #[trigger] self.other(f, o) == copy_of(self.files@, f, o) by {}
        if self.visible(f) {
            let o = choose|o: int| self.other(f, o);
            assert(copy_of(self.files@, f, o));
        }
        if shown(self.files@, f) {
            let o = choose|o: int| copy_of(self.files@, f, o);
            assert(self.other(f, o));
        }
        if self.spare(f) {
            let o = choose|o: int| #[trigger] self.other(f, o) && !self.files@[o].marked;
            assert(copy_of(self.files@, f, o));
        }
        if spared(self.files@, f) {
            let o = choose|o: int| #[trigger] copy_of(self.files@, f, o) && !self.files@[o].marked;
            assert(self.other(f, o));
        }
    }
}

} // verus!
