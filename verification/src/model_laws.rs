//! What holds of the results as a whole.
use vstd::prelude::*;

use crate::model::{self, DupFile, Model, Status};
use crate::paths;

verus! {

impl Model {
    /// A file is deleted only where an unmarked copy is left.
    pub proof fn lemma_deleted_has_copy(self, f: int)
        requires
            self.visible(f),
            self.status_of(f) == Status::Delete,
        ensures
            self.spare(f),
    {
        assert(!self.others_marked(f));
        let o = choose|o: int| self.other(f, o);
        assert(self.other(f, o));
        let u = choose|u: int| #[trigger] self.other(f, u) && !self.files@[u].marked;
        assert(self.other(f, u) && !self.files@[u].marked);
    }

    /// Where all copies of a group are marked, none of them is deleted.
    pub proof fn lemma_conflict_deletes_nothing(self, f: int, o: int)
        requires
            0 <= f < self.files@.len(),
            self.alive(f),
            self.status_of(f) == Status::Conflict,
            self.other(f, o),
        ensures
            self.status_of(o) == Status::Conflict,
    {
        assert(self.other(o, f));
        assert forall|p: int| #[trigger] self.other(o, p) implies self.files@[p].marked by {
            if p != f {
                assert(self.other(f, p));
            }
        }
    }

    /// Keeping one copy alone keeps it and deletes all others.
    pub proof fn lemma_keep_only(self, before: Model, file: int)
        requires
            0 <= file < before.files@.len(),
            before.visible(file),
            self.files@.len() == before.files@.len(),
            forall|f: int| #![trigger self.files@[f]]
                0 <= f < self.files@.len() ==> self.files@[f] == before.kept_only(file, f),
        ensures
            self.status_of(file) == Status::Keep,
            forall|o: int| #[trigger]
                self.other(file, o) ==> self.visible(o) && self.status_of(o) == Status::Delete,
    {
        assert(self.files@[file] == before.kept_only(file, file));
        let first = choose|o: int| before.other(file, o);
        assert(self.files@[first] == before.kept_only(file, first));
        assert(self.other(file, first));
        assert forall|o: int| #[trigger] self.other(file, o) implies self.files@[o].marked
            && self.other(o, file) by {
            assert(self.files@[o] == before.kept_only(file, o));
        }
        assert forall|o: int| #[trigger] self.other(file, o) implies self.visible(o)
            && self.status_of(o) == Status::Delete by {
            assert(self.other(o, file));
            assert(!self.files@[file].marked);
            assert(!self.others_marked(o));
        }
    }

    /// A file that is gone is not shown, and of a group of two the other one is
    /// not either.
    pub proof fn lemma_removed_not_shown(self, before: Model, file: int, o: int)
        requires
            0 <= file < before.files@.len(),
            self.files@ == before.files@.update(
                file,
                (DupFile { removed: true, marked: false, ..before.files@[file] }),
            ),
            before.other(file, o),
            forall|p: int| #[trigger] before.other(file, p) ==> p == o,
        ensures
            !self.visible(file),
            !self.visible(o),
    {
        if self.visible(o) {
            let p = choose|p: int| self.other(o, p);
            assert(self.files@[p] == before.files@[p]);
            assert(before.other(file, p));
        }
    }

    /// No two files have the same path.
    pub proof fn lemma_paths_unique(self, a: int, b: int)
        requires
            self.wf(),
            0 <= a < self.files@.len(),
            0 <= b < self.files@.len(),
            paths::same_path(self.files@[a].path@, self.files@[b].path@),
        ensures
            a == b,
    {
        assert(self.files@.len() == self.files.len());
        let key = paths::joined(paths::components(self.files@[a].path@));
        assert(self.path_index()[key] == a);
        assert(self.path_index()[paths::joined(paths::components(self.files@[b].path@))] == b);
    }

    /// A file stands in the folder that its path names.
    pub proof fn lemma_file_in_its_folder(self, f: int)
        requires
            self.wf(),
            0 <= f < self.files@.len(),
        ensures
            paths::within(
                self.files@[f].path@,
                paths::joined(self.parts(self.files@[f].node as int)),
            ),
            paths::components(self.files@[f].path@).len() == self.parts(
                self.files@[f].node as int,
            ).len() + 1,
    {
        let n = self.files@[f].node as int;
        let parts = self.parts(n);
        let all = paths::components(self.files@[f].path@);
        assert(parts == all.drop_last());
        assert(paths::are_components(model::node_parts(self.nodes@, n))) by {
            reveal(model::tree_wf);
            assert(self.nodes@[n].children.wf());
        }
        assert(parts.len() > 0);
        paths::lemma_components_joined(parts);
        assert(all.take(parts.len() as int) =~= parts);
    }

    /// A path is known once a file was added at it, so that it is not added twice.
    pub proof fn lemma_added_is_known(self, before: Model, key: u64, size: u64, path: Seq<char>)
        requires
            self.with_file(before, key, size, path),
        ensures
            self.knows(path),
    {
        let f = before.files@.len() as int;
        assert(self.files@[f].path@ == path);
    }
}

// ---------------------------------------------------------------------- groups

impl Model {
    /// Whether files stay in their groups, keys with theirs, and groups keep their
    /// sizes.
    pub open spec fn keeps_groups(self, before: Model) -> bool {
        &&& before.files@.len() <= self.files@.len()
        &&& before.groups@.len() <= self.groups@.len()
        &&& forall|f: int| #![trigger self.files@[f]]
            0 <= f < before.files@.len() ==> self.files@[f].group == before.files@[f].group
        &&& forall|g: int| #![trigger self.groups@[g]]
            0 <= g < before.groups@.len() ==> self.groups@[g].size == before.groups@[g].size
        &&& forall|key: u64| #[trigger]
            before.keys().contains_key(key) ==> self.keys().contains_key(key) && self.keys()[key]
                == before.keys()[key]
    }

    /// Adding a file keeps the groups of the others.
    pub proof fn lemma_added_keeps_groups(self, before: Model, key: u64, size: u64, path: Seq<char>)
        requires
            before.wf(),
            self.with_file(before, key, size, path),
        ensures
            self.keeps_groups(before),
    {
        assert forall|f: int| #![trigger self.files@[f]]
            0 <= f < before.files@.len() implies self.files@[f].group
            == before.files@[f].group by {
            assert(self.files@[f] == self.files@.drop_last()[f]);
        }
        assert(self.group_lists().len() == self.groups@.len());
        assert(before.group_lists().len() == before.groups@.len());
        assert forall|g: int| #![trigger self.groups@[g]]
            0 <= g < before.groups@.len() implies self.groups@[g].size
            == before.groups@[g].size by {
            assert(self.group_lists()[g].0 == before.group_lists()[g].0);
        }
    }

    /// Marking, hiding and removing files keeps groups, and so does counting anew.
    pub proof fn lemma_others_keep_groups(self, before: Model)
        requires
            self.same_but_files(before) || self.same_but_counts(before),
        ensures
            self.keeps_groups(before),
    {
    }

    /// What is kept from one time to the next is kept throughout.
    pub proof fn lemma_groups_kept_throughout(self, between: Model, before: Model)
        requires
            between.keeps_groups(before),
            self.keeps_groups(between),
        ensures
            self.keeps_groups(before),
    {
        assert forall|f: int| #![trigger self.files@[f]]
            0 <= f < before.files@.len() implies self.files@[f].group
            == before.files@[f].group by {
            assert(between.files@[f].group == before.files@[f].group);
        }
        assert forall|g: int| #![trigger self.groups@[g]]
            0 <= g < before.groups@.len() implies self.groups@[g].size
            == before.groups@[g].size by {
            assert(between.groups@[g].size == before.groups@[g].size);
        }
    }
}

/// Two files that are added, with anything but a new beginning in between, are in
/// the same group exactly where they are added with the same key. The group keeps
/// the size with which its key was first used.
pub proof fn lemma_same_group_same_key(
    start: Model,
    first: Model,
    later: Model,
    last: Model,
    one: (u64, u64, Seq<char>),
    other: (u64, u64, Seq<char>),
)
    requires
        start.wf(),
        later.wf(),
        last.wf(),
        first.with_file(start, one.0, one.1, one.2),
        later.keeps_groups(first),
        last.with_file(later, other.0, other.1, other.2),
    ensures
        ({
            let a = start.files@.len() as int;
            let b = later.files@.len() as int;
            &&& last.files@[a].group == last.files@[b].group <==> one.0 == other.0
            &&& last.groups@[last.files@[a].group as int].size == if start.keys().contains_key(
                one.0,
            ) {
                start.groups@[start.keys()[one.0] as int].size
            } else {
                one.1
            }
        }),
{
    let a = start.files@.len() as int;
    let b = later.files@.len() as int;
    first.lemma_added_keeps_groups(start, one.0, one.1, one.2);
    last.lemma_added_keeps_groups(later, other.0, other.1, other.2);
    last.lemma_groups_kept_throughout(later, first);
    let g = first.files@[a].group;
    assert(g == start.group_for(one.0));
    assert(first.keys().contains_key(one.0) && first.keys()[one.0] == g);
    assert(last.keys().contains_key(one.0) && last.keys()[one.0] == g);
    assert(last.keys().contains_key(other.0) && last.keys()[other.0] == last.files@[b].group);
    assert(last.files@[a].group == g);
    assert(start.groups@.len() == start.groups.len());
    assert(first.group_lists().len() == first.groups@.len());
    assert(start.group_lists().len() == start.groups@.len());
    if start.keys().contains_key(one.0) {
        assert(g < start.groups@.len());
        assert(first.groups@[g as int].size == start.groups@[g as int].size);
    } else {
        assert(first.group_lists()[g as int].0 == one.1);
        assert(first.groups@[g as int].size == one.1);
    }
    assert(g < first.groups@.len());
    assert(last.groups@[g as int].size == first.groups@[g as int].size);
}

} // verus!
