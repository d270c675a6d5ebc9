//! What is taken in of a search and of a deletion, told by paths.
use vstd::prelude::*;

use crate::intake;
use crate::mark_laws;
use crate::model::{FileId, Model};
use crate::paths;
use crate::rules::Exclusions;

verus! {

/// A path is known where a file has the same parts.
pub proof fn lemma_knows(model: Model, path: Seq<char>)
    ensures
        model.knows(path) <==> exists|f: int|
            0 <= f < model.files@.len() && paths::components((#[trigger] model.files@[f]).path@)
                == paths::components(path),
{
    if model.knows(path) {
        let f = choose|f: int|
            0 <= f < model.files@.len() && paths::same_path(
                (#[trigger] model.files@[f]).path@,
                path,
            );
        assert(paths::components(model.files@[f].path@) == paths::components(path));
    }
    if exists|f: int|
        0 <= f < model.files@.len() && paths::components((#[trigger] model.files@[f]).path@)
            == paths::components(path) {
        let f = choose|f: int|
            0 <= f < model.files@.len() && paths::components((#[trigger] model.files@[f]).path@)
                == paths::components(path);
        assert(paths::same_path(model.files@[f].path@, path));
    }
}

/// A file that is added comes last, with its path, in the folder that its path names and
/// in the group of its key, neither marked nor removed nor excluded. All other files stay
/// as they are, and the results are to be counted anew.
pub proof fn lemma_file_added(before: Model, after: Model, key: u64, size: u64, path: Seq<char>, f: int)
    requires
        before.wf(),
        after.wf(),
        after.with_file(before, key, size, path),
        0 <= f < before.files@.len(),
    ensures
        after.files@[f] == before.files@[f],
{
    assert(after.files@[f] == after.files@.drop_last()[f]);
}

/// What is known of a file that was added.
pub proof fn lemma_last_added(before: Model, after: Model, key: u64, size: u64, path: Seq<char>)
    requires
        before.wf(),
        after.wf(),
        after.with_file(before, key, size, path),
    ensures
        after.files@.len() == before.files@.len() + 1,
        ({
            let n = before.files@.len() as int;
            let file = after.files@[n];
            &&& file.path@ == path
            &&& !file.marked
            &&& !file.removed
            &&& !file.excluded
            &&& !file.rule_pending
            &&& after.parts(file.node as int) == paths::components(path).drop_last()
            &&& after.keys().contains_key(key)
            &&& after.keys()[key] == file.group
            &&& after.groups@[file.group as int].files@.contains(n as usize)
            &&& !before.keys().contains_key(key) ==> after.groups@[file.group as int].size == size
                && after.groups@[file.group as int].files@.len() == 1
        }),
        after.knows(path),
        after.dirty,
{
    let n = before.files@.len() as int;
    assert(after.files@.last() == after.files@[n]);
    assert(after.files@.len() == after.files.len());
    assert(paths::same_path(after.files@[n].path@, path));
    let g = after.files@[n].group as int;
    if !before.keys().contains_key(key) {
        assert(before.groups@.len() == before.groups.len());
        assert(before.group_lists().len() == before.groups@.len());
        assert(after.group_lists().len() == after.groups@.len());
        assert(after.group_lists()[g] == (size, seq![n as usize]));
        assert(after.group_lists()[g] == (after.groups@[g].size, after.groups@[g].files@));
    }
}

/// Where a file is added, it joins the group of its key at the end; where the key has none
/// yet, that group is a new one, the last. All other groups and keys stay as they are, and
/// so does the size of the group.
pub proof fn lemma_group_joined(
    before: Model,
    after: Model,
    key: u64,
    size: u64,
    path: Seq<char>,
    g: int,
    other: u64,
)
    requires
        before.wf(),
        after.with_file(before, key, size, path),
        0 <= g < before.groups@.len(),
        other != key,
    ensures
        before.keys().contains_key(key) ==> after.groups@.len() == before.groups@.len(),
        !before.keys().contains_key(key) ==> after.groups@.len() == before.groups@.len() + 1
            && after.keys()[key] == before.groups@.len(),
        after.groups@[g].size == before.groups@[g].size,
        after.groups@[g].files@ == if before.keys().contains_key(key) && before.keys()[key] == g {
            before.groups@[g].files@.push(before.files@.len() as usize)
        } else {
            before.groups@[g].files@
        },
        after.keys().contains_key(other) <==> before.keys().contains_key(other),
        before.keys().contains_key(other) ==> after.keys()[other] == before.keys()[other],
{
    let lists = after.group_lists();
    assert(before.group_lists().len() == before.groups@.len());
    assert(lists.len() == after.groups@.len());
    assert(before.groups@.len() == before.groups.len());
    assert(before.group_lists()[g] == (before.groups@[g].size, before.groups@[g].files@));
    assert(lists[g] == (after.groups@[g].size, after.groups@[g].files@));
}

/// The numbers that follow each other from one on.
pub open spec fn numbers_from(start: int, count: nat) -> Seq<FileId> {
    Seq::new(count, |i: int| (start + i) as usize)
}

/// When the files of a group are added, all of them are known afterwards; the files that
/// were there stay as they are; each new one has the path of one of the names and is in
/// the group of the key; and their numbers join those of the new files.
pub proof fn lemma_all_added(
    before: Model,
    after: Model,
    key: u64,
    size: u64,
    names: Seq<Seq<char>>,
    ids_before: Seq<FileId>,
    ids_after: Seq<FileId>,
)
    requires
        before.wf(),
        intake::all_added(before, after, key, size, names, ids_before, ids_after),
    ensures
        after.wf(),
        before.files@.len() <= after.files@.len(),
        ids_after == ids_before + numbers_from(
            before.files@.len() as int,
            (after.files@.len() - before.files@.len()) as nat,
        ),
        forall|f: int| #![trigger after.files@[f]]
            0 <= f < before.files@.len() ==> after.files@[f] == before.files@[f],
        forall|i: int| 0 <= i < names.len() ==> after.knows(#[trigger] names[i]),
        forall|f: int| #![trigger after.files@[f]]
            before.files@.len() <= f < after.files@.len() ==> {
                &&& names.contains(after.files@[f].path@)
                &&& after.keys().contains_key(key)
                &&& after.files@[f].group == after.keys()[key]
                &&& !after.files@[f].marked
                &&& !after.files@[f].removed
                &&& !after.files@[f].excluded
            },
        before.keys().contains_key(key) ==> after.keys().contains_key(key) && after.keys()[key]
            == before.keys()[key],
    decreases names.len(),
{
    let start = before.files@.len() as int;
    if names.len() == 0 {
        assert(ids_before + numbers_from(start, 0) =~= ids_before);
    } else {
        let rest = names.drop_last();
        let name = names.last();
        let (between, ids) = choose|between: Model, ids: Seq<FileId>|
            {
                &&& intake::all_added(before, between, key, size, rest, ids_before, ids)
                &&& #[trigger] intake::added(between, after, key, size, name, ids, ids_after)
            };
        lemma_added_wf(before, between, key, size, rest, ids_before, ids);
        lemma_all_added(before, between, key, size, rest, ids_before, ids);
        let n = between.files@.len() as int;
        assert forall|i: int| 0 <= i < names.len() implies after.knows(#[trigger] names[i]) by {
            if !between.knows(name) {
                lemma_last_added(between, after, key, size, name);
            }
            if i < rest.len() {
                assert(rest[i] == names[i]);
                assert(between.knows(rest[i]));
                let f = choose|f: int|
                    0 <= f < between.files@.len() && paths::same_path(
                        (#[trigger] between.files@[f]).path@,
                        rest[i],
                    );
                if !between.knows(name) {
                    lemma_file_added(between, after, key, size, name, f);
                }
                assert(paths::same_path(after.files@[f].path@, names[i]));
            }
        }
        assert forall|f: int| #![trigger after.files@[f]] 0 <= f < n implies after.files@[f]
            == between.files@[f] by {
            if !between.knows(name) {
                lemma_file_added(between, after, key, size, name, f);
            }
        }
        if !between.knows(name) {
            lemma_last_added(between, after, key, size, name);
            assert(names[names.len() - 1] == name);
            assert(ids_after =~= ids_before + numbers_from(start, (n + 1 - start) as nat));
        }
        assert forall|f: int| #![trigger after.files@[f]] start <= f < after.files@.len() implies {
            &&& names.contains(after.files@[f].path@)
            &&& after.keys().contains_key(key)
            &&& after.files@[f].group == after.keys()[key]
            &&& !after.files@[f].marked
            &&& !after.files@[f].removed
            &&& !after.files@[f].excluded
        } by {
            if f < n {
                assert(after.files@[f] == between.files@[f]);
                let i = rest.index_of(between.files@[f].path@);
                assert(names[i] == between.files@[f].path@);
            }
        }
    }
}

proof fn lemma_added_wf(
    before: Model,
    after: Model,
    key: u64,
    size: u64,
    names: Seq<Seq<char>>,
    ids_before: Seq<FileId>,
    ids_after: Seq<FileId>,
)
    requires
        before.wf(),
        intake::all_added(before, after, key, size, names, ids_before, ids_after),
    ensures
        after.wf(),
    decreases names.len(),
{
    if names.len() > 0 {
        let (between, ids) = choose|between: Model, ids: Seq<FileId>|
            {
                &&& intake::all_added(
                    before,
                    between,
                    key,
                    size,
                    names.drop_last(),
                    ids_before,
                    ids,
                )
                &&& #[trigger] intake::added(
                    between,
                    after,
                    key,
                    size,
                    names.last(),
                    ids,
                    ids_after,
                )
            };
        lemma_added_wf(before, between, key, size, names.drop_last(), ids_before, ids);
    }
}

/// Of the new files, those are hidden whose paths the exclusions hide; they lose their
/// marks, and nothing else changes.
pub proof fn lemma_new_hidden(before: Model, after: Model, excl: Exclusions, ids: Seq<FileId>, f: int)
    requires
        before.wf(),
        intake::hidden_among(before, after, excl, ids),
        0 <= f < before.files@.len(),
    ensures
        ({
            let met = ids.contains(f as usize) && mark_laws::path_hidden(
                excl,
                before.files@[f].path@,
            );
            &&& after.files@[f].excluded == (before.files@[f].excluded || met)
            &&& after.files@[f].marked == (before.files@[f].marked && !met)
            &&& after.files@[f].path == before.files@[f].path
            &&& after.files@[f].group == before.files@[f].group
            &&& after.files@[f].node == before.files@[f].node
            &&& after.files@[f].removed == before.files@[f].removed
            &&& after.files@[f].rule_pending == before.files@[f].rule_pending
        }),
{
    mark_laws::lemma_hidden_by_path(before, excl, f);
    assert(after.files@[f].path == before.files@[f].path);
}

/// A file that was deleted is noted as removed and loses its mark, and no other changes.
pub proof fn lemma_removed(before: Model, after: Model, f: int, o: int)
    requires
        intake::removed_at(before, after, f),
        0 <= o < before.files@.len(),
    ensures
        after.files@.len() == before.files@.len(),
        after.files@[f].removed,
        !after.files@[f].marked,
        after.files@[f].path == before.files@[f].path,
        after.files@[f].group == before.files@[f].group,
        o != f ==> after.files@[o] == before.files@[o],
        after.groups == before.groups,
        after.dirty,
{
}

} // verus!
