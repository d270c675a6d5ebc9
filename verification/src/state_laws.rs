//! What files, groups and folders are shown as, told by marks and paths.
use vstd::prelude::*;

use crate::counting;
use crate::deletion::GroupPaths;
use crate::mark_laws;
use crate::model::{self, DupFile, FileId, Model, NodeId, Status};
use crate::paths;
use crate::views;

verus! {

/// Whether a file is another copy, and there.
pub open spec fn is_copy(files: Seq<DupFile>, f: int, o: int) -> bool {
    &&& 0 <= o < files.len()
    &&& o != f
    &&& files[o].group == files[f].group
    &&& !files[o].removed
    &&& !files[o].excluded
}

/// Whether a file has a copy.
pub open spec fn has_copy(files: Seq<DupFile>, f: int) -> bool {
    exists|o: int| #[trigger] is_copy(files, f, o)
}

/// Whether a file is there and has a copy.
pub open spec fn is_shown(files: Seq<DupFile>, f: int) -> bool {
    !files[f].removed && !files[f].excluded && has_copy(files, f)
}

/// Whether a file has copies and all of them are marked.
pub open spec fn copies_marked(files: Seq<DupFile>, f: int) -> bool {
    has_copy(files, f) && forall|o: int| #[trigger] is_copy(files, f, o) ==> files[o].marked
}

/// A file is shown where it is there and has a copy. It is to be deleted where it is
/// marked and a copy is left unmarked or there is none; it is kept where all its copies
/// are marked and it is not; it is in conflict where they are and it is too.
pub proof fn lemma_status(model: Model, f: int)
    ensures
        model.visible(f) == is_shown(model.files@, f),
        model.status_of(f) == Status::Conflict <==> model.files@[f].marked && copies_marked(
            model.files@,
            f,
        ),
        model.status_of(f) == Status::Keep <==> !model.files@[f].marked && copies_marked(
            model.files@,
            f,
        ),
        model.status_of(f) == Status::Delete <==> model.files@[f].marked && !copies_marked(
            model.files@,
            f,
        ),
        model.status_of(f) == Status::Pending <==> !model.files@[f].marked && !copies_marked(
            model.files@,
            f,
        ),
{
    let files = model.files@;
    assert forall|o: int| is_copy(files, f, o) == #[trigger] model.other(f, o) by {}
    if exists|o: int| model.other(f, o) {
        let o = choose|o: int| model.other(f, o);
        assert(is_copy(files, f, o));
    }
    if has_copy(files, f) {
        let o = choose|o: int| #[trigger] is_copy(files, f, o);
        assert(model.other(f, o));
    }
    if model.others_marked(f) {
        assert forall|o: int| #[trigger] is_copy(files, f, o) implies files[o].marked by {
            assert(model.other(f, o));
        }
    }
    if copies_marked(files, f) {
        assert forall|o: int| #[trigger] model.other(f, o) implies files[o].marked by {
            assert(is_copy(files, f, o));
        }
    }
}

/// Keeping one copy alone takes its mark and marks all others that are there; nothing
/// else changes.
pub proof fn lemma_kept_only(model: Model, file: int, f: int)
    ensures
        ({
            let before = model.files@[f];
            let after = model.kept_only(file, f);
            let met = before.group == model.files@[file].group && !before.removed
                && !before.excluded;
            &&& after.marked == if met {
                f != file
            } else {
                before.marked
            }
            &&& after.rule_pending == (before.rule_pending && !met)
            &&& after.path == before.path
            &&& after.group == before.group
            &&& after.node == before.node
            &&& after.removed == before.removed
            &&& after.excluded == before.excluded
        }),
{
}

/// Marking a folder marks the files that are shown in it or below it, by their paths;
/// nothing else changes.
pub proof fn lemma_subtree_marked(model: Model, top: int, marked: bool, f: int)
    requires
        model.wf(),
        0 <= top < model.nodes@.len(),
        0 <= f < model.files@.len(),
    ensures
        ({
            let before = model.files@[f];
            let after = model.subtree_marked(top, marked, f);
            let met = is_shown(model.files@, f) && in_folder(before.path@, model.parts(top));
            &&& after.marked == if met {
                marked
            } else {
                before.marked
            }
            &&& after.rule_pending == (before.rule_pending && !met)
            &&& after.path == before.path
            &&& after.group == before.group
            &&& after.node == before.node
            &&& after.removed == before.removed
            &&& after.excluded == before.excluded
        }),
{
    lemma_status(model, f);
    lemma_in_folder(model, f, top);
}

/// Whether the folder of a file begins with some names.
pub open spec fn in_folder(path: Seq<char>, parts: Seq<Seq<char>>) -> bool {
    let folder = paths::components(path).drop_last();
    parts.len() <= folder.len() && folder.take(parts.len() as int) == parts
}

proof fn lemma_in_folder(model: Model, f: int, n: int)
    requires
        model.wf(),
        0 <= n < model.nodes@.len(),
        0 <= f < model.files@.len(),
    ensures
        model::under(model.nodes@, model.files@[f].node as int, n) == in_folder(
            model.files@[f].path@,
            model.parts(n),
        ),
{
    mark_laws::lemma_under_by_parts(model, model.files@[f].node as int, n);
}

// ---------------------------------------------------------------------- counts

/// Which files count: all that are shown, or those in a folder and below it.
pub open spec fn counts_there(model: Model, top: Option<int>, f: int) -> bool {
    is_shown(model.files@, f) && (top matches Some(n) ==> in_folder(
        model.files@[f].path@,
        model.parts(n),
    ))
}

/// What a file that would be deleted adds to the bytes.
pub open spec fn freed(model: Model, top: Option<int>, f: int) -> nat {
    if counts_there(model, top, f) && model.files@[f].marked && !copies_marked(model.files@, f) {
        model.groups@[model.files@[f].group as int].size as nat
    } else {
        0
    }
}

proof fn lemma_tally(model: Model, count: nat, top: Option<int>)
    requires
        model.wf(),
        count <= model.files@.len(),
        top matches Some(n) ==> 0 <= n < model.nodes@.len(),
    ensures
        ({
            let t = model.tally(count, top);
            let files = model.files@;
            &&& t.total == counting::count(count, |f: int| counts_there(model, top, f))
            &&& t.delete == counting::count(
                count,
                |f: int| counts_there(model, top, f) && files[f].marked,
            )
            &&& t.keep == counting::count(
                count,
                |f: int| counts_there(model, top, f) && !files[f].marked && copies_marked(files, f),
            )
            &&& t.conflict == counting::count(
                count,
                |f: int| counts_there(model, top, f) && files[f].marked && copies_marked(files, f),
            )
            &&& t.delete_bytes == counting::total(count, |f: int| freed(model, top, f))
        }),
    decreases count,
{
    if count > 0 {
        let f = count - 1;
        lemma_tally(model, f as nat, top);
        lemma_status(model, f);
        if let Some(n) = top {
            lemma_in_folder(model, f, n);
        }
    }
}

/// The totals count the files that are shown: all, those that are marked, those that
/// are kept because all their copies are marked, those in conflict, and the bytes of
/// those that would be deleted.
pub proof fn lemma_totals(model: Model)
    requires
        model.wf(),
        model.counts_right(),
    ensures
        ({
            let files = model.files@;
            let n = files.len();
            let t = model.totals;
            &&& t.total == counting::count(n, |f: int| is_shown(files, f))
            &&& t.delete == counting::count(n, |f: int| is_shown(files, f) && files[f].marked)
            &&& t.keep == counting::count(
                n,
                |f: int| is_shown(files, f) && !files[f].marked && copies_marked(files, f),
            )
            &&& t.conflict == counting::count(
                n,
                |f: int| is_shown(files, f) && files[f].marked && copies_marked(files, f),
            )
            &&& t.delete_bytes == counting::total(
                n,
                |f: int|
                    if is_shown(files, f) && files[f].marked && !copies_marked(files, f) {
                        model.groups@[files[f].group as int].size as nat
                    } else {
                        0nat
                    },
            )
        }),
{
    let files = model.files@;
    let n = files.len();
    let none = Option::<int>::None;
    lemma_tally(model, n, none);
    assert(model.totals@ == model.tally(n, none));
    counting::lemma_count_same(
        n,
        |f: int| counts_there(model, none, f),
        |f: int| is_shown(files, f),
    );
    counting::lemma_count_same(
        n,
        |f: int| counts_there(model, none, f) && files[f].marked,
        |f: int| is_shown(files, f) && files[f].marked,
    );
    counting::lemma_count_same(
        n,
        |f: int| counts_there(model, none, f) && !files[f].marked && copies_marked(files, f),
        |f: int| is_shown(files, f) && !files[f].marked && copies_marked(files, f),
    );
    counting::lemma_count_same(
        n,
        |f: int| counts_there(model, none, f) && files[f].marked && copies_marked(files, f),
        |f: int| is_shown(files, f) && files[f].marked && copies_marked(files, f),
    );
    counting::lemma_total_same(
        n,
        |f: int| freed(model, none, f),
        |f: int|
            if is_shown(files, f) && files[f].marked && !copies_marked(files, f) {
                model.groups@[files[f].group as int].size as nat
            } else {
                0nat
            },
    );
}

/// The counts of a folder count the files that are shown in it or below it, by their
/// paths.
pub proof fn lemma_folder_counts(model: Model, k: int)
    requires
        model.wf(),
        model.counts_right(),
        0 <= k < model.nodes@.len(),
    ensures
        ({
            let files = model.files@;
            let n = files.len();
            let top = Some(k);
            let t = model.nodes@[k].counts;
            &&& t.total == counting::count(n, |f: int| counts_there(model, top, f))
            &&& t.delete == counting::count(
                n,
                |f: int| counts_there(model, top, f) && files[f].marked,
            )
            &&& t.keep == counting::count(
                n,
                |f: int| counts_there(model, top, f) && !files[f].marked && copies_marked(files, f),
            )
            &&& t.conflict == counting::count(
                n,
                |f: int| counts_there(model, top, f) && files[f].marked && copies_marked(files, f),
            )
            &&& t.delete_bytes == counting::total(n, |f: int| freed(model, top, f))
        }),
{
    lemma_tally(model, model.files@.len(), Some(k));
    assert(model.nodes@[k].counts@ == model.tally(model.files@.len(), Some(k)));
}

/// How many files of a group are there.
pub open spec fn there_in(model: Model, g: int) -> nat {
    counting::count(
        model.files@.len(),
        |f: int| model.files@[f].group == g && !model.files@[f].removed && !model.files@[f].excluded,
    )
}

/// The bytes that a group takes beyond those of one copy.
pub open spec fn spare_bytes(model: Model, g: int) -> nat {
    if there_in(model, g) >= 2 {
        (model.groups@[g].size * (there_in(model, g) - 1)) as nat
    } else {
        0
    }
}

proof fn lemma_group(model: Model, g: int)
    requires
        model.wf(),
        0 <= g < model.groups@.len(),
    ensures
        model.alive_count(g) == there_in(model, g),
        model.group_waste(g) == spare_bytes(model, g),
{
    model.lemma_alive_counted(g);
    counting::lemma_count_same(
        model.files@.len(),
        |f: int| model.alive(f) && model.files@[f].group == g,
        |f: int|
            model.files@[f].group == g && !model.files@[f].removed && !model.files@[f].excluded,
    );
    if there_in(model, g) >= 2 {
        let size = model.groups@[g].size as nat;
        let spare = (there_in(model, g) - 1) as nat;
        assert(size * spare >= 0) by (nonlinear_arith);
    }
}

proof fn lemma_groups(model: Model, count: nat)
    requires
        model.wf(),
        count <= model.groups@.len(),
    ensures
        model.shown_groups(count) == counting::count(count, |g: int| there_in(model, g) >= 2),
        model.waste(count) == counting::total(count, |g: int| spare_bytes(model, g)),
    decreases count,
{
    if count > 0 {
        lemma_groups(model, (count - 1) as nat);
        lemma_group(model, count - 1);
    }
}

/// The bytes that can be got back from all groups together.
pub proof fn lemma_waste(model: Model)
    requires
        model.wf(),
    ensures
        model.waste(model.groups@.len()) == counting::total(
            model.groups@.len(),
            |g: int| spare_bytes(model, g),
        ),
{
    lemma_groups(model, model.groups@.len());
}

/// The groups that are counted are those of which two files or more are there, and the
/// bytes that can be got back are those of all their copies but one.
pub proof fn lemma_groups_counted(model: Model)
    requires
        model.wf(),
        model.counts_right(),
    ensures
        model.visible_groups == counting::count(
            model.groups@.len(),
            |g: int| there_in(model, g) >= 2,
        ),
        model.wasted_bytes == counting::total(
            model.groups@.len(),
            |g: int| spare_bytes(model, g),
        ),
{
    lemma_groups(model, model.groups@.len());
}

/// A group is listed before another where more bytes can be got back from it, or as
/// many and it was found later. A group is listed where two files of it are there.
pub proof fn lemma_listed(model: Model, a: int, b: int)
    requires
        model.wf(),
        0 <= a < model.groups@.len(),
        0 <= b < model.groups@.len(),
    ensures
        model.listed_before(a, b) <==> spare_bytes(model, a) > spare_bytes(model, b) || (spare_bytes(
            model,
            a,
        ) == spare_bytes(model, b) && a > b),
        model.alive_count(a) >= 2 <==> there_in(model, a) >= 2,
{
    lemma_group(model, a);
    lemma_group(model, b);
}

/// Whether a file of a group that is there is marked or not, with its copies all marked
/// or not.
pub open spec fn one_is(model: Model, g: int, marked: bool, copies: bool) -> bool {
    exists|f: int| #![trigger model.files@[f]]
        0 <= f < model.files@.len() && model.files@[f].group == g && !model.files@[f].removed
            && !model.files@[f].excluded && model.files@[f].marked == marked && copies_marked(
            model.files@,
            f,
        ) == copies
}

proof fn lemma_any(model: Model, g: int, status: Status)
    ensures
        model.any_in_group(g, status) == one_is(
            model,
            g,
            status == Status::Conflict || status == Status::Delete,
            status == Status::Conflict || status == Status::Keep,
        ),
{
    let marked = status == Status::Conflict || status == Status::Delete;
    let copies = status == Status::Conflict || status == Status::Keep;
    if model.any_in_group(g, status) {
        let f = choose|f: int|
            0 <= f < model.files@.len() && model.files@[f].group == g && #[trigger] model.alive(f)
                && model.status_of(f) == status;
        lemma_status(model, f);
        assert(model.files@[f].group == g);
    }
    if one_is(model, g, marked, copies) {
        let f = choose|f: int| #![trigger model.files@[f]]
            0 <= f < model.files@.len() && model.files@[f].group == g && !model.files@[f].removed
                && !model.files@[f].excluded && model.files@[f].marked == marked && copies_marked(
                model.files@,
                f,
            ) == copies;
        lemma_status(model, f);
        assert(model.alive(f));
    }
}

/// A group is shown as in conflict where a file of it is: it and all its copies are
/// marked. If not, it is shown as kept where a file is left alone unmarked, then as to
/// be deleted where a file is marked.
pub proof fn lemma_group_status(model: Model, g: int)
    ensures
        model.group_status_of(g) == if one_is(model, g, true, true) {
            Status::Conflict
        } else if one_is(model, g, false, true) {
            Status::Keep
        } else if one_is(model, g, true, false) {
            Status::Delete
        } else {
            Status::Pending
        },
{
    lemma_any(model, g, Status::Conflict);
    lemma_any(model, g, Status::Keep);
    lemma_any(model, g, Status::Delete);
}

/// A folder is shown as in conflict where a file shown in it is, as to be deleted where
/// all files shown in it are marked, and as kept where all are kept; by its counts.
pub proof fn lemma_folder_shown_as(model: Model, n: int)
    ensures
        ({
            let c = model.nodes@[n].counts;
            model.folder_status(n) == if c.total > 0 && c.conflict > 0 {
                Status::Conflict
            } else if c.total > 0 && c.delete == c.total {
                Status::Delete
            } else if c.total > 0 && c.keep == c.total {
                Status::Keep
            } else {
                Status::Pending
            }
        }),
{
}

// --------------------------------------------------------------------- folders

/// Whether no file is shown in a folder itself.
pub open spec fn none_directly(model: Model, n: int) -> bool {
    forall|f: int| #![trigger model.files@[f]]
        0 <= f < model.files@.len() && model.files@[f].node == n ==> !is_shown(model.files@, f)
}

/// Whether one sub-folder of a folder, and no other, has files counted in it.
pub open spec fn only_child(model: Model, n: int, c: NodeId) -> bool {
    &&& model.nodes@[n].children.ids().contains(c)
    &&& model.nodes@[c as int].counts.total > 0
    &&& forall|d: NodeId| #[trigger]
        model.nodes@[n].children.ids().contains(d) && model.nodes@[d as int].counts.total > 0
            ==> d == c
}

proof fn lemma_directly(model: Model, n: int, count: nat)
    requires
        count <= model.files@.len(),
    ensures
        counting::count(count, model.shown_directly(n)) == 0 <==> forall|f: int|
            #![trigger model.files@[f]]
            0 <= f < count && model.files@[f].node == n ==> !is_shown(model.files@, f),
    decreases count,
{
    if count > 0 {
        lemma_directly(model, n, (count - 1) as nat);
        lemma_status(model, count - 1);
        assert(model.shown_directly(n)(count - 1) == (is_shown(model.files@, count - 1)
            && model.files@[count - 1].node == n));
    }
}

proof fn lemma_one_shown(model: Model, n: int)
    requires
        model.wf(),
        0 <= n < model.nodes@.len(),
    ensures
        model.shown_children(n).len() == 1 <==> exists|c: NodeId| #[trigger] only_child(model, n, c),
        forall|c: NodeId| #[trigger]
            only_child(model, n, c) ==> model.shown_children(n) == seq![c] && n < c
                < model.nodes@.len(),
{
    let ids = model.nodes@[n].children.ids();
    let pred = |c: NodeId| model.nodes@[c as int].counts.total > 0;
    let shown = model.shown_children(n);
    model.lemma_children(n);
    assert(model.parents().len() == model.nodes@.len());
    views::lemma_filter_once(ids, pred);
    assert forall|d: NodeId| shown.contains(d) <==> #[trigger] ids.contains(d) && pred(d) by {
        if shown.contains(d) {
            ids.lemma_filter_contains_rev(pred, d);
            ids.lemma_filter_pred(pred, shown.index_of(d));
        }
        if ids.contains(d) && pred(d) {
            ids.lemma_filter_contains(pred, ids.index_of(d));
        }
    }
    assert forall|c: NodeId| #[trigger] only_child(model, n, c) implies shown == seq![c] && n < c
        < model.nodes@.len() by {
        assert(ids.contains(c) && pred(c));
        assert(shown.contains(c));
        assert forall|i: int| 0 <= i < shown.len() implies shown[i] == c by {
            assert(shown.contains(shown[i]));
            assert(ids.contains(shown[i]));
        }
        if shown.len() > 1 {
            assert(shown[0] != shown[1]);
        }
        assert(shown =~= seq![c]);
        assert(ids[ids.index_of(c)] == c);
    }
    if shown.len() == 1 {
        let c = shown[0];
        assert(shown.contains(c));
        assert(ids.contains(c));
        assert forall|d: NodeId| #[trigger] ids.contains(d) && model.nodes@[d as int].counts.total
            > 0 implies d == c by {
            assert(pred(d));
            assert(shown.contains(d));
        }
        assert(only_child(model, n, c));
    }
}

/// A folder in which no file is shown, and of whose sub-folders one alone has files,
/// is shown together with that one, under both names; any other folder by itself.
pub proof fn lemma_tree_label(model: Model, n: int, label: Seq<char>, separator: char)
    requires
        model.wf(),
        0 <= n < model.nodes@.len(),
    ensures
        forall|c: NodeId| #[trigger]
            only_child(model, n, c) && none_directly(model, n) ==> model.merged(n, label, separator)
                == model.merged(
                c as int,
                if label.len() > 0 && (label[label.len() - 1] == '/' || label[label.len() - 1]
                    == '\\') {
                    label + model.nodes@[c as int].name@
                } else {
                    label + seq![separator] + model.nodes@[c as int].name@
                },
                separator,
            ),
        !(none_directly(model, n) && exists|c: NodeId| #[trigger] only_child(model, n, c))
            ==> model.merged(n, label, separator) == (n, label),
{
    lemma_directly(model, n, model.files@.len());
    lemma_one_shown(model, n);
    assert(label.push(separator) =~= label + seq![separator]);
}

// ------------------------------------------------------------- files to delete

/// Whether a list holds the paths of the files of a group that are there and are marked,
/// or are not.
pub open spec fn are_paths(model: Model, g: int, marked: bool, list: Seq<Seq<char>>) -> bool {
    forall|path: Seq<char>| #[trigger]
        list.contains(path) <==> exists|f: int| #![trigger model.files@[f]]
            0 <= f < model.files@.len() && model.files@[f].group == g && !model.files@[f].removed
                && !model.files@[f].excluded && model.files@[f].marked == marked
                && model.files@[f].path@ == path
}

/// Whether the copies that stay and the files to delete are those of a group that are
/// there and unmarked, and there and marked, at least one of each.
pub open spec fn is_handed(model: Model, g: int, group: GroupPaths) -> bool {
    &&& are_paths(model, g, false, group.0)
    &&& are_paths(model, g, true, group.1)
    &&& group.0.len() > 0
    &&& group.1.len() > 0
}

proof fn lemma_listed_paths(ids: Seq<FileId>, files: Seq<DupFile>, marked: bool)
    ensures
        forall|path: Seq<char>| #[trigger]
            views::paths_marked(ids, files, marked).contains(path) <==> exists|i: int|
                #![trigger ids[i]]
                0 <= i < ids.len() && files[ids[i] as int].marked == marked
                    && files[ids[i] as int].path@ == path,
    decreases ids.len(),
{
    let all = views::paths_marked(ids, files, marked);
    if ids.len() > 0 {
        let rest = ids.drop_last();
        let before = views::paths_marked(rest, files, marked);
        lemma_listed_paths(rest, files, marked);
        let last = files[ids.last() as int];
        assert forall|path: Seq<char>| #[trigger] all.contains(path) <==> exists|i: int|
            #![trigger ids[i]]
            0 <= i < ids.len() && files[ids[i] as int].marked == marked
                && files[ids[i] as int].path@ == path by {
            vstd::seq_lib::lemma_seq_contains_after_push(before, last.path@, path);
            if before.contains(path) {
                let i = choose|i: int| #![trigger rest[i]]
                    0 <= i < rest.len() && files[rest[i] as int].marked == marked
                        && files[rest[i] as int].path@ == path;
                assert(ids[i] == rest[i]);
            }
            if last.marked == marked && last.path@ == path {
                assert(ids[ids.len() - 1] == ids.last());
            }
            if exists|i: int| #![trigger ids[i]]
                0 <= i < ids.len() && files[ids[i] as int].marked == marked
                    && files[ids[i] as int].path@ == path {
                let i = choose|i: int| #![trigger ids[i]]
                    0 <= i < ids.len() && files[ids[i] as int].marked == marked
                        && files[ids[i] as int].path@ == path;
                if i < rest.len() {
                    assert(rest[i] == ids[i]);
                }
            }
        }
    }
}

proof fn lemma_split(model: Model, g: int)
    requires
        model.wf(),
        0 <= g < model.groups@.len(),
    ensures
        are_paths(model, g, false, model.split_group(g).0),
        are_paths(model, g, true, model.split_group(g).1),
{
    let members = model.groups@[g].files@;
    let files = model.files@;
    let pred = |f: FileId| !files[f as int].removed && !files[f as int].excluded;
    let alive = model::alive_among(members, files);
    lemma_listed_paths(alive, files, false);
    lemma_listed_paths(alive, files, true);
    assert forall|f: FileId| #[trigger] alive.contains(f) <==> f < files.len()
        && files[f as int].group == g && pred(f) by {
        if alive.contains(f) {
            members.lemma_filter_contains_rev(pred, f);
            members.lemma_filter_pred(pred, alive.index_of(f));
            assert(model.groups@[g].files@[members.index_of(f)] == f);
        }
        if f < files.len() && files[f as int].group == g && pred(f) {
            assert(members.contains(f));
            members.lemma_filter_contains(pred, members.index_of(f));
        }
    }
    assert forall|marked: bool, path: Seq<char>| #[trigger]
        views::paths_marked(alive, files, marked).contains(path) <==> exists|f: int|
            #![trigger files[f]]
            0 <= f < files.len() && files[f].group == g && !files[f].removed && !files[f].excluded
                && files[f].marked == marked && files[f].path@ == path by {
        lemma_listed_paths(alive, files, marked);
        if views::paths_marked(alive, files, marked).contains(path) {
            let i = choose|i: int| #![trigger alive[i]]
                0 <= i < alive.len() && files[alive[i] as int].marked == marked
                    && files[alive[i] as int].path@ == path;
            assert(alive.contains(alive[i]));
            assert(files[alive[i] as int].group == g);
        }
        if exists|f: int| #![trigger files[f]]
            0 <= f < files.len() && files[f].group == g && !files[f].removed && !files[f].excluded
                && files[f].marked == marked && files[f].path@ == path {
            let f = choose|f: int| #![trigger files[f]]
                0 <= f < files.len() && files[f].group == g && !files[f].removed
                    && !files[f].excluded && files[f].marked == marked && files[f].path@ == path;
            assert(files.len() == model.files.len());
            assert(alive.contains(f as usize));
            let i = alive.index_of(f as usize);
            assert(files[alive[i] as int].path@ == path);
        }
    }
}

proof fn lemma_handed_group(model: Model, count: nat, k: int)
    requires
        model.wf(),
        count <= model.groups@.len(),
        0 <= k < model.marked_paths(count).len(),
    ensures
        exists|g: int| 0 <= g < count && #[trigger] is_handed(model, g, model.marked_paths(count)[k]),
    decreases count,
{
    if count > 0 {
        let before = model.marked_paths((count - 1) as nat);
        let all = model.marked_paths(count);
        if k < before.len() {
            lemma_handed_group(model, (count - 1) as nat, k);
            assert(all[k] == before[k]);
        } else {
            lemma_split(model, count - 1);
            assert(is_handed(model, count - 1, all[k]));
        }
    }
}

/// What is handed over for deletion of a group are its files that are there: those that
/// are marked to be deleted, and those that are not as the copies that stay; at least
/// one of each.
pub proof fn lemma_handed_by_group(model: Model, k: int)
    requires
        model.wf(),
        0 <= k < model.marked_paths(model.groups@.len()).len(),
    ensures
        exists|g: int| 0 <= g < model.groups@.len() && #[trigger] is_handed(model, g, model.marked_paths(model.groups@.len())[k]),
{
    lemma_handed_group(model, model.groups@.len(), k);
}

proof fn lemma_handed_there(model: Model, count: nat, f: int, o: int)
    requires
        model.wf(),
        count <= model.groups@.len(),
        0 <= f < model.files@.len(),
        model.files@[f].group < count,
        !model.files@[f].removed && !model.files@[f].excluded,
        model.files@[f].marked,
        is_copy(model.files@, f, o),
        !model.files@[o].marked,
    ensures
        exists|k: int| #![trigger model.marked_paths(count)[k]]
            0 <= k < model.marked_paths(count).len() && model.marked_paths(count)[k].1.contains(
                model.files@[f].path@,
            ) && model.marked_paths(count)[k].0.contains(model.files@[o].path@),
    decreases count,
{
    let earlier = model.marked_paths((count - 1) as nat);
    let all = model.marked_paths(count);
    if model.files@[f].group < count - 1 {
        lemma_handed_there(model, (count - 1) as nat, f, o);
        let k = choose|k: int| #![trigger earlier[k]]
            0 <= k < earlier.len() && earlier[k].1.contains(model.files@[f].path@)
                && earlier[k].0.contains(model.files@[o].path@);
        assert(all[k] == earlier[k]);
    } else {
        let group = model.split_group(count - 1);
        lemma_split(model, count - 1);
        assert(group.1.contains(model.files@[f].path@));
        assert(group.0.contains(model.files@[o].path@));
        assert(all[earlier.len() as int] == group);
    }
}

/// Each marked file that is there and of which a copy stays is handed over for deletion,
/// together with that copy.
pub proof fn lemma_all_handed(model: Model, f: int, o: int)
    requires
        model.wf(),
        0 <= f < model.files@.len(),
        !model.files@[f].removed && !model.files@[f].excluded,
        model.files@[f].marked,
        is_copy(model.files@, f, o),
        !model.files@[o].marked,
    ensures
        exists|k: int| #![trigger model.marked_paths(model.groups@.len())[k]]
            0 <= k < model.marked_paths(model.groups@.len()).len() && model.marked_paths(
                model.groups@.len(),
            )[k].1.contains(model.files@[f].path@) && model.marked_paths(
                model.groups@.len(),
            )[k].0.contains(model.files@[o].path@),
{
    assert(model.files@[f].group < model.groups@.len());
    lemma_handed_there(model, model.groups@.len(), f, o);
}

} // verus!
