//! What holds of rules as a whole.
use vstd::prelude::*;

use crate::counting;
use crate::model::{self, DupFile, FileId, Model};
use crate::rules::{self, Rule};
use crate::runs;

verus! {

/// The numbers of the first files.
pub open spec fn first_files(count: nat) -> Seq<FileId> {
    Seq::new(count, |i: int| i as usize)
}

/// Whether a file of a group is present and unmarked.
spec fn left_in(files: Seq<DupFile>, g: int) -> spec_fn(int) -> bool {
    |f: int| runs::present(files, f) && !files[f].marked && files[f].group == g
}

/// How many files of a group are marked once the first files were reached.
spec fn marked_of(model: Model, rule: Rule, count: nat, g: int) -> nat {
    let matching = counting::count(count, model.markable_in(rule, g));
    let unmarked = counting::count(model.files@.len(), model.unmarked_in(g));
    if unmarked == 0 {
        0
    } else if matching < unmarked {
        matching
    } else {
        (unmarked - 1) as nat
    }
}

/// A run touches no file that it does not reach.
proof fn lemma_run_elsewhere(
    files: Seq<DupFile>,
    hits: Seq<bool>,
    ids: Seq<FileId>,
    note: bool,
    f: int,
)
    requires
        runs::are_files(files, ids),
        0 <= f < files.len(),
        forall|i: int| 0 <= i < ids.len() ==> #[trigger] ids[i] != f,
    ensures
        runs::run(files, hits, ids, note)[f] == files[f],
    decreases ids.len(),
{
    if ids.len() > 0 {
        let rest = ids.drop_last();
        assert forall|i: int| 0 <= i < rest.len() implies (#[trigger] rest[i]) < files.len()
            && rest[i] != f by {
            assert(rest[i] == ids[i]);
        }
        lemma_run_elsewhere(files, hits, rest, note, f);
        runs::lemma_run_frame(files, hits, rest, note);
        assert(ids.last() == ids[ids.len() - 1]);
    }
}

proof fn lemma_markable_step(model: Model, rule: Rule, count: nat)
    requires
        model.wf(),
        count <= model.files@.len(),
    ensures
        ({
            let files = model.files@;
            let hits = rule.hits(files);
            let ids = first_files(count);
            let now = runs::run(files, hits, ids, false);
            &&& runs::are_files(files, ids)
            &&& runs::marks_made(files, hits, ids) == counting::total(
                model.groups@.len(),
                |g: int| marked_of(model, rule, count, g),
            )
            &&& forall|g: int|
                0 <= g < model.groups@.len() ==> counting::count(
                    files.len(),
                    #[trigger] left_in(now, g),
                ) + marked_of(model, rule, count, g) == counting::count(
                    files.len(),
                    model.unmarked_in(g),
                )
        }),
    decreases count,
{
    let files = model.files@;
    let hits = rule.hits(files);
    let ids = first_files(count);
    let now = runs::run(files, hits, ids, false);
    let marked = |g: int| marked_of(model, rule, count, g);
    let n = files.len();
    assert(model.files@.len() == model.files.len());
    if count == 0 {
        assert(ids =~= Seq::<FileId>::empty());
        assert forall|g: int| 0 <= g < model.groups@.len() implies #[trigger] marked(g) == 0 by {}
        counting::lemma_total_zero(model.groups@.len(), marked);
        assert forall|g: int| 0 <= g < model.groups@.len() implies counting::count(
            n,
            #[trigger] left_in(now, g),
        ) == counting::count(n, model.unmarked_in(g)) by {
            counting::lemma_count_same(n, left_in(now, g), model.unmarked_in(g));
        }
    } else {
        let f = count - 1;
        lemma_markable_step(model, rule, f as nat);
        let rest = first_files(f as nat);
        assert(ids.drop_last() =~= rest);
        assert(ids.last() == f);
        let before = runs::run(files, hits, rest, false);
        let marked_before = |g: int| marked_of(model, rule, f as nat, g);
        runs::lemma_run_frame(files, hits, rest, false);
        lemma_run_elsewhere(files, hits, rest, false, f);
        runs::lemma_presence_kept(files, before, f);
        model.lemma_as_files(f);
        let home = files[f].group as int;
        assert(home < model.groups@.len());
        let left = left_in(before, home);
        let wanted = runs::wanted(before, hits, f);
        assert(wanted == model.markable_in(rule, home)(f));
        assert(left(f) || !wanted);
        assert forall|g: int| 0 <= g < model.groups@.len() && (g != home || !wanted) implies {
            &&& #[trigger] marked(g) == marked_before(g)
            &&& counting::count(n, left_in(now, g)) == counting::count(n, left_in(before, g))
        } by {
            assert(!model.markable_in(rule, g)(f));
            assert forall|o: int| 0 <= o < n implies #[trigger] left_in(now, g)(o) == left_in(
                before,
                g,
            )(o) by {}
            counting::lemma_count_same(n, left_in(now, g), left_in(before, g));
        }
        assert(counting::count(n, left) + marked_before(home) == counting::count(
            n,
            model.unmarked_in(home),
        ));
        if wanted {
            counting::lemma_count_some(n, left, f);
            if runs::spared(before, f) {
                let o = choose|o: int| #[trigger] runs::copy_of(before, f, o) && !before[o].marked;
                assert(left(o));
                if o < f {
                    counting::lemma_count_two(n, left, o, f);
                } else {
                    counting::lemma_count_two(n, left, f, o);
                }
                assert(now == before.update(f, model::with_mark(before[f], true)));
                assert forall|o: int| 0 <= o < n && o != f implies #[trigger] left_in(now, home)(o)
                    == left(o) by {}
                counting::lemma_count_more(n, left_in(now, home), left, f);
                counting::lemma_total_more(
                    model.groups@.len(),
                    marked_before,
                    marked,
                    home,
                    1,
                );
            } else {
                if counting::count(n, left) >= 2 {
                    let o = counting::lemma_count_another(n, left, f);
                    assert(runs::copy_of(before, f, o) && !before[o].marked);
                }
                assert(now == before);
                counting::lemma_total_same(model.groups@.len(), marked_before, marked);
            }
        } else {
            counting::lemma_total_same(model.groups@.len(), marked_before, marked);
        }
        assert forall|g: int| 0 <= g < model.groups@.len() implies counting::count(
            n,
            #[trigger] left_in(now, g),
        ) + marked_of(model, rule, count, g) == counting::count(n, model.unmarked_in(g)) by {
            assert(counting::count(n, left_in(before, g)) + marked_of(model, rule, f as nat, g)
                == counting::count(n, model.unmarked_in(g)));
            assert(marked(g) == marked_of(model, rule, count, g));
            assert(marked_before(g) == marked_of(model, rule, f as nat, g));
        }
    }
}

/// The number of files that a rule is said to mark while it is being typed is
/// the number that it marks when it is applied to all files.
pub proof fn lemma_markable_is_marked(model: Model, rule: Rule)
    requires
        model.wf(),
    ensures
        counting::total(model.groups@.len(), model.markable(rule)) == runs::marks_made(
            model.files@,
            rule.hits(model.files@),
            first_files(model.files@.len()),
        ),
{
    lemma_markable_step(model, rule, model.files@.len());
    counting::lemma_total_same(
        model.groups@.len(),
        model.markable(rule),
        |g: int| marked_of(model, rule, model.files@.len(), g),
    );
}

proof fn lemma_reached(
    files: Seq<DupFile>,
    hits: Seq<bool>,
    ids: Seq<FileId>,
    f: int,
    o: int,
)
    requires
        runs::are_files(files, ids),
        ids.contains(f as usize),
        0 <= f < files.len() <= usize::MAX,
        runs::present(files, f),
        hits[f],
        runs::copy_of(files, f, o),
        !files[o].marked,
        !hits[o],
    ensures
        runs::run(files, hits, ids, true)[f].marked,
    decreases ids.len(),
{
    let rest = ids.drop_last();
    assert forall|i: int| 0 <= i < rest.len() implies (#[trigger] rest[i]) < files.len() by {
        assert(rest[i] == ids[i]);
    }
    runs::lemma_run_frame(files, hits, rest, true);
    let before = runs::run(files, hits, rest, true);
    assert(ids.last() == ids[ids.len() - 1]);
    if ids.last() == f {
        runs::lemma_presence_kept(files, before, f);
        assert(runs::copy_of(before, f, o));
        assert(before[o] == files[o]);
        assert(before[f].removed == files[f].removed);
    } else {
        let i = ids.index_of(f as usize);
        assert(rest[i] == f);
        lemma_reached(files, hits, rest, f, o);
    }
}

proof fn lemma_retried(model: Model, new_files: Seq<FileId>, count: nat, f: int)
    requires
        model.wf(),
        runs::are_files(model.files@, new_files),
        count <= new_files.len(),
        0 <= f < model.files@.len(),
        model.files@[f].rule_pending,
        !new_files.contains(f as usize),
        rules::group_met(model.files@, new_files, count as int, model.files@[f].group),
    ensures
        model.retried(new_files, count).contains(f as usize),
    decreases count,
{
    let files = model.files@;
    let g = files[f].group;
    let last = files[new_files[count - 1] as int].group;
    let earlier = model.retried(new_files, (count - 1) as nat);
    let all = model.retried(new_files, count);
    if rules::group_met(files, new_files, count - 1, g) {
        lemma_retried(model, new_files, (count - 1) as nat, f);
        let i = earlier.index_of(f as usize);
        assert(all[i] == f as usize);
    } else {
        let i = choose|i: int| 0 <= i < count && files[#[trigger] new_files[i] as int].group == g;
        assert(i == count - 1);
        let members = model.groups@[g as int].files@;
        let pred = |o: FileId| files[o as int].rule_pending && !new_files.contains(o);
        assert(members.contains(f as usize));
        members.lemma_filter_contains(pred, members.index_of(f as usize));
        let found = rules::waiting(members, files, new_files);
        let j = found.index_of(f as usize);
        assert(all[earlier.len() + j] == f as usize);
    }
}

/// A file that a rule had to spare is marked as soon as a copy is found that no
/// such rule matches.
pub proof fn lemma_spared_then_marked(
    model: Model,
    rules: Seq<Rule>,
    new_files: Seq<FileId>,
    f: int,
    o: FileId,
)
    requires
        model.wf(),
        runs::are_files(model.files@, new_files),
        0 <= f < model.files@.len(),
        model.alive(f),
        model.files@[f].rule_pending,
        rules::continuous_covers(rules, model.files@[f].path@),
        new_files.contains(o),
        model.other(f, o as int),
        !model.files@[o as int].marked,
        !rules::continuous_covers(rules, model.files@[o as int].path@),
    ensures
        runs::run(
            model.files@,
            rules::continuous_hits(rules, model.files@),
            model.candidates(new_files),
            true,
        )[f].marked,
{
    let files = model.files@;
    let hits = rules::continuous_hits(rules, files);
    let ids = model.candidates(new_files);
    let n = new_files.len();
    assert(model.files@.len() == model.files.len());
    let k = new_files.index_of(o);
    assert(files[new_files[k] as int].group == files[f].group);
    assert(rules::group_met(files, new_files, n as int, files[f].group));
    if new_files.contains(f as usize) {
        let i = new_files.index_of(f as usize);
        assert(ids[i] == f as usize);
    } else {
        lemma_retried(model, new_files, n, f);
        let i = model.retried(new_files, n).index_of(f as usize);
        assert(ids[n + i] == f as usize);
    }
    rules::lemma_candidates(model, new_files);
    assert(runs::copy_of(files, f, o as int));
    lemma_reached(files, hits, ids, f, o as int);
}

/// Whatever rules apply by themselves to new files, no group loses its last
/// unmarked copy.
pub proof fn lemma_continuous_keeps_one(
    model: Model,
    rules: Seq<Rule>,
    new_files: Seq<FileId>,
    u: int,
)
    requires
        model.wf(),
        runs::are_files(model.files@, new_files),
        0 <= u < model.files@.len(),
        model.alive(u),
        !model.files@[u].marked,
    ensures
        ({
            let after = runs::run(
                model.files@,
                rules::continuous_hits(rules, model.files@),
                model.candidates(new_files),
                true,
            );
            exists|k: int| #![trigger after[k]]
                0 <= k < after.len() && after[k].group == model.files@[u].group && runs::present(
                    after,
                    k,
                ) && !after[k].marked
        }),
{
    let files = model.files@;
    let hits = rules::continuous_hits(rules, files);
    rules::lemma_candidates(model, new_files);
    let after = runs::run(files, hits, model.candidates(new_files), true);
    let k = runs::lemma_run_keeps_one(files, hits, model.candidates(new_files), true, u);
    runs::lemma_run_frame(files, hits, model.candidates(new_files), true);
    assert(after[k].group == files[k].group);
}

// ----------------------------------------------------------- one run and another

/// Which of some files a run would want to mark.
pub open spec fn candidates_at(files: Seq<DupFile>, hits: Seq<bool>, ids: Seq<FileId>) -> spec_fn(
    int,
) -> bool {
    |i: int| runs::wanted(files, hits, ids[i] as int)
}

/// Which files are marked that were not before.
pub open spec fn newly_marked(before: Seq<DupFile>, after: Seq<DupFile>) -> spec_fn(int) -> bool {
    |f: int| !before[f].marked && after[f].marked
}

/// What a run over distinct files does: of the files that it would want to mark
/// it marks some and withholds the mark from the others. No mark is taken away,
/// no other file is marked, and each file that is left is the only unmarked copy of
/// its group that is present.
pub proof fn lemma_run_accounts(files: Seq<DupFile>, hits: Seq<bool>, ids: Seq<FileId>)
    requires
        runs::are_files(files, ids),
        ids.no_duplicates(),
    ensures
        ({
            let after = runs::run(files, hits, ids, false);
            let made = runs::marks_made(files, hits, ids);
            &&& made + runs::marks_withheld(files, hits, ids) == counting::count(
                ids.len(),
                candidates_at(files, hits, ids),
            )
            &&& made == counting::count(files.len(), newly_marked(files, after))
            &&& forall|f: int| #![trigger after[f]]
                0 <= f < files.len() && after[f].marked && !files[f].marked ==> ids.contains(
                    f as usize,
                ) && runs::wanted(files, hits, f)
            &&& forall|f: int| #![trigger after[f]]
                0 <= f < files.len() && files[f].marked ==> after[f].marked
            &&& forall|i: int| #![trigger ids[i]]
                0 <= i < ids.len() && runs::wanted(files, hits, ids[i] as int)
                    && !after[ids[i] as int].marked ==> !runs::spared(after, ids[i] as int)
        }),
    decreases ids.len(),
{
    let after = runs::run(files, hits, ids, false);
    let n = files.len();
    runs::lemma_run_frame(files, hits, ids, false);
    if ids.len() == 0 {
        counting::lemma_count_none(n, newly_marked(files, after));
    } else {
        let rest = ids.drop_last();
        let f = ids.last() as int;
        let before = runs::run(files, hits, rest, false);
        assert(ids.last() == ids[ids.len() - 1]);
        assert forall|i: int| 0 <= i < rest.len() implies (#[trigger] rest[i]) < n && rest[i] != f by {
            assert(rest[i] == ids[i]);
        }
        assert forall|i: int, j: int| 0 <= i < j < rest.len() implies rest[i] != rest[j] by {
            assert(rest[i] == ids[i] && rest[j] == ids[j]);
        }
        lemma_run_accounts(files, hits, rest);
        lemma_run_elsewhere(files, hits, rest, false, f);
        runs::lemma_run_frame(files, hits, rest, false);
        runs::lemma_presence_kept(files, before, f);
        assert(runs::wanted(before, hits, f) == runs::wanted(files, hits, f));
        let now = candidates_at(files, hits, ids);
        counting::lemma_count_same(rest.len(), candidates_at(files, hits, rest), now);
        assert(now(ids.len() - 1) == runs::wanted(files, hits, f));
        let marked = runs::wanted(before, hits, f) && runs::spared(before, f);
        if marked {
            assert(after == before.update(f, model::with_mark(before[f], true)));
            assert forall|o: int| 0 <= o < n && o != f implies #[trigger] newly_marked(
                files,
                before,
            )(o) == newly_marked(files, after)(o) by {}
            counting::lemma_count_more(
                n,
                newly_marked(files, before),
                newly_marked(files, after),
                f,
            );
        } else {
            assert(after == before);
        }
        assert forall|o: int| #![trigger after[o]]
            0 <= o < n && after[o].marked && !files[o].marked implies ids.contains(o as usize)
            && runs::wanted(files, hits, o) by {
            if o == f {
                assert(ids[ids.len() - 1] == o as usize);
            } else {
                assert(before[o].marked);
                let i = rest.index_of(o as usize);
                assert(ids[i] == o as usize);
            }
        }
        assert forall|i: int| #![trigger ids[i]]
            0 <= i < ids.len() && runs::wanted(files, hits, ids[i] as int)
                && !after[ids[i] as int].marked implies !runs::spared(after, ids[i] as int) by {
            let x = ids[i] as int;
            runs::lemma_presence_kept(files, before, x);
            runs::lemma_presence_kept(files, after, x);
            if runs::spared(after, x) {
                let o = choose|o: int| #[trigger] runs::copy_of(after, x, o) && !after[o].marked;
                assert(runs::copy_of(files, x, o));
                assert(runs::copy_of(before, x, o));
                assert(!before[o].marked);
                assert(runs::spared(before, x));
                if i < rest.len() {
                    assert(rest[i] == ids[i]);
                    assert(!before[x].marked);
                }
            }
        }
    }
}

proof fn lemma_run_settled(files: Seq<DupFile>, hits: Seq<bool>, ids: Seq<FileId>)
    requires
        runs::are_files(files, ids),
        forall|i: int| #![trigger ids[i]]
            0 <= i < ids.len() && runs::wanted(files, hits, ids[i] as int) ==> !runs::spared(
                files,
                ids[i] as int,
            ),
    ensures
        runs::run(files, hits, ids, false) == files,
        runs::marks_made(files, hits, ids) == 0,
    decreases ids.len(),
{
    if ids.len() > 0 {
        let rest = ids.drop_last();
        assert forall|i: int| #![trigger rest[i]] 0 <= i < rest.len() implies rest[i] < files.len()
            && (runs::wanted(files, hits, rest[i] as int) ==> !runs::spared(
            files,
            rest[i] as int,
        )) by {
            assert(rest[i] == ids[i]);
        }
        lemma_run_settled(files, hits, rest);
        assert(ids.last() == ids[ids.len() - 1]);
    }
}

/// Which files a rule matches rests on their paths alone.
proof fn lemma_hits_kept(rule: Rule, before: Seq<DupFile>, after: Seq<DupFile>)
    requires
        runs::marked_more(before, after),
    ensures
        rule.hits(after) == rule.hits(before),
{
    assert forall|f: int| 0 <= f < after.len() implies rule.hits(after)[f] == rule.hits(
        before,
    )[f] by {
        assert(after[f].path == before[f].path);
    }
    assert(rule.hits(after) =~= rule.hits(before));
}

/// Applying a rule to the same distinct files a second time marks nothing and
/// changes nothing.
pub proof fn lemma_second_apply(rule: Rule, files: Seq<DupFile>, ids: Seq<FileId>)
    requires
        runs::are_files(files, ids),
        ids.no_duplicates(),
    ensures
        ({
            let after = runs::run(files, rule.hits(files), ids, false);
            &&& runs::run(after, rule.hits(after), ids, false) == after
            &&& runs::marks_made(after, rule.hits(after), ids) == 0
        }),
{
    let hits = rule.hits(files);
    let after = runs::run(files, hits, ids, false);
    lemma_run_accounts(files, hits, ids);
    runs::lemma_run_frame(files, hits, ids, false);
    lemma_hits_kept(rule, files, after);
    assert forall|i: int| #![trigger ids[i]]
        0 <= i < ids.len() && runs::wanted(after, hits, ids[i] as int) implies !runs::spared(
        after,
        ids[i] as int,
    ) by {
        let x = ids[i] as int;
        assert(ids[i] < files.len());
        runs::lemma_presence_kept(files, after, x);
        assert(!files[x].marked);
    }
    lemma_run_settled(after, hits, ids);
}

} // verus!
