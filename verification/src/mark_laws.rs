//! Which files rules mark and exclusions hide, told by the patterns and the paths.
use vstd::prelude::*;

use crate::globs;
use crate::model::{self, DupFile, FileId, Model};
use crate::paths;
use crate::rules::{self, Exclusions, Rule, RuleSpec};
use crate::runs;

verus! {

// -------------------------------------------------------------------- patterns

/// A text with `/` in the place of each `\`.
pub open spec fn with_slashes(text: Seq<char>) -> Seq<char> {
    Seq::new(
        text.len(),
        |i: int|
            if text[i] == '\\' {
                '/'
            } else {
                text[i]
            },
    )
}

/// A rule that was made of a pattern matches the paths that the pattern matches, as a
/// glob whose `*` stands for separators too, both with `/` for each `\`.
pub proof fn lemma_rule_matches(rule: Rule, spec: RuleSpec, ignore_case: bool, path: Seq<char>)
    requires
        rule.is_of(spec, ignore_case),
    ensures
        rule.spec == spec,
        rule.covers(path) <==> globs::glob_matches(
            with_slashes(spec.pattern@),
            false,
            ignore_case,
            false,
            with_slashes(path),
        ),
{
    assert(rules::slashed(path) =~= with_slashes(path));
    assert(rules::slashed(spec.pattern@) =~= with_slashes(spec.pattern@));
    let set = globs::set_globs(rule.matcher);
    assert(set[0] == rules::glob_text(spec.pattern@, ignore_case));
    assert(globs::covered(set, with_slashes(path)) <==> globs::glob_matches(
        set[0].0,
        set[0].1,
        set[0].2,
        set[0].3,
        with_slashes(path),
    ));
}

/// A pattern is refused exactly as the glob that it is read as, with the same message.
pub proof fn lemma_pattern_refused(pattern: Seq<char>, ignore_case: bool)
    ensures
        rules::refusal(pattern, ignore_case) == globs::glob_refusal(
            with_slashes(pattern),
            false,
            ignore_case,
            false,
        ),
{
    assert(rules::slashed(pattern) =~= with_slashes(pattern));
}

/// Whether one of some patterns matches a path.
pub open spec fn one_matches(patterns: Seq<String>, ignore_case: bool, path: Seq<char>) -> bool {
    exists|i: int|
        0 <= i < patterns.len() && globs::glob_matches(
            with_slashes((#[trigger] patterns[i])@),
            false,
            ignore_case,
            false,
            path,
        )
}

proof fn lemma_covered(
    exclusions: Exclusions,
    patterns: Seq<String>,
    ignore_case: bool,
    path: Seq<char>,
)
    requires
        exclusions@ == rules::glob_texts(patterns, ignore_case),
    ensures
        globs::covered(exclusions@, path) == one_matches(patterns, ignore_case, path),
{
    let all = exclusions@;
    assert forall|i: int| 0 <= i < patterns.len() implies (#[trigger] all[i]) == (
        with_slashes(patterns[i]@),
        false,
        ignore_case,
        false,
    ) by {
        assert(rules::slashed(patterns[i]@) =~= with_slashes(patterns[i]@));
    }
    if globs::covered(all, path) {
        let i = choose|i: int|
            0 <= i < all.len() && #[trigger] globs::glob_matches(
                all[i].0,
                all[i].1,
                all[i].2,
                all[i].3,
                path,
            );
        assert(globs::glob_matches(
            with_slashes(patterns[i]@),
            false,
            ignore_case,
            false,
            path,
        ));
    }
    if one_matches(patterns, ignore_case, path) {
        let i = choose|i: int|
            0 <= i < patterns.len() && globs::glob_matches(
                with_slashes((#[trigger] patterns[i])@),
                false,
                ignore_case,
                false,
                path,
            );
        assert(globs::glob_matches(all[i].0, all[i].1, all[i].2, all[i].3, path));
    }
}

/// Exclusions that were made of some patterns hide a file exactly where one of the
/// patterns matches its path, and a folder where one matches its path with or without
/// a separator at the end.
pub proof fn lemma_exclusions_match(
    exclusions: Exclusions,
    patterns: Seq<String>,
    ignore_case: bool,
    path: Seq<char>,
)
    requires
        Exclusions::made_of(Ok(exclusions), patterns, ignore_case),
    ensures
        exclusions.hides_file(path) <==> one_matches(patterns, ignore_case, with_slashes(path)),
        path.len() > 0 && (path.last() == '/' || path.last() == '\\') ==> (exclusions.hides_dir(path)
            <==> one_matches(patterns, ignore_case, with_slashes(path))),
        !(path.len() > 0 && (path.last() == '/' || path.last() == '\\')) ==> (exclusions.hides_dir(
            path,
        ) <==> one_matches(patterns, ignore_case, with_slashes(path)) || one_matches(
            patterns,
            ignore_case,
            with_slashes(path) + seq!['/'],
        )),
        forall|i: int| 0 <= i < patterns.len() ==> rules::refusal(
            (#[trigger] patterns[i])@,
            ignore_case,
        ) is None,
{
    assert(rules::slashed(path) =~= with_slashes(path));
    lemma_covered(exclusions, patterns, ignore_case, with_slashes(path));
    lemma_covered(exclusions, patterns, ignore_case, with_slashes(path).push('/'));
    assert(with_slashes(path).push('/') =~= with_slashes(path) + seq!['/']);
}

// ----------------------------------------------------------------------- marks

/// Whether a file is neither removed nor excluded.
pub open spec fn is_there(file: DupFile) -> bool {
    !file.removed && !file.excluded
}

proof fn lemma_reached(
    files: Seq<DupFile>,
    hits: Seq<bool>,
    ids: Seq<FileId>,
    note: bool,
    f: int,
    o: int,
)
    requires
        runs::are_files(files, ids),
        ids.contains(f as usize),
        0 <= f < files.len() <= usize::MAX,
        0 <= o < files.len(),
        o != f,
        files[o].group == files[f].group,
        is_there(files[f]),
        is_there(files[o]),
        hits[f],
        !files[o].marked,
        !hits[o],
    ensures
        runs::run(files, hits, ids, note)[f].marked,
    decreases ids.len(),
{
    let rest = ids.drop_last();
    assert forall|i: int| 0 <= i < rest.len() implies (#[trigger] rest[i]) < files.len() by {
        assert(rest[i] == ids[i]);
    }
    runs::lemma_run_frame(files, hits, rest, note);
    let before = runs::run(files, hits, rest, note);
    assert(ids.last() == ids[ids.len() - 1]);
    assert(runs::copy_of(files, f, o));
    if ids.last() == f {
        runs::lemma_presence_kept(files, before, f);
        assert(runs::copy_of(before, f, o));
        assert(before[o] == files[o]);
        assert(before[f].removed == files[f].removed);
    } else {
        let i = ids.index_of(f as usize);
        assert(rest[i] == f);
        lemma_reached(files, hits, rest, note, f, o);
    }
}

proof fn lemma_marked_was_reached(
    files: Seq<DupFile>,
    hits: Seq<bool>,
    ids: Seq<FileId>,
    note: bool,
    f: int,
)
    requires
        runs::are_files(files, ids),
        0 <= f < files.len() <= usize::MAX,
        runs::run(files, hits, ids, note)[f] != files[f],
    ensures
        ids.contains(f as usize),
        hits[f],
        is_there(files[f]),
        !files[f].marked,
    decreases ids.len(),
{
    runs::lemma_run_frame(files, hits, ids, note);
    if ids.len() > 0 {
        let rest = ids.drop_last();
        let before = runs::run(files, hits, rest, note);
        assert forall|i: int| 0 <= i < rest.len() implies (#[trigger] rest[i]) < files.len() by {
            assert(rest[i] == ids[i]);
        }
        assert(ids.last() == ids[ids.len() - 1]);
        runs::lemma_run_frame(files, hits, rest, note);
        if before[f] != files[f] {
            lemma_marked_was_reached(files, hits, rest, note, f);
            let i = rest.index_of(f as usize);
            assert(ids[i] == f as usize);
        } else {
            assert(ids[ids.len() - 1] == f as usize);
        }
    }
}

/// A rule that is applied to some files marks each of them that it matches and that
/// is there, where another copy is there that is not marked and that it does not
/// match.
pub proof fn lemma_apply_marks(rule: Rule, model: Model, ids: Seq<FileId>, f: int, o: int)
    requires
        model.wf(),
        runs::are_files(model.files@, ids),
        ids.contains(f as usize),
        0 <= f < model.files@.len(),
        0 <= o < model.files@.len(),
        o != f,
        model.files@[o].group == model.files@[f].group,
        is_there(model.files@[f]),
        is_there(model.files@[o]),
        !model.files@[o].marked,
        rule.covers(model.files@[f].path@),
        !rule.covers(model.files@[o].path@),
    ensures
        runs::run(model.files@, rule.hits(model.files@), ids, false)[f].marked,
{
    assert(model.files@.len() == model.files.len());
    lemma_reached(model.files@, rule.hits(model.files@), ids, false, f, o);
}

/// A rule that is applied changes only files that it is applied to, that it matches,
/// that are there and that are not marked, and of them only marks.
pub proof fn lemma_apply_marks_only(rule: Rule, model: Model, ids: Seq<FileId>, f: int)
    requires
        model.wf(),
        runs::are_files(model.files@, ids),
        0 <= f < model.files@.len(),
    ensures
        ({
            let before = model.files@[f];
            let after = runs::run(model.files@, rule.hits(model.files@), ids, false)[f];
            &&& after != before ==> ids.contains(f as usize) && rule.covers(before.path@) && is_there(
                before,
            ) && !before.marked
            &&& after.path == before.path
            &&& after.group == before.group
            &&& after.node == before.node
            &&& after.removed == before.removed
            &&& after.excluded == before.excluded
        }),
{
    let hits = rule.hits(model.files@);
    let after = runs::run(model.files@, hits, ids, false);
    assert(model.files@.len() == model.files.len());
    runs::lemma_run_frame(model.files@, hits, ids, false);
    assert(after[f].path == model.files@[f].path);
    if after[f] != model.files@[f] {
        lemma_marked_was_reached(model.files@, hits, ids, false, f);
    }
}

proof fn lemma_candidate(model: Model, new_files: Seq<FileId>, count: nat, f: int)
    requires
        model.wf(),
        runs::are_files(model.files@, new_files),
        count <= new_files.len(),
        0 <= f < model.files@.len(),
        model.files@[f].rule_pending,
        !new_files.contains(f as usize),
        exists|i: int|
            0 <= i < count && model.files@[#[trigger] new_files[i] as int].group
                == model.files@[f].group,
    ensures
        model.retried(new_files, count).contains(f as usize),
    decreases count,
{
    let files = model.files@;
    let g = files[f].group;
    let earlier = model.retried(new_files, (count - 1) as nat);
    let all = model.retried(new_files, count);
    let i = choose|i: int| 0 <= i < count && files[#[trigger] new_files[i] as int].group == g;
    if exists|i: int| 0 <= i < count - 1 && files[#[trigger] new_files[i] as int].group == g {
        lemma_candidate(model, new_files, (count - 1) as nat, f);
        let k = earlier.index_of(f as usize);
        assert(all[k] == f as usize);
    } else {
        assert(i == count - 1);
        let members = model.groups@[g as int].files@;
        let pred = |o: FileId| files[o as int].rule_pending && !new_files.contains(o);
        assert(members.contains(f as usize));
        members.lemma_filter_contains(pred, members.index_of(f as usize));
        let found = rules::waiting(members, files, new_files);
        let j = found.index_of(f as usize);
        assert(all[earlier.len() + j] == f as usize);
    }
}

proof fn lemma_candidate_rev(model: Model, new_files: Seq<FileId>, count: nat, f: FileId)
    requires
        model.wf(),
        runs::are_files(model.files@, new_files),
        count <= new_files.len(),
        model.retried(new_files, count).contains(f),
    ensures
        f < model.files@.len(),
        model.files@[f as int].rule_pending,
        exists|i: int|
            0 <= i < count && model.files@[#[trigger] new_files[i] as int].group
                == model.files@[f as int].group,
    decreases count,
{
    let files = model.files@;
    if count > 0 {
        let g = files[new_files[count - 1] as int].group;
        let earlier = model.retried(new_files, (count - 1) as nat);
        let all = model.retried(new_files, count);
        let k = all.index_of(f);
        assert(new_files[count - 1] < files.len());
        if k < earlier.len() {
            assert(earlier.contains(earlier[k]));
            lemma_candidate_rev(model, new_files, (count - 1) as nat, f);
        } else {
            let members = model.groups@[g as int].files@;
            let pred = |o: FileId| files[o as int].rule_pending && !new_files.contains(o);
            let found = rules::waiting(members, files, new_files);
            assert(found[k - earlier.len()] == f);
            members.lemma_filter_pred(pred, k - earlier.len());
            members.lemma_filter_contains_rev(pred, f);
            let j = members.index_of(f);
            assert(model.groups@[g as int].files@[j] == f);
        }
    }
}

/// When files are found, a file that one of the rules that apply by themselves
/// matches, whichever of them it is, is marked, where it is one of the new files, or
/// waits for a copy and one of the new files is of its group; provided that another
/// copy is there that is not marked and that no such rule matches.
pub proof fn lemma_continuous_marks(
    rules: Seq<Rule>,
    i: int,
    model: Model,
    new_files: Seq<FileId>,
    f: int,
    o: int,
)
    requires
        model.wf(),
        runs::are_files(model.files@, new_files),
        0 <= i < rules.len(),
        rules[i].spec.continuous,
        rules[i].covers(model.files@[f].path@),
        0 <= f < model.files@.len(),
        0 <= o < model.files@.len(),
        o != f,
        model.files@[o].group == model.files@[f].group,
        is_there(model.files@[f]),
        is_there(model.files@[o]),
        !model.files@[o].marked,
        forall|j: int|
            0 <= j < rules.len() && (#[trigger] rules[j]).spec.continuous ==> !rules[j].covers(
                model.files@[o].path@,
            ),
        new_files.contains(f as usize) || (model.files@[f].rule_pending && exists|k: int|
            0 <= k < new_files.len() && model.files@[#[trigger] new_files[k] as int].group
                == model.files@[f].group),
    ensures
        runs::run(
            model.files@,
            rules::continuous_hits(rules, model.files@),
            model.candidates(new_files),
            true,
        )[f].marked,
{
    let files = model.files@;
    let hits = rules::continuous_hits(rules, files);
    let ids = model.candidates(new_files);
    let n = new_files.len();
    assert(files.len() == model.files.len());
    assert(hits[f]);
    assert(!hits[o]) by {
        if hits[o] {
            let j = choose|j: int|
                0 <= j < rules.len() && rules[j].spec.continuous && #[trigger] rules[j].covers(
                    files[o].path@,
                );
            assert(rules[j].spec.continuous);
        }
    }
    if new_files.contains(f as usize) {
        let k = new_files.index_of(f as usize);
        assert(ids[k] == f as usize);
    } else {
        lemma_candidate(model, new_files, n, f);
        let k = model.retried(new_files, n).index_of(f as usize);
        assert(ids[n + k] == f as usize);
    }
    rules::lemma_candidates(model, new_files);
    lemma_reached(files, hits, ids, true, f, o);
}

/// When files are found, rules that apply by themselves change only files that one of
/// them matches, that are there and not marked, and that are new or wait for a copy in
/// the group of a new one.
pub proof fn lemma_continuous_marks_only(
    rules: Seq<Rule>,
    model: Model,
    new_files: Seq<FileId>,
    f: int,
)
    requires
        model.wf(),
        runs::are_files(model.files@, new_files),
        0 <= f < model.files@.len(),
        runs::run(
            model.files@,
            rules::continuous_hits(rules, model.files@),
            model.candidates(new_files),
            true,
        )[f] != model.files@[f],
    ensures
        exists|i: int|
            0 <= i < rules.len() && rules[i].spec.continuous && #[trigger] rules[i].covers(
                model.files@[f].path@,
            ),
        is_there(model.files@[f]),
        !model.files@[f].marked,
        new_files.contains(f as usize) || (model.files@[f].rule_pending && exists|k: int|
            0 <= k < new_files.len() && model.files@[#[trigger] new_files[k] as int].group
                == model.files@[f].group),
{
    let files = model.files@;
    let hits = rules::continuous_hits(rules, files);
    let ids = model.candidates(new_files);
    let n = new_files.len();
    assert(files.len() == model.files.len());
    rules::lemma_candidates(model, new_files);
    lemma_marked_was_reached(files, hits, ids, true, f);
    let k = ids.index_of(f as usize);
    if k < n {
        assert(new_files[k] == f as usize);
    } else {
        let more = model.retried(new_files, n);
        assert(more[k - n] == f as usize);
        lemma_candidate_rev(model, new_files, n, f as usize);
    }
}

proof fn lemma_noted(files: Seq<DupFile>, hits: Seq<bool>, ids: Seq<FileId>, f: int, o: int)
    requires
        runs::are_files(files, ids),
        ids.contains(f as usize),
        0 <= f < files.len() <= usize::MAX,
        0 <= o < files.len(),
        o != f,
        files[o].group == files[f].group,
        is_there(files[f]),
        is_there(files[o]),
        hits[f],
        !runs::run(files, hits, ids, true)[f].marked,
    ensures
        runs::run(files, hits, ids, true)[f].rule_pending,
    decreases ids.len(),
{
    let rest = ids.drop_last();
    assert forall|i: int| 0 <= i < rest.len() implies (#[trigger] rest[i]) < files.len() by {
        assert(rest[i] == ids[i]);
    }
    runs::lemma_run_frame(files, hits, rest, true);
    runs::lemma_run_frame(files, hits, ids, true);
    let before = runs::run(files, hits, rest, true);
    assert(ids.last() == ids[ids.len() - 1]);
    assert(runs::copy_of(files, f, o));
    runs::lemma_presence_kept(files, before, f);
    assert(runs::copy_of(before, f, o));
    assert(before[f].removed == files[f].removed);
    if ids.last() != f {
        let i = ids.index_of(f as usize);
        assert(rest[i] == f);
        lemma_noted(files, hits, rest, f, o);
    }
}

/// A new file that a rule that applies by itself matches, and that is not marked in
/// the end, waits for a copy, where another copy is there.
pub proof fn lemma_spared_waits(
    rules: Seq<Rule>,
    i: int,
    model: Model,
    new_files: Seq<FileId>,
    f: int,
    o: int,
)
    requires
        model.wf(),
        runs::are_files(model.files@, new_files),
        0 <= i < rules.len(),
        rules[i].spec.continuous,
        rules[i].covers(model.files@[f].path@),
        new_files.contains(f as usize),
        0 <= f < model.files@.len(),
        0 <= o < model.files@.len(),
        o != f,
        model.files@[o].group == model.files@[f].group,
        is_there(model.files@[f]),
        is_there(model.files@[o]),
    ensures
        ({
            let after = runs::run(
                model.files@,
                rules::continuous_hits(rules, model.files@),
                model.candidates(new_files),
                true,
            );
            after[f].marked || after[f].rule_pending
        }),
{
    let files = model.files@;
    let hits = rules::continuous_hits(rules, files);
    let ids = model.candidates(new_files);
    assert(files.len() == model.files.len());
    assert(hits[f]);
    let k = new_files.index_of(f as usize);
    assert(ids[k] == f as usize);
    rules::lemma_candidates(model, new_files);
    if !runs::run(files, hits, ids, true)[f].marked {
        lemma_noted(files, hits, ids, f, o);
    }
}

// ---------------------------------------------------------------------- hiding

proof fn lemma_under_is_start(model: Model, n: int, m: int)
    requires
        model.wf(),
        0 <= n < model.nodes@.len(),
        0 <= m < model.nodes@.len(),
        model::under(model.nodes@, n, m),
    ensures
        0 < model.parts(m).len() <= model.parts(n).len(),
        model.parts(n).take(model.parts(m).len() as int) == model.parts(m),
    decreases n,
{
    reveal(model::tree_wf);
    let nodes = model.nodes@;
    assert(nodes[n].children.wf() && nodes[m].children.wf());
    if n == m {
        assert(model.parts(n).take(model.parts(n).len() as int) =~= model.parts(n));
    } else {
        let p = nodes[n].parent->0 as int;
        lemma_under_is_start(model, p, m);
        assert(model.parts(n).take(model.parts(m).len() as int) =~= model.parts(p).take(
            model.parts(m).len() as int,
        ));
    }
}

proof fn lemma_start_is_above(model: Model, n: int, count: int) -> (m: int)
    requires
        model.wf(),
        0 <= n < model.nodes@.len(),
        0 < count <= model.parts(n).len(),
    ensures
        0 <= m < model.nodes@.len(),
        model::under(model.nodes@, n, m),
        model.parts(m) == model.parts(n).take(count),
    decreases n,
{
    reveal(model::tree_wf);
    let nodes = model.nodes@;
    assert(nodes[n].children.wf());
    if count == model.parts(n).len() {
        assert(model.parts(n).take(count) =~= model.parts(n));
        n
    } else {
        let p = nodes[n].parent->0 as int;
        let m = lemma_start_is_above(model, p, count);
        assert(model.parts(n).take(count) =~= model.parts(p).take(count));
        m
    }
}

/// A folder is hidden where its path is, or that of one of the folders that hold it.
pub proof fn lemma_node_hidden(model: Model, excl: Exclusions, n: int)
    requires
        model.wf(),
        0 <= n < model.nodes@.len(),
    ensures
        model.hidden_node(excl, n) <==> exists|k: int|
            0 < k <= model.parts(n).len() && excl.hides_dir(
                #[trigger] paths::joined(model.parts(n).take(k)),
            ),
{
    let parts = model.parts(n);
    if model.hidden_node(excl, n) {
        let m = choose|m: int|
            0 <= m < model.nodes@.len() && #[trigger] model::under(model.nodes@, n, m)
                && excl.hides_dir(paths::joined(model.parts(m)));
        lemma_under_is_start(model, n, m);
        let k = model.parts(m).len() as int;
        assert(excl.hides_dir(paths::joined(parts.take(k))));
    }
    if exists|k: int|
        0 < k <= parts.len() && excl.hides_dir(#[trigger] paths::joined(parts.take(k))) {
        let k = choose|k: int|
            0 < k <= parts.len() && excl.hides_dir(#[trigger] paths::joined(parts.take(k)));
        let m = lemma_start_is_above(model, n, k);
        assert(model::under(model.nodes@, n, m));
    }
}

/// Whether some exclusions hide a path: the path itself, or one of the folders that
/// lead to it, the outermost first.
pub open spec fn path_hidden(excl: Exclusions, path: Seq<char>) -> bool {
    ||| excl.hides_file(path)
    ||| exists|k: int|
        0 < k < paths::components(path).len() && excl.hides_dir(
            #[trigger] paths::joined(paths::components(path).take(k)),
        )
}

/// A file is hidden exactly where the exclusions hide its path, by itself or by one of
/// the folders that lead to it. It loses its mark when it becomes hidden, and nothing
/// else of it changes.
pub proof fn lemma_hidden_by_path(model: Model, excl: Exclusions, f: int)
    requires
        model.wf(),
        0 <= f < model.files@.len(),
    ensures
        model.hidden(excl, f) <==> path_hidden(excl, model.files@[f].path@),
        ({
            let before = model.files@[f];
            let after = model.with_exclusions(excl, f);
            &&& after.excluded == path_hidden(excl, before.path@)
            &&& after.marked == (before.marked && (before.excluded || !after.excluded))
            &&& after.path == before.path
            &&& after.group == before.group
            &&& after.node == before.node
            &&& after.removed == before.removed
            &&& after.rule_pending == before.rule_pending
        }),
{
    let path = model.files@[f].path@;
    let n = model.files@[f].node as int;
    let parts = paths::components(path);
    assert(model.parts(n) == parts.drop_last());
    if model.hidden_node(excl, n) {
        let m = choose|m: int|
            0 <= m < model.nodes@.len() && #[trigger] model::under(model.nodes@, n, m)
                && excl.hides_dir(paths::joined(model.parts(m)));
        lemma_under_is_start(model, n, m);
        let k = model.parts(m).len() as int;
        assert(parts.take(k) =~= parts.drop_last().take(k));
        assert(excl.hides_dir(paths::joined(parts.take(k))));
    }
    if exists|k: int|
        0 < k < parts.len() && excl.hides_dir(#[trigger] paths::joined(parts.take(k))) {
        let k = choose|k: int|
            0 < k < parts.len() && excl.hides_dir(#[trigger] paths::joined(parts.take(k)));
        let m = lemma_start_is_above(model, n, k);
        assert(parts.take(k) =~= parts.drop_last().take(k));
        assert(model::under(model.nodes@, n, m));
    }
}

/// A folder holds another, or is the same, exactly where its path is the beginning of
/// the path of the other.
pub proof fn lemma_under_by_parts(model: Model, n: int, m: int)
    requires
        model.wf(),
        0 <= n < model.nodes@.len(),
        0 <= m < model.nodes@.len(),
    ensures
        model::under(model.nodes@, n, m) <==> model.parts(m).len() <= model.parts(n).len()
            && model.parts(n).take(model.parts(m).len() as int) == model.parts(m),
{
    reveal(model::tree_wf);
    assert(model.nodes@[m].children.wf());
    if model::under(model.nodes@, n, m) {
        lemma_under_is_start(model, n, m);
    }
    if model.parts(m).len() <= model.parts(n).len() && model.parts(n).take(
        model.parts(m).len() as int,
    ) == model.parts(m) {
        assert(model.parts(m).len() > 0);
        let k = lemma_start_is_above(model, n, model.parts(m).len() as int);
        assert(model.nodes@.len() == model.nodes.len());
        crate::tree::lemma_one_folder(model.nodes@, model.roots, k, m);
    }
}

} // verus!
