//! What the values that pass between the parts of the library stand for.
use vstd::prelude::*;

use crate::counting;
use crate::deletion::{self, DeleteGroup, DeleteMsg, GroupPaths};
use crate::globs;
use crate::mark_laws;
use crate::model::{self, DupFile, FileId, Model, Tally};
use crate::paths;
use crate::preview::{self, PreviewKind, Shown};
use crate::removal::{Deed, DeleteAction, DeleteRun, RunState};
use crate::rules::{self, Exclusions, Rule, RuleSpec};
use crate::runs;
use crate::scanner::{self, Job, News, Scan, ScanEvent, ScanProgress, ScanState, Task};
use crate::session;
use crate::state_laws;
use crate::text;

verus! {

// -------------------------------------------------------------------- deletions

/// What each action of a deletion does.
pub proof fn lemma_actions(path: String, other: String, to_trash: bool, size: u64)
    ensures
        DeleteAction::MeasureTarget(path)@ == Deed::MeasureTarget(path@),
        DeleteAction::MeasureKeeper(path)@ == Deed::MeasureKeeper(path@),
        DeleteAction::Compare(path, other)@ == Deed::Compare(path@, other@),
        DeleteAction::Delete(path, to_trash)@ == Deed::Delete(path@, to_trash),
        DeleteAction::Send(DeleteMsg::Done(path, Ok(size)))@ == Deed::Report(path@, Ok(size)),
        DeleteAction::Send(DeleteMsg::Done(path, Err(other)))@ == Deed::Report(
            path@,
            Err(other@),
        ),
        DeleteAction::Send(DeleteMsg::Finished)@ == Deed::Finish,
        DeleteAction::Stop@ == Deed::Stop,
{
}

/// Where a deletion stands is what it holds.
pub proof fn lemma_run_view(run: DeleteRun)
    ensures
        run@.use_trash == run.use_trash,
        run@.verify == run.verify,
        run@.group == run.group,
        run@.target == run.target,
        run@.phase == run.phase,
        run@.groups == deletion::group_paths(run.groups@),
{
}

/// A deletion begins with the groups and the choices that it is given.
pub proof fn lemma_run_begins(groups: Seq<GroupPaths>, use_trash: bool, verify: bool)
    ensures
        ({
            let run = RunState::initial(groups, use_trash, verify);
            &&& run.groups == groups
            &&& run.use_trash == use_trash
            &&& run.verify == verify
            &&& run.phase is Ready
            &&& run.group == 0
            &&& run.target == 0
            &&& run.wf()
        }),
{
}

/// The paths of groups are those that they hold, in order.
pub proof fn lemma_group_paths(groups: Seq<DeleteGroup>, g: int, k: int)
    requires
        0 <= g < groups.len(),
    ensures
        deletion::group_paths(groups).len() == groups.len(),
        deletion::group_paths(groups)[g].0.len() == groups[g].keepers@.len(),
        deletion::group_paths(groups)[g].1.len() == groups[g].targets@.len(),
        0 <= k < groups[g].keepers@.len() ==> deletion::group_paths(groups)[g].0[k]
            == groups[g].keepers@[k]@,
        0 <= k < groups[g].targets@.len() ==> deletion::group_paths(groups)[g].1[k]
            == groups[g].targets@[k]@,
{
}

/// The texts of some strings are what they hold, in order.
pub proof fn lemma_texts(list: Seq<String>, i: int)
    requires
        0 <= i < list.len(),
    ensures
        text::texts(list).len() == list.len(),
        text::texts(list)[i] == list[i]@,
{
}

// --------------------------------------------------------------------- searches

/// What each job asks for and each event tells.
pub proof fn lemma_jobs_and_events(
    id: usize,
    path: String,
    size: u64,
    key: u64,
    files: Vec<String>,
    progress: ScanProgress,
    cancelled: bool,
)
    ensures
        Job::Partial(id, path, size)@ == Task::Partial(id, path@, size),
        Job::Full(id, path)@ == Task::Full(id, path@),
        (ScanEvent::NewGroup { key, size, files })@ == News::NewGroup(
            key,
            size,
            text::texts(files@),
        ),
        (ScanEvent::AddToGroup { key, file: path })@ == News::AddToGroup(key, path@),
        ScanEvent::Progress(progress)@ == News::Progress(progress),
        ScanEvent::Error(path)@ == News::Error(path@),
        (ScanEvent::Finished { cancelled })@ == News::Finished(cancelled),
{
}

/// Jobs and events stand for what they ask for and tell, one by one.
pub proof fn lemma_job_lists(jobs: Seq<Job>, events: Seq<ScanEvent>, i: int)
    ensures
        scanner::tasks(jobs).len() == jobs.len(),
        scanner::news(events).len() == events.len(),
        0 <= i < jobs.len() ==> scanner::tasks(jobs)[i] == jobs[i]@,
        0 <= i < events.len() ==> scanner::news(events)[i] == events[i]@,
{
}

/// Where a search stands is what it holds.
pub proof fn lemma_scan_view(scan: Scan, i: int)
    ensures
        scan@.files.len() == scan.paths@.len(),
        0 <= i < scan.paths@.len() ==> scan@.files[i] == (scan.paths@[i]@, scan.sizes@[i]),
        scan@.data == scan.data@,
        scan@.by_size == scan.by_size@,
        scan@.by_partial == scan.by_partial@,
        scan@.by_full == scan.by_full@,
        scan@.progress == scan.progress,
        scan@.pending == scan.pending,
{
}

/// A search begins with nothing found, read or open, and the folders to be gone through.
pub proof fn lemma_scan_begins()
    ensures
        ScanState::initial().files.len() == 0,
        ScanState::initial().data == Set::<u128>::empty(),
        ScanState::initial().by_size.len() == 0,
        ScanState::initial().by_partial.len() == 0,
        ScanState::initial().by_full.len() == 0,
        ScanState::initial().pending == 0,
        ScanState::initial().progress == (ScanProgress {
            files_seen: 0,
            bytes_seen: 0,
            files_hashed: 0,
            bytes_hashed: 0,
            pending_jobs: 0,
            walking: true,
        }),
{
}

// ---------------------------------------------------------------------- results

/// Results begin with nothing in them.
pub proof fn lemma_results_begin(model: Model)
    requires
        model.is_new(),
    ensures
        model.files@.len() == 0,
        model.groups@.len() == 0,
        model.nodes@.len() == 0,
        model.roots@.len() == 0,
        model.totals.total == 0,
        model.totals.delete == 0,
        model.totals.keep == 0,
        model.totals.conflict == 0,
        model.totals.delete_bytes == 0,
        model.visible_groups == 0,
        model.wasted_bytes == 0,
        !model.dirty,
        forall|key: u64| !#[trigger] model.keys().contains_key(key),
        forall|path: Seq<char>| !#[trigger] model.knows(path),
{
    assert(model.totals@ == Tally::zero());
}

/// A mark that is set or taken is all that changes of a file, but that the file no longer
/// waits for a copy.
pub proof fn lemma_with_mark(file: DupFile, marked: bool)
    ensures
        model::with_mark(file, marked).marked == marked,
        !model::with_mark(file, marked).rule_pending,
        model::with_mark(file, marked).path == file.path,
        model::with_mark(file, marked).group == file.group,
        model::with_mark(file, marked).node == file.node,
        model::with_mark(file, marked).removed == file.removed,
        model::with_mark(file, marked).excluded == file.excluded,
{
}

/// Where one file alone changes, all others stay as they are.
pub proof fn lemma_only_file(before: Model, after: Model, f: int, now: DupFile, o: int)
    requires
        after.only_file(before, f, now),
        0 <= f < before.files@.len(),
        0 <= o < before.files@.len(),
    ensures
        after.files@.len() == before.files@.len(),
        after.files@[f] == now,
        o != f ==> after.files@[o] == before.files@[o],
        after.groups == before.groups,
        after.nodes == before.nodes,
        after.totals == before.totals,
{
}

/// Where nothing but the marks of files differs, what else is known of them and the rest
/// of the results stay as they are.
pub proof fn lemma_same_but_files(before: Model, after: Model, f: int)
    requires
        after.same_but_files(before),
        0 <= f < before.files@.len(),
    ensures
        after.files@.len() == before.files@.len(),
        after.files@[f].path == before.files@[f].path,
        after.files@[f].group == before.files@[f].group,
        after.files@[f].node == before.files@[f].node,
        after.groups == before.groups,
        after.nodes == before.nodes,
        after.roots == before.roots,
        after.totals == before.totals,
        after.visible_groups == before.visible_groups,
        after.wasted_bytes == before.wasted_bytes,
        after.generation == before.generation,
{
}

/// A copy is left of a file where another is there and unmarked.
pub proof fn lemma_spare(model: Model, f: int)
    ensures
        model.spare(f) <==> exists|o: int| #[trigger]
            state_laws::is_copy(model.files@, f, o) && !model.files@[o].marked,
{
    if model.spare(f) {
        let o = choose|o: int| #[trigger] model.other(f, o) && !model.files@[o].marked;
        assert(state_laws::is_copy(model.files@, f, o));
    }
    if exists|o: int| #[trigger]
        state_laws::is_copy(model.files@, f, o) && !model.files@[o].marked {
        let o = choose|o: int| #[trigger]
            state_laws::is_copy(model.files@, f, o) && !model.files@[o].marked;
        assert(model.other(f, o));
    }
}

/// Whether a file is shown in a folder itself rests on its folder and on whether it is
/// shown.
pub proof fn lemma_directly_shown(model: Model, n: int, f: int)
    ensures
        model.shown_directly(n)(f) <==> state_laws::is_shown(model.files@, f)
            && model.files@[f].node == n,
{
    state_laws::lemma_status(model, f);
}

/// Results can be counted where the bytes that can be got back can be held.
pub proof fn lemma_sums_fit(model: Model)
    requires
        model.wf(),
    ensures
        model.sums_fit() <==> model.generation < u64::MAX && counting::total(
            model.groups@.len(),
            |g: int| state_laws::spare_bytes(model, g),
        ) <= u64::MAX,
{
    state_laws::lemma_waste(model);
}

/// Files that are there are picked from a list in order: one more is where it is neither
/// removed nor excluded.
pub proof fn lemma_alive_among(ids: Seq<FileId>, files: Seq<DupFile>, f: FileId)
    ensures
        model::alive_among(Seq::<FileId>::empty(), files).len() == 0,
        model::alive_among(ids.push(f), files) == if files[f as int].removed
            || files[f as int].excluded {
            model::alive_among(ids, files)
        } else {
            model::alive_among(ids, files).push(f)
        },
{
    reveal(Seq::filter);
    assert(ids.push(f).drop_last() =~= ids);
}

/// A folder is hidden where its path is, or that of one of the folders that hold it.
pub proof fn lemma_folder_hidden(model: Model, excl: Exclusions, n: int)
    requires
        model.wf(),
        0 <= n < model.nodes@.len(),
    ensures
        model.hidden_node(excl, n) <==> exists|k: int|
            0 < k <= model.parts(n).len() && excl.hides_dir(
                #[trigger] paths::joined(model.parts(n).take(k)),
            ),
{
    mark_laws::lemma_node_hidden(model, excl, n);
}

// ------------------------------------------------------------------------ rules

/// Separators are read alike: each `\` stands for `/`.
pub proof fn lemma_slashed(path: Seq<char>, i: int)
    requires
        0 <= i < path.len(),
    ensures
        rules::slashed(path).len() == path.len(),
        rules::slashed(path)[i] == if path[i] == '\\' {
            '/'
        } else {
            path[i]
        },
{
}

/// Putting one character in the place of another changes no other.
pub proof fn lemma_replaced(text: Seq<char>, from: char, to: char, i: int)
    requires
        0 <= i < text.len(),
    ensures
        text::replaced(text, from, to).len() == text.len(),
        text::replaced(text, from, to)[i] == if text[i] == from {
            to
        } else {
            text[i]
        },
{
}

/// A text begins with another where they agree as far as the other goes.
pub proof fn lemma_begins_with(text: Seq<char>, start: Seq<char>)
    ensures
        text::begins_with(text, start) <==> start.len() <= text.len() && forall|i: int|
            #![trigger start[i]]
            0 <= i < start.len() ==> text[i] == start[i],
{
    if text::begins_with(text, start) {
        assert forall|i: int| #![trigger start[i]] 0 <= i < start.len() implies text[i]
            == start[i] by {
            assert(text.take(start.len() as int)[i] == text[i]);
        }
    }
    if start.len() <= text.len() && forall|i: int| #![trigger start[i]]
        0 <= i < start.len() ==> text[i] == start[i] {
        assert(text.take(start.len() as int) =~= start);
    }
}

/// A rule that was made holds its pattern and has done nothing; a pattern that is refused
/// is refused with its message, and one that is not only where building its set failed.
pub proof fn lemma_rule_made(result: Result<Rule, String>, spec: RuleSpec, ignore_case: bool)
    requires
        Rule::made_of(result, spec, ignore_case),
    ensures
        ({
            let refused = globs::glob_refusal(
                mark_laws::with_slashes(spec.pattern@),
                false,
                ignore_case,
                false,
            );
            match result {
                Ok(rule) => refused is None && rule.spec == spec && rule.last_result is None,
                Err(message) => match refused {
                    Some(m) => message@ == m,
                    None => globs::build_failed(
                        seq![
                            (mark_laws::with_slashes(spec.pattern@), false, ignore_case, false),
                        ],
                        message@,
                    ),
                },
            }
        }),
{
    mark_laws::lemma_pattern_refused(spec.pattern@, ignore_case);
    assert(rules::slashed(spec.pattern@) =~= mark_laws::with_slashes(spec.pattern@));
}

/// Exclusions are made of patterns none of which is refused; where none is, they fail to
/// be made only because building the set of just these patterns failed.
pub proof fn lemma_exclusions_made(
    result: Result<Exclusions, String>,
    patterns: Seq<String>,
    ignore_case: bool,
)
    requires
        Exclusions::made_of(result, patterns, ignore_case),
        forall|i: int|
            0 <= i < patterns.len() ==> globs::glob_refusal(
                mark_laws::with_slashes((#[trigger] patterns[i])@),
                false,
                ignore_case,
                false,
            ) is None,
    ensures
        match result {
            Ok(exclusions) => exclusions@.len() == patterns.len(),
            Err(message) => globs::build_failed(
                Seq::new(
                    patterns.len(),
                    |i: int| (mark_laws::with_slashes(patterns[i]@), false, ignore_case, false),
                ),
                message@,
            ),
        },
{
    assert forall|i: int| 0 <= i < patterns.len() implies rules::refusal(
        (#[trigger] patterns[i])@,
        ignore_case,
    ) is None by {
        mark_laws::lemma_pattern_refused(patterns[i]@, ignore_case);
    }
    let texts = Seq::new(
        patterns.len(),
        |i: int| (mark_laws::with_slashes(patterns[i]@), false, ignore_case, false),
    );
    assert forall|i: int| 0 <= i < patterns.len() implies #[trigger] texts[i]
        == rules::glob_texts(patterns, ignore_case)[i] by {
        assert(rules::slashed(patterns[i]@) =~= mark_laws::with_slashes(patterns[i]@));
    }
    assert(texts =~= rules::glob_texts(patterns, ignore_case));
}

/// Of patterns one of which is refused, the first refused one refuses them all, with its
/// message.
pub proof fn lemma_exclusions_refused(
    result: Result<Exclusions, String>,
    patterns: Seq<String>,
    ignore_case: bool,
    i: int,
)
    requires
        Exclusions::made_of(result, patterns, ignore_case),
        0 <= i < patterns.len(),
        rules::refusal(patterns[i]@, ignore_case) is Some,
        forall|j: int|
            0 <= j < i ==> rules::refusal((#[trigger] patterns[j])@, ignore_case) is None,
    ensures
        result is Err,
        Some(result->Err_0@) == rules::refusal(patterns[i]@, ignore_case),
{
    assert(rules::first_refused(patterns, ignore_case, i));
    if result is Ok {
        assert(rules::refusal(patterns[i]@, ignore_case) is None);
    }
}

/// A stored pattern is kept where it makes exclusions by itself: it is not refused. It is
/// dropped only where it is refused or building its set failed.
pub proof fn lemma_tried_alone(pattern: String, fits: bool) -> (ignore_case: bool)
    requires
        session::tried_alone(pattern, fits),
    ensures
        rules::system_case(ignore_case),
        fits ==> rules::refusal(pattern@, ignore_case) is None,
        !fits && rules::refusal(pattern@, ignore_case) is None ==> exists|message: Seq<char>|
            #[trigger] globs::build_failed(
                seq![(mark_laws::with_slashes(pattern@), false, ignore_case, false)],
                message,
            ),
{
    let (ignore_case, made) = choose|ignore_case: bool, made: Result<Exclusions, String>|
        #[trigger] Exclusions::made_of(made, seq![pattern], ignore_case) && rules::system_case(
            ignore_case,
        ) && fits == made is Ok;
    let patterns = seq![pattern];
    assert(patterns[0] == pattern);
    mark_laws::lemma_pattern_refused(pattern@, ignore_case);
    if !fits && rules::refusal(pattern@, ignore_case) is None {
        lemma_exclusions_made(made, patterns, ignore_case);
        assert(Seq::new(
            patterns.len(),
            |i: int| (mark_laws::with_slashes(patterns[i]@), false, ignore_case, false),
        ) =~= seq![(mark_laws::with_slashes(pattern@), false, ignore_case, false)]);
    }
    ignore_case
}

/// A rule is made of what is stored: its pattern, and whether it applies by itself.
pub proof fn lemma_made_of_stored(made: Result<Rule, String>, stored: RuleSpec)
    requires
        session::made_of_stored(made, stored),
    ensures
        made matches Ok(rule) ==> rule.spec.pattern@ == stored.pattern@ && rule.spec.continuous
            == stored.continuous,
        exists|ignore_case: bool| #[trigger]
            rules::system_case(ignore_case) && (made is Ok ==> rules::refusal(
                stored.pattern@,
                ignore_case,
            ) is None),
{
    let (spec, ignore_case) = choose|spec: RuleSpec, ignore_case: bool|
        spec.pattern@ == stored.pattern@ && spec.continuous == stored.continuous
            && #[trigger] Rule::made_of(made, spec, ignore_case) && rules::system_case(ignore_case);
    assert(rules::system_case(ignore_case));
}

/// A text is among some where one of them is the same.
pub proof fn lemma_has_text(list: Seq<String>, pattern: Seq<char>)
    ensures
        session::has_text(list, pattern) <==> exists|i: int| #![trigger list[i]]
            0 <= i < list.len() && list[i]@ == pattern,
{
}

// --------------------------------------------------------------------- previews

/// What is shown of a file is what was made of it.
pub proof fn lemma_shown(words: String, truncated: bool)
    ensures
        PreviewKind::Image(words)@ == Shown::Image(words@),
        (PreviewKind::Text { content: words, truncated })@ == Shown::Text(words@, truncated),
        PreviewKind::Binary(words)@ == Shown::Binary(words@),
        PreviewKind::Error(words)@ == Shown::Error(words@),
{
}

/// A file without an extension is not shown as an image; one with another extension than
/// of ASCII characters is where the extension in lower case is one of nine.
pub proof fn lemma_other_images(path: Seq<char>)
    ensures
        paths::extension_of(path) is None ==> !preview::shows_image(path),
        paths::extension_of(path) is Some && !preview::all_ascii(paths::extension_of(path)->0) ==> (
        preview::shows_image(path) <==> preview::names_image(
            preview::lower_case(paths::extension_of(path)->0),
        )),
{
}

// ------------------------------------------------------------------ what is left

proof fn lemma_left(files: Seq<DupFile>, hits: Seq<bool>, ids: Seq<FileId>, note: bool, f: int, o: int)
    requires
        runs::are_files(files, ids),
        ids.contains(f as usize),
        0 <= f < files.len() <= usize::MAX,
        hits[f],
        mark_laws::is_there(files[f]),
        state_laws::is_copy(files, f, o),
        !runs::run(files, hits, ids, note)[f].marked,
    ensures
        runs::run(files, hits, ids, note)[o].marked,
    decreases ids.len(),
{
    let rest = ids.drop_last();
    assert forall|i: int| 0 <= i < rest.len() implies (#[trigger] rest[i]) < files.len() by {
        assert(rest[i] == ids[i]);
    }
    let before = runs::run(files, hits, rest, note);
    let after = runs::run(files, hits, ids, note);
    runs::lemma_run_frame(files, hits, rest, note);
    runs::lemma_run_frame(files, hits, ids, note);
    assert(ids.last() == ids[ids.len() - 1]);
    assert(runs::copy_of(files, f, o));
    runs::lemma_presence_kept(files, before, f);
    assert(runs::copy_of(before, f, o));
    assert(before[f].removed == files[f].removed);
    if ids.last() != f {
        let i = ids.index_of(f as usize);
        assert(rest[i] == f);
        assert(after[f].marked == before[f].marked);
        lemma_left(files, hits, rest, note, f, o);
    }
}

/// Of the files that a rule is applied to, one that it matches and that is there is left
/// unmarked only where all its copies that are there are marked.
pub proof fn lemma_apply_leaves_one(rule: Rule, model: Model, ids: Seq<FileId>, f: int, o: int)
    requires
        model.wf(),
        runs::are_files(model.files@, ids),
        ids.contains(f as usize),
        0 <= f < model.files@.len(),
        rule.covers(model.files@[f].path@),
        mark_laws::is_there(model.files@[f]),
        state_laws::is_copy(model.files@, f, o),
    ensures
        ({
            let after = runs::run(model.files@, rule.hits(model.files@), ids, false);
            after[f].marked || after[o].marked
        }),
{
    assert(model.files@.len() == model.files.len());
    let hits = rule.hits(model.files@);
    if !runs::run(model.files@, hits, ids, false)[f].marked {
        lemma_left(model.files@, hits, ids, false, f, o);
    }
}

/// It is the same for new files and the rules that apply by themselves.
pub proof fn lemma_continuous_leaves_one(
    rules: Seq<Rule>,
    i: int,
    model: Model,
    new_files: Seq<FileId>,
    f: int,
    o: int,
)
    requires
        model.wf(),
        runs::are_files(model.files@, new_files),
        0 <= i < rules.len(),
        rules[i].spec.continuous,
        rules[i].covers(model.files@[f].path@),
        new_files.contains(f as usize),
        0 <= f < model.files@.len(),
        mark_laws::is_there(model.files@[f]),
        state_laws::is_copy(model.files@, f, o),
    ensures
        ({
            let after = runs::run(
                model.files@,
                rules::continuous_hits(rules, model.files@),
                model.candidates(new_files),
                true,
            );
            after[f].marked || after[o].marked
        }),
{
    let files = model.files@;
    let hits = rules::continuous_hits(rules, files);
    let ids = model.candidates(new_files);
    assert(files.len() == model.files.len());
    assert(hits[f]);
    let k = new_files.index_of(f as usize);
    assert(ids[k] == f as usize);
    rules::lemma_candidates(model, new_files);
    if !runs::run(files, hits, ids, true)[f].marked {
        lemma_left(files, hits, ids, true, f, o);
    }
}

} // verus!
