//! What comes of the user's wishes, told by patterns, paths and marks.
use vstd::prelude::*;

use crate::counting;
use crate::mark_laws;
use crate::model::{DupFile, FileId, Model};
use crate::rule_laws;
use crate::rules::{self, Exclusions, Rule};
use crate::runs;
use crate::session;
use crate::state_laws;
use crate::text;

verus! {

/// A file counts as matching a rule where it is shown and the rule matches its path, and
/// as one that exclusions would hide where it is shown and they hide its path.
pub proof fn lemma_matching(model: Model, rule: Rule, excl: Exclusions, f: int)
    requires
        model.wf(),
        0 <= f < model.files@.len(),
    ensures
        model.matching(rule)(f) <==> state_laws::is_shown(model.files@, f) && rule.covers(
            model.files@[f].path@,
        ),
        model.hideable(excl)(f) <==> state_laws::is_shown(model.files@, f)
            && mark_laws::path_hidden(excl, model.files@[f].path@),
{
    state_laws::lemma_status(model, f);
    mark_laws::lemma_hidden_by_path(model, excl, f);
}

/// A folder holds one of some files where one of them lies in it.
pub proof fn lemma_holds_one(model: Model, of: spec_fn(int) -> bool, n: int)
    ensures
        model.holds_one(of)(n) <==> exists|f: int| #![trigger model.files@[f]]
            0 <= f < model.files@.len() && model.files@[f].node == n && of(f),
{
    if model.holds_one(of)(n) {
        let f = choose|f: int|
            0 <= f < model.files@.len() && model.files@[f].node == n && #[trigger] of(f);
        assert(model.files@[f].node == n);
    }
    if exists|f: int| #![trigger model.files@[f]]
        0 <= f < model.files@.len() && model.files@[f].node == n && of(f) {
        let f = choose|f: int| #![trigger model.files@[f]]
            0 <= f < model.files@.len() && model.files@[f].node == n && of(f);
        assert(of(f));
    }
}

/// All files are reached, in order, each once.
pub proof fn lemma_all_files(count: nat)
    requires
        count <= usize::MAX,
    ensures
        rule_laws::first_files(count).len() == count,
        forall|i: int| 0 <= i < count ==> #[trigger] rule_laws::first_files(count)[i] == i,
        rule_laws::first_files(count).no_duplicates(),
{
    let ids = rule_laws::first_files(count);
    assert forall|i: int, j: int| 0 <= i < j < ids.len() implies ids[i] != ids[j] by {}
}

proof fn lemma_all_reached(model: Model)
    requires
        model.wf(),
    ensures
        runs::are_files(model.files@, rule_laws::first_files(model.files@.len())),
        rule_laws::first_files(model.files@.len()).no_duplicates(),
        forall|f: int|
            0 <= f < model.files@.len() ==> #[trigger] rule_laws::first_files(
                model.files@.len(),
            ).contains(f as usize),
{
    let n = model.files@.len();
    assert(n == model.files.len());
    lemma_all_files(n);
    assert forall|f: int| 0 <= f < n implies #[trigger] rule_laws::first_files(n).contains(
        f as usize,
    ) by {
        assert(rule_laws::first_files(n)[f] == f as usize);
    }
}

/// A rule that is applied to all results marks each file that it matches and that is
/// there, where another copy is there, is not marked and is not matched. It touches only
/// files that it matches, that are there and that are not marked.
pub proof fn lemma_applied(before: Model, after: Model, rule: Rule, noted: Rule, f: int)
    requires
        before.wf(),
        session::applied_to_all(before, after, rule, noted),
        0 <= f < before.files@.len(),
    ensures
        after.wf(),
        after.files@.len() == before.files@.len(),
        after.files@[f].path == before.files@[f].path,
        after.files@[f].group == before.files@[f].group,
        after.files@[f].removed == before.files@[f].removed,
        after.files@[f].excluded == before.files@[f].excluded,
        before.files@[f].marked ==> after.files@[f].marked,
        after.files@[f] != before.files@[f] ==> rule.covers(before.files@[f].path@)
            && mark_laws::is_there(before.files@[f]) && !before.files@[f].marked,
        forall|o: int| #[trigger]
            state_laws::is_copy(before.files@, f, o) && !before.files@[o].marked && !rule.covers(
                before.files@[o].path@,
            ) && rule.covers(before.files@[f].path@) && mark_laws::is_there(before.files@[f])
                ==> after.files@[f].marked,
        noted.spec == rule.spec,
        noted.matcher == rule.matcher,
{
    let ids = rule_laws::first_files(before.files@.len());
    lemma_all_reached(before);
    mark_laws::lemma_apply_marks_only(rule, before, ids, f);
    runs::lemma_run_frame(before.files@, rule.hits(before.files@), ids, false);
    assert forall|o: int| #[trigger]
        state_laws::is_copy(before.files@, f, o) && !before.files@[o].marked && !rule.covers(
            before.files@[o].path@,
        ) && rule.covers(before.files@[f].path@) && mark_laws::is_there(
            before.files@[f],
        ) implies after.files@[f].marked by {
        mark_laws::lemma_apply_marks(rule, before, ids, f, o);
    }
}

/// What is noted with a rule that was applied says how many files it marked, and, where
/// there are any, from how many it withheld the mark: as many as it matches among those
/// that are shown and not marked, less those that it marked.
pub proof fn lemma_applied_words(before: Model, after: Model, rule: Rule, noted: Rule)
    requires
        before.wf(),
        session::applied_to_all(before, after, rule, noted),
    ensures
        ({
            let n = before.files@.len();
            let made = counting::count(
                n,
                |f: int| !before.files@[f].marked && after.files@[f].marked,
            );
            let wanted = counting::count(
                n,
                |f: int|
                    state_laws::is_shown(before.files@, f) && !before.files@[f].marked
                        && rule.covers(before.files@[f].path@),
            );
            &&& made <= wanted
            &&& noted.last_result is Some
            &&& noted.last_result->0@ == if wanted > made {
                text::decimal(made) + " fichier(s) marqué(s)"@ + ", "@ + text::decimal(
                    (wanted - made) as nat,
                ) + " protégé(s) (dernier exemplaire)"@
            } else {
                text::decimal(made) + " fichier(s) marqué(s)"@
            }
        }),
{
    let n = before.files@.len();
    let ids = rule_laws::first_files(n);
    let hits = rule.hits(before.files@);
    lemma_all_reached(before);
    rule_laws::lemma_run_accounts(before.files@, hits, ids);
    counting::lemma_count_same(
        n,
        rule_laws::newly_marked(before.files@, after.files@),
        |f: int| !before.files@[f].marked && after.files@[f].marked,
    );
    assert forall|i: int| 0 <= i < n implies #[trigger] rule_laws::candidates_at(
        before.files@,
        hits,
        ids,
    )(i) == (state_laws::is_shown(before.files@, i) && !before.files@[i].marked && rule.covers(
        before.files@[i].path@,
    )) by {
        lemma_shown_alike(before, i);
        assert(ids[i] == i);
    }
    counting::lemma_count_same(
        n,
        rule_laws::candidates_at(before.files@, hits, ids),
        |f: int|
            state_laws::is_shown(before.files@, f) && !before.files@[f].marked && rule.covers(
                before.files@[f].path@,
            ),
    );
}

proof fn lemma_shown_alike(model: Model, f: int)
    ensures
        runs::shown(model.files@, f) == state_laws::is_shown(model.files@, f),
{
    let files = model.files@;
    assert forall|o: int| runs::copy_of(files, f, o) == #[trigger] state_laws::is_copy(files, f, o) by {}
    if runs::shown(files, f) {
        let o = choose|o: int| runs::copy_of(files, f, o);
        assert(state_laws::is_copy(files, f, o));
    }
    if state_laws::is_shown(files, f) {
        let o = choose|o: int| #[trigger] state_laws::is_copy(files, f, o);
        assert(runs::copy_of(files, f, o));
    }
}

proof fn lemma_all_applied_kept(
    before: Model,
    after: Model,
    rules: Seq<Rule>,
    noted: Seq<Rule>,
    count: nat,
)
    requires
        before.wf(),
        count <= rules.len(),
        session::all_applied(before, after, rules, noted, count),
    ensures
        after.wf(),
        after.files@.len() == before.files@.len(),
        forall|f: int| #![trigger after.files@[f]]
            0 <= f < before.files@.len() ==> {
                &&& after.files@[f].path == before.files@[f].path
                &&& after.files@[f].group == before.files@[f].group
                &&& after.files@[f].removed == before.files@[f].removed
                &&& after.files@[f].excluded == before.files@[f].excluded
                &&& before.files@[f].marked ==> after.files@[f].marked
                &&& after.files@[f] != before.files@[f] ==> mark_laws::is_there(before.files@[f])
                    && !before.files@[f].marked && exists|i: int|
                    0 <= i < count && #[trigger] rules[i].covers(before.files@[f].path@)
            },
    decreases count,
{
    if count > 0 {
        let between = choose|between: Model|
            {
                &&& session::all_applied(before, between, rules, noted, (count - 1) as nat)
                &&& #[trigger] session::applied_to_all(
                    between,
                    after,
                    rules[count - 1],
                    noted[count - 1],
                )
            };
        lemma_all_applied_kept(before, between, rules, noted, (count - 1) as nat);
        assert forall|f: int| #![trigger after.files@[f]] 0 <= f < before.files@.len() implies {
            &&& after.files@[f].path == before.files@[f].path
            &&& after.files@[f].group == before.files@[f].group
            &&& after.files@[f].removed == before.files@[f].removed
            &&& after.files@[f].excluded == before.files@[f].excluded
            &&& before.files@[f].marked ==> after.files@[f].marked
            &&& after.files@[f] != before.files@[f] ==> mark_laws::is_there(before.files@[f])
                && !before.files@[f].marked && exists|i: int|
                0 <= i < count && #[trigger] rules[i].covers(before.files@[f].path@)
        } by {
            lemma_applied(between, after, rules[count - 1], noted[count - 1], f);
            assert(between.files@[f].path == before.files@[f].path);
            if between.files@[f] != before.files@[f] {
                let i = choose|i: int|
                    0 <= i < count - 1 && #[trigger] rules[i].covers(before.files@[f].path@);
                assert(rules[i].covers(before.files@[f].path@));
            } else if after.files@[f] != between.files@[f] {
                assert(rules[count - 1].covers(before.files@[f].path@));
            }
        }
        if before.files@.len() == 0 {
            assert(after.wf());
        } else {
            lemma_applied(between, after, rules[count - 1], noted[count - 1], 0);
        }
    }
}

/// Applying all rules marks each file that one of them matches, whichever it is, and that
/// is there, where another copy is there, is not marked and is matched by none. It touches
/// only files that one of them matches.
pub proof fn lemma_all_applied(
    before: Model,
    after: Model,
    rules: Seq<Rule>,
    noted: Seq<Rule>,
    i: int,
    f: int,
    o: int,
)
    requires
        before.wf(),
        session::all_applied(before, after, rules, noted, rules.len()),
        0 <= i < rules.len(),
        0 <= f < before.files@.len(),
        rules[i].covers(before.files@[f].path@),
        mark_laws::is_there(before.files@[f]),
        state_laws::is_copy(before.files@, f, o),
        !before.files@[o].marked,
        forall|j: int| 0 <= j < rules.len() ==> !#[trigger] rules[j].covers(before.files@[o].path@),
    ensures
        after.files@[f].marked,
        after.files@[o] == before.files@[o],
{
    lemma_all_applied_kept(before, after, rules, noted, rules.len());
    assert(after.files@[o] == before.files@[o]);
    lemma_all_applied_upto(before, after, rules, noted, rules.len(), i, f, o);
}

proof fn lemma_all_applied_upto(
    before: Model,
    after: Model,
    rules: Seq<Rule>,
    noted: Seq<Rule>,
    count: nat,
    i: int,
    f: int,
    o: int,
)
    requires
        before.wf(),
        count <= rules.len(),
        session::all_applied(before, after, rules, noted, count),
        0 <= i < count,
        0 <= f < before.files@.len(),
        rules[i].covers(before.files@[f].path@),
        mark_laws::is_there(before.files@[f]),
        state_laws::is_copy(before.files@, f, o),
        !before.files@[o].marked,
        forall|j: int| 0 <= j < rules.len() ==> !#[trigger] rules[j].covers(before.files@[o].path@),
    ensures
        after.files@[f].marked,
    decreases count,
{
    let between = choose|between: Model|
        {
            &&& session::all_applied(before, between, rules, noted, (count - 1) as nat)
            &&& #[trigger] session::applied_to_all(
                between,
                after,
                rules[count - 1],
                noted[count - 1],
            )
        };
    lemma_all_applied_kept(before, between, rules, noted, (count - 1) as nat);
    lemma_applied(between, after, rules[count - 1], noted[count - 1], f);
    if i < count - 1 {
        lemma_all_applied_upto(before, between, rules, noted, (count - 1) as nat, i, f, o);
    } else {
        assert(between.files@[o].path == before.files@[o].path);
        assert(between.files@[f].path == before.files@[f].path);
        assert(between.files@[o] == before.files@[o]);
        assert(state_laws::is_copy(between.files@, f, o));
    }
}

/// Texts are picked by their flags: one more text is picked where its flag is up.
pub proof fn lemma_picked(list: Seq<String>, flags: Seq<bool>, more: String, flag: bool)
    requires
        list.len() == flags.len(),
    ensures
        session::picked(Seq::<String>::empty(), Seq::<bool>::empty()).len() == 0,
        session::picked(list.push(more), flags.push(flag)) == if flag {
            session::picked(list, flags).push(more)
        } else {
            session::picked(list, flags)
        },
{
    assert(list.push(more).drop_last() =~= list);
    assert(flags.push(flag).drop_last() =~= flags);
}

/// Rules are kept where they were made: one more is kept where it was, and a refused one
/// is not.
pub proof fn lemma_made_rules(made: Seq<Result<Rule, String>>, rule: Rule, message: String)
    ensures
        session::made_rules(Seq::<Result<Rule, String>>::empty()).len() == 0,
        session::made_rules(made.push(Ok(rule))) == session::made_rules(made).push(rule),
        session::made_rules(made.push(Err(message))) == session::made_rules(made),
{
    assert(made.push(Ok(rule)).drop_last() =~= made);
    assert(made.push(Err(message)).drop_last() =~= made);
}

/// What changes with a note: of one rule what it did last, and nothing else.
pub proof fn lemma_noted(before: Seq<Rule>, after: Seq<Rule>, i: int, words: Seq<char>, k: int)
    requires
        session::noted(before, after, i, words),
        0 <= i < before.len(),
        0 <= k < before.len(),
    ensures
        after.len() == before.len(),
        k != i ==> after[k] == before[k],
        after[k].spec == before[k].spec,
        after[k].matcher == before[k].matcher,
        after[i].last_result is Some,
        after[i].last_result->0@ == words,
{
}

/// Whether a rule was made of a pattern and joined the others, or was refused and did not,
/// rests on what came of making it.
pub proof fn lemma_joined(
    before: Seq<Rule>,
    after: Seq<Rule>,
    made: Result<Rule, String>,
    outcome: Result<(), String>,
)
    requires
        session::joined(before, after, made, outcome),
    ensures
        made matches Ok(rule) ==> after == before.push(rule) && outcome is Ok,
        made matches Err(message) ==> after == before && outcome == Err::<(), String>(message),
{
}

/// Taking a rule back takes the mark from each file that it matches, and from no other.
pub proof fn lemma_unapplied(before: Model, after: Model, rule: Rule, f: int)
    requires
        session::unapplied(before, after, rule),
        0 <= f < before.files@.len(),
    ensures
        after.files@[f].marked == (before.files@[f].marked && !rule.covers(
            before.files@[f].path@,
        )),
        !(before.files@[f].marked && rule.covers(before.files@[f].path@)) ==> after.files@[f]
            == before.files@[f],
        after.files@[f].path == before.files@[f].path,
        after.files@[f].group == before.files@[f].group,
        after.files@[f].removed == before.files@[f].removed,
        after.files@[f].excluded == before.files@[f].excluded,
{
    let file: DupFile = after.files@[f];
    assert(file.path == before.files@[f].path);
}

/// What is noted with a rule that was taken back, or tried, says how many files it is
/// about.
pub proof fn lemma_noted_words(model: Model, rule: Rule)
    ensures
        session::unapplied_words(model, rule) == text::decimal(
            counting::count(
                model.files@.len(),
                |f: int| model.files@[f].marked && rule.covers(model.files@[f].path@),
            ),
        ) + " fichier(s) démarqué(s)"@,
        session::tested_words(model, rule) == text::decimal(
            counting::count(model.files@.len(), model.matching(rule)),
        ) + " doublon(s) correspondant(s)"@,
{
}

/// What is shown of a rule that is being typed: how many files it matches, in how many
/// folders, and how many it would mark; where it is refused, why.
pub proof fn lemma_rule_shown(
    outcome: Result<String, String>,
    made: Result<Rule, String>,
    model: Model,
)
    requires
        session::shows_rule(outcome, made, model),
    ensures
        made matches Ok(rule) ==> outcome is Ok && outcome->Ok_0@ == "→ "@ + text::decimal(
            counting::count(model.files@.len(), model.matching(rule)),
        ) + " doublon(s) dans "@ + text::decimal(
            counting::count(model.nodes@.len(), model.holds_one(model.matching(rule))),
        ) + " dossier(s), "@ + text::decimal(
            counting::total(model.groups@.len(), model.markable(rule)),
        ) + " seraient marqués"@,
        made matches Err(message) ==> outcome == Err::<String, String>(message),
{
}

/// What is shown of exclusions that are being typed: how many files they would hide, and
/// in how many folders; where there are no results yet, that; where they are refused, why.
pub proof fn lemma_exclusions_shown(
    outcome: Result<String, String>,
    made: Result<Exclusions, String>,
    model: Model,
)
    requires
        session::shows_exclusions(outcome, made, model),
    ensures
        made matches Ok(excl) ==> outcome is Ok && outcome->Ok_0@ == if model.totals.total == 0
            && model.files@.len() == 0 {
            "Aucun résultat pour l'instant : s'appliquera à la prochaine analyse"@
        } else {
            "→ masquerait "@ + text::decimal(
                counting::count(model.files@.len(), model.hideable(excl)),
            ) + " doublon(s) dans "@ + text::decimal(
                counting::count(model.nodes@.len(), model.holds_one(model.hideable(excl))),
            ) + " dossier(s)"@
        },
        made matches Err(message) ==> outcome == Err::<String, String>(message),
{
}

/// Exclusions that were made are used as they are, and none in the place of ones that were
/// refused.
pub proof fn lemma_made_or_none(excl: Exclusions, made: Result<Exclusions, String>)
    requires
        session::made_or_none(excl, made),
    ensures
        made matches Ok(e) ==> excl == e,
        made is Err ==> excl@.len() == 0,
{
}

/// Case is ignored where the system says that a `\` separates names.
pub proof fn lemma_case_of_system(ignore_case: bool)
    requires
        rules::system_case(ignore_case),
    ensures
        call_ensures(std::path::is_separator, ('\\',), ignore_case),
{
}

} // verus!
