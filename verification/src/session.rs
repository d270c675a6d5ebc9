//! The settings, and what is done upon the user's wishes.
use vstd::prelude::*;

use crate::counting;
use crate::globs;
use crate::model::{self, FileId, Model};
use crate::paths;
use crate::rules::{self, Exclusions, PatternCount, Rule, RuleSpec};
use crate::rule_laws;
use crate::runs;
use crate::text;
use crate::views;

verus! {

/// How many errors are kept.
pub const MAX_ERRORS: usize = 10_000;

/// How many events of a search are taken in at a time.
pub const EVENTS_PER_FRAME: usize = 20_000;

/// What is remembered from one time to the next.
pub struct Settings {
    pub roots: Vec<String>,
    pub rules: Vec<RuleSpec>,
    pub exclusions: Vec<String>,
    pub min_size: u64,
    pub threads: usize,
    pub use_trash: bool,
    pub verify_before_delete: bool,
}

impl Settings {
    /// The settings to begin with, on a machine with some processor cores.
    pub fn for_cores(cores: usize) -> (settings: Settings)
        ensures
            settings.roots@.len() == 0,
            settings.rules@.len() == 0,
            settings.exclusions@.len() == 0,
            settings.min_size == 1,
            settings.threads == if cores < 4 {
                cores
            } else {
                4
            },
            settings.use_trash,
            settings.verify_before_delete,
    {
        Settings {
            roots: Vec::new(),
            rules: Vec::new(),
            exclusions: Vec::new(),
            min_size: 1,
            threads: if cores < 4 {
                cores
            } else {
                4
            },
            use_trash: true,
            verify_before_delete: true,
        }
    }
}

/// Keeps an error, unless there are too many.
pub fn push_error(errors: &mut Vec<String>, error: String)
    ensures
        final(errors)@ == if old(errors)@.len() < MAX_ERRORS {
            old(errors)@.push(error)
        } else {
            old(errors)@
        },
        old(errors)@.len() < 10_000 <==> final(errors)@.len() == old(errors)@.len() + 1,
{
    if errors.len() < MAX_ERRORS {
        errors.push(error);
    }
}

/// Some errors and more, as far as they are kept.
pub open spec fn errors_with(errors: Seq<String>, more: Seq<String>) -> Seq<String>
    decreases more.len(),
{
    if more.len() == 0 {
        errors
    } else {
        let before = errors_with(errors, more.drop_last());
        if before.len() < MAX_ERRORS {
            before.push(more.last())
        } else {
            before
        }
    }
}

/// Keeps some errors, as far as there is room.
pub fn push_errors(errors: &mut Vec<String>, more: &Vec<String>)
    ensures
        final(errors)@ == errors_with(old(errors)@, more@),
        old(errors)@.len() + more@.len() <= 10_000 ==> final(errors)@ == old(errors)@ + more@,
        old(errors)@.len() <= 10_000 < old(errors)@.len() + more@.len() ==> final(errors)@ == old(
            errors,
        )@ + more@.take(10_000 - old(errors)@.len()),
        old(errors)@.len() > 10_000 ==> final(errors)@ == old(errors)@,
{
    let ghost before = errors@;
    assert(more@.take(0) =~= Seq::<String>::empty());
    for i in 0..more.len()
        invariant
            errors@ == errors_with(before, more@.take(i as int)),
    {
        push_error(errors, more[i].clone());
        assert(more@.take(i + 1).drop_last() =~= more@.take(i as int));
    }
    assert(more@.take(more@.len() as int) =~= more@);
    proof {
        lemma_errors_with(before, more@);
        if before.len() + more@.len() == 10_000 {
            assert(more@.take(10_000 - before.len()) =~= more@);
        }
    }
}

proof fn lemma_errors_with(errors: Seq<String>, more: Seq<String>)
    ensures
        errors_with(errors, more) == if errors.len() >= 10_000 {
            errors
        } else if errors.len() + more.len() <= 10_000 {
            errors + more
        } else {
            errors + more.take(10_000 - errors.len())
        },
    decreases more.len(),
{
    if more.len() > 0 {
        let rest = more.drop_last();
        lemma_errors_with(errors, rest);
        if errors.len() < 10_000 {
            let room = 10_000 - errors.len();
            if errors.len() + more.len() <= 10_000 {
                assert((errors + rest).push(more.last()) =~= errors + more);
            } else {
                if errors.len() + rest.len() == 10_000 {
                    assert(rest =~= more.take(room));
                } else {
                    assert(rest.take(room) =~= more.take(room));
                }
            }
        }
    } else {
        assert(errors + more =~= errors);
    }
}

// ---------------------------------------------------------------------- folders

/// Whether a folder is among some.
pub open spec fn has_path(list: Seq<String>, path: Seq<char>) -> bool {
    exists|i: int| 0 <= i < list.len() && paths::same_path((#[trigger] list[i])@, path)
}

/// Adds a folder to those to search, unless it is there. Says whether it was
/// added.
pub fn add_root(roots: &mut Vec<String>, path: String) -> (added: bool)
    ensures
        added == !has_path(old(roots)@, path@),
        added == forall|i: int|
            0 <= i < old(roots)@.len() ==> paths::components((#[trigger] old(roots)@[i])@)
                != paths::components(path@),
        final(roots)@ == if added {
            old(roots)@.push(path)
        } else {
            old(roots)@
        },
{
    for i in 0..roots.len()
        invariant
            roots@ == old(roots)@,
            forall|j: int|
                0 <= j < i ==> !paths::same_path((#[trigger] roots@[j])@, path@),
    {
        if paths::paths_equal(roots[i].as_str(), path.as_str()) {
            assert(paths::same_path(roots@[i as int]@, path@));
            return false;
        }
    }
    roots.push(path);
    true
}

/// What was typed, without the white space around it, or `None` where that is
/// nothing.
pub fn typed_text(typed: &str) -> (words: Option<String>)
    ensures
        match words {
            Some(w) => w@ == text::trimmed(typed@) && w@.len() > 0,
            None => text::trimmed(typed@).len() == 0,
        },
{
    let words = text::trim(typed);
    if words.as_str().is_empty() {
        None
    } else {
        Some(words)
    }
}

/// What is told of a path that went wrong.
pub fn path_error(path: &str, reason: &str) -> (message: String)
    ensures
        message@ == path@ + " : "@ + reason@,
{
    let mut message = String::new();
    message.append(path);
    message.append(" : ");
    message.append(reason);
    assert(message@ =~= path@ + " : "@ + reason@);
    message
}

// ------------------------------------------------------------------ live effect

/// What a pattern that is being typed would do, worked out only when the pattern
/// or the results change.
pub struct LivePreview {
    pub key: Option<(String, u64)>,
    pub text: String,
    pub is_error: bool,
}

impl Default for LivePreview {
    fn default() -> (preview: LivePreview)
        ensures
            preview.key is None,
            preview.text@.len() == 0,
            !preview.is_error,
    {
        LivePreview { key: None, text: String::new(), is_error: false }
    }
}

impl LivePreview {
    /// Whether this is what a pattern would do to the results as they stand.
    pub open spec fn is_for(self, pattern: Seq<char>, generation: u64) -> bool {
        self.key matches Some(key) && key.0@ == pattern && key.1 == generation
    }

    /// Whether this shows what came of working it out.
    pub open spec fn shows(self, outcome: Result<String, String>) -> bool {
        match outcome {
            Ok(words) => self.text == words && !self.is_error,
            Err(message) => self.text == message && self.is_error,
        }
    }

    /// Works out what a pattern would do, unless that is known.
    pub fn update<F: FnOnce(&str) -> Result<String, String>>(
        &mut self,
        pattern: &str,
        generation: u64,
        compute: F,
    )
        requires
            forall|p: &str| #[trigger] call_requires(compute, (p,)),
        ensures
            old(self).is_for(pattern@, generation) ==> *final(self) == *old(self),
            old(self).key is Some && (old(self).key->0).0@ == pattern@ && (old(self).key->0).1
                == generation ==> *final(self) == *old(self),
            final(self).key is Some,
            (final(self).key->0).0@ == pattern@,
            (final(self).key->0).1 == generation,
            !(old(self).key is Some && (old(self).key->0).0@ == pattern@ && (old(self).key->0).1
                == generation) && text::trimmed(pattern@).len() > 0 ==> exists|
                p: &str,
                outcome: Result<String, String>,
            |
                p@ == text::trimmed(pattern@) && #[trigger] call_ensures(compute, (p,), outcome)
                    && match outcome {
                    Ok(words) => final(self).text == words && !final(self).is_error,
                    Err(message) => final(self).text == message && final(self).is_error,
                },
            !old(self).is_for(pattern@, generation) ==> {
                &&& final(self).is_for(pattern@, generation)
                &&& if text::trimmed(pattern@).len() == 0 {
                    final(self).text@.len() == 0 && !final(self).is_error
                } else {
                    exists|p: &str, outcome: Result<String, String>|
                        p@ == text::trimmed(pattern@) && #[trigger] call_ensures(
                            compute,
                            (p,),
                            outcome,
                        ) && final(self).shows(outcome)
                }
            },
    {
        let known = match &self.key {
            Some(key) => text::same(key.0.as_str(), pattern) && key.1 == generation,
            None => false,
        };
        if known {
            return ;
        }
        let mut typed = String::new();
        typed.append(pattern);
        assert(typed@ =~= pattern@);
        self.key = Some((typed, generation));
        let wanted = text::trim(pattern);
        if wanted.as_str().is_empty() {
            self.text = String::new();
            self.is_error = false;
        } else {
            let p = wanted.as_str();
            let outcome = compute(p);
            assert(call_ensures(compute, (p,), outcome));
            match outcome {
                Ok(words) => {
                    self.text = words;
                    self.is_error = false;
                },
                Err(message) => {
                    self.text = message;
                    self.is_error = true;
                },
            }
            assert(self.shows(outcome));
        }
    }

    /// What is shown of it.
    pub fn message(&self) -> (message: String)
        ensures
            message@ == if self.is_error {
                "Motif invalide : "@ + self.text@
            } else {
                self.text@
            },
    {
        if self.is_error {
            let mut message = String::new();
            message.append("Motif invalide : ");
            message.append(self.text.as_str());
            assert(message@ =~= "Motif invalide : "@ + self.text@);
            message
        } else {
            self.text.clone()
        }
    }
}

/// What a rule would do, in words.
pub open spec fn rule_words(count: PatternCount) -> Seq<char> {
    "→ "@ + views::number(count.files as int) + " doublon(s) dans "@ + views::number(
        count.folders as int,
    ) + " dossier(s), "@ + views::number(count.markable as int) + " seraient marqués"@
}

/// Whether a text says what a rule would do to the results.
pub open spec fn says_rule_effect(words: Seq<char>, rule: Rule, model: Model) -> bool {
    exists|count: PatternCount|
        {
            &&& count.files == counting::count(model.files@.len(), model.matching(rule))
            &&& count.folders == counting::count(
                model.nodes@.len(),
                model.holds_one(model.matching(rule)),
            )
            &&& count.markable == counting::total(model.groups@.len(), model.markable(rule))
            &&& words == #[trigger] rule_words(count)
        }
}

/// What a rule would do, in words.
pub fn rule_effect(rule: &Rule, model: &Model) -> (words: String)
    requires
        model.wf(),
    ensures
        says_rule_effect(words@, *rule, *model),
        exists|files: usize, folders: usize, markable: usize|
            {
                &&& files == counting::count(model.files@.len(), model.matching(*rule))
                &&& folders == counting::count(
                    model.nodes@.len(),
                    model.holds_one(model.matching(*rule)),
                )
                &&& markable == counting::total(model.groups@.len(), model.markable(*rule))
                &&& words@ == "→ "@ + #[trigger] text::decimal(files as nat) + " doublon(s) dans "@
                    + #[trigger] text::decimal(folders as nat) + " dossier(s), "@
                    + #[trigger] text::decimal(markable as nat) + " seraient marqués"@
            },
{
    let count = rules::count_rule(rule, model);
    let mut words = String::new();
    words.append("→ ");
    text::push_decimal(&mut words, count.files as u64);
    words.append(" doublon(s) dans ");
    text::push_decimal(&mut words, count.folders as u64);
    words.append(" dossier(s), ");
    text::push_decimal(&mut words, count.markable as u64);
    words.append(" seraient marqués");
    assert(words@ =~= rule_words(count));
    words
}

/// What is shown of a rule that was made or refused.
pub open spec fn shows_rule(
    outcome: Result<String, String>,
    made: Result<Rule, String>,
    model: Model,
) -> bool {
    match made {
        Ok(rule) => outcome is Ok && says_rule_effect(outcome->Ok_0@, rule, model),
        Err(message) => outcome == Err::<String, String>(message),
    }
}

/// What a rule that was made would do, in words, or why it was refused.
pub fn rule_outcome(made: Result<Rule, String>, model: &Model) -> (outcome: Result<String, String>)
    requires
        model.wf(),
    ensures
        shows_rule(outcome, made, *model),
        made is Ok <==> outcome is Ok,
        made matches Err(message) ==> outcome == Err::<String, String>(message),
{
    match made {
        Ok(rule) => Ok(rule_effect(&rule, model)),
        Err(message) => Err(message),
    }
}

/// What a rule that is being typed would do, in words, or why it is refused.
pub fn rule_preview(pattern: &str, model: &Model) -> (outcome: Result<String, String>)
    requires
        model.wf(),
    ensures
        exists|ignore_case: bool, made: Result<Rule, String>, spec: RuleSpec|
            {
                &&& spec.pattern@ == pattern@
                &&& #[trigger] Rule::made_of(made, spec, ignore_case)
                &&& rules::system_case(ignore_case)
                &&& shows_rule(outcome, made, *model)
            },
{
    let mut typed = String::new();
    typed.append(pattern);
    assert(typed@ =~= pattern@);
    let spec = RuleSpec { pattern: typed, continuous: false };
    let ghost wanted = spec;
    let made = Rule::new(spec);
    let ghost ignore_case = choose|ignore_case: bool| #[trigger]
        Rule::made_of(made, wanted, ignore_case) && rules::system_case(ignore_case);
    assert(Rule::made_of(made, wanted, ignore_case));
    rule_outcome(made, model)
}

/// What exclusions would do, in words.
pub open spec fn exclusion_words(count: PatternCount) -> Seq<char> {
    "→ masquerait "@ + views::number(count.files as int) + " doublon(s) dans "@ + views::number(
        count.folders as int,
    ) + " dossier(s)"@
}

/// Whether a text says what exclusions would do to the results.
pub open spec fn says_effect(words: Seq<char>, excl: Exclusions, model: Model) -> bool {
    if model.totals.total == 0 && model.files@.len() == 0 {
        words == "Aucun résultat pour l'instant : s'appliquera à la prochaine analyse"@
    } else {
        exists|count: PatternCount|
            {
                &&& count.files == counting::count(model.files@.len(), model.hideable(excl))
                &&& count.folders == counting::count(
                    model.nodes@.len(),
                    model.holds_one(model.hideable(excl)),
                )
                &&& words == #[trigger] exclusion_words(count)
            }
    }
}

/// What exclusions would do, in words.
pub fn exclusion_effect(excl: &Exclusions, model: &Model) -> (words: String)
    requires
        model.wf(),
    ensures
        says_effect(words@, *excl, *model),
        model.totals.total == 0 && model.files@.len() == 0 ==> words@
            == "Aucun résultat pour l'instant : s'appliquera à la prochaine analyse"@,
        model.files@.len() > 0 ==> exists|files: usize, folders: usize|
            {
                &&& files == counting::count(model.files@.len(), model.hideable(*excl))
                &&& folders == counting::count(
                    model.nodes@.len(),
                    model.holds_one(model.hideable(*excl)),
                )
                &&& words@ == "→ masquerait "@ + #[trigger] text::decimal(files as nat)
                    + " doublon(s) dans "@ + #[trigger] text::decimal(folders as nat)
                    + " dossier(s)"@
            },
{
    let mut words = String::new();
    if model.totals.total == 0 && model.files.len() == 0 {
        words.append("Aucun résultat pour l'instant : s'appliquera à la prochaine analyse");
        assert(words@
            =~= "Aucun résultat pour l'instant : s'appliquera à la prochaine analyse"@);
        return words;
    }
    let count = rules::count_exclusions(excl, model);
    words.append("→ masquerait ");
    text::push_decimal(&mut words, count.files as u64);
    words.append(" doublon(s) dans ");
    text::push_decimal(&mut words, count.folders as u64);
    words.append(" dossier(s)");
    assert(words@ =~= exclusion_words(count));
    words
}

/// What is shown of exclusions that were made or refused.
pub open spec fn shows_exclusions(
    outcome: Result<String, String>,
    made: Result<Exclusions, String>,
    model: Model,
) -> bool {
    match made {
        Ok(excl) => outcome is Ok && says_effect(outcome->Ok_0@, excl, model),
        Err(message) => outcome == Err::<String, String>(message),
    }
}

/// What exclusions that were made would do, in words, or why they were refused.
pub fn exclusion_outcome(made: Result<Exclusions, String>, model: &Model) -> (outcome: Result<
    String,
    String,
>)
    requires
        model.wf(),
    ensures
        shows_exclusions(outcome, made, *model),
        made is Ok <==> outcome is Ok,
        made matches Err(message) ==> outcome == Err::<String, String>(message),
{
    match made {
        Ok(excl) => Ok(exclusion_effect(&excl, model)),
        Err(message) => Err(message),
    }
}

/// What an exclusion that is being typed would do, in words, or why it is
/// refused.
pub fn exclusion_preview(pattern: &str, model: &Model) -> (outcome: Result<String, String>)
    requires
        model.wf(),
    ensures
        exists|ignore_case: bool, made: Result<Exclusions, String>, patterns: Seq<String>|
            {
                &&& patterns.len() == 1 && patterns[0]@ == pattern@
                &&& #[trigger] Exclusions::made_of(made, patterns, ignore_case)
                &&& rules::system_case(ignore_case)
                &&& shows_exclusions(outcome, made, *model)
            },
{
    let mut typed = String::new();
    typed.append(pattern);
    assert(typed@ =~= pattern@);
    let mut patterns: Vec<String> = Vec::new();
    patterns.push(typed);
    let made = Exclusions::new(&patterns);
    let ghost ignore_case = choose|ignore_case: bool| #[trigger]
        Exclusions::made_of(made, patterns@, ignore_case) && rules::system_case(ignore_case);
    assert(Exclusions::made_of(made, patterns@, ignore_case));
    exclusion_outcome(made, model)
}

// ------------------------------------------------------------------------ rules

/// Whether a rule that was made joined some, and one that was refused did not.
pub open spec fn joined(
    before: Seq<Rule>,
    after: Seq<Rule>,
    made: Result<Rule, String>,
    outcome: Result<(), String>,
) -> bool {
    match made {
        Ok(rule) => after == before.push(rule) && outcome == Ok::<(), String>(()),
        Err(message) => after == before && outcome == Err::<(), String>(message),
    }
}

/// Adds a rule that was made, or says why it was refused.
pub fn join_rule(rules: &mut Vec<Rule>, made: Result<Rule, String>) -> (outcome: Result<(), String>)
    ensures
        joined(old(rules)@, final(rules)@, made, outcome),
        made matches Ok(rule) ==> final(rules)@ == old(rules)@.push(rule) && outcome is Ok,
        made matches Err(message) ==> final(rules)@ == old(rules)@ && outcome == Err::<(), String>(
            message,
        ),
{
    match made {
        Ok(rule) => {
            rules.push(rule);
            Ok(())
        },
        Err(message) => Err(message),
    }
}

/// Adds a rule that was typed. Says why, where it is refused; where nothing was
/// typed, nothing happens.
pub fn add_rule(rules: &mut Vec<Rule>, typed: &str, continuous: bool) -> (outcome: Option<
    Result<(), String>,
>)
    ensures
        text::trimmed(typed@).len() == 0 <==> outcome is None,
        match outcome {
            None => final(rules)@ == old(rules)@,
            Some(done) => exists|ignore_case: bool, made: Result<Rule, String>, spec: RuleSpec|
                {
                    &&& spec.pattern@ == text::trimmed(typed@)
                    &&& spec.continuous == continuous
                    &&& #[trigger] Rule::made_of(made, spec, ignore_case)
                    &&& rules::system_case(ignore_case)
                    &&& joined(old(rules)@, final(rules)@, made, done)
                },
        },
{
    let pattern = text::trim(typed);
    if pattern.as_str().is_empty() {
        return None;
    }
    let spec = RuleSpec { pattern, continuous };
    let ghost wanted = spec;
    let made = Rule::new(spec);
    let ghost ignore_case = choose|ignore_case: bool| #[trigger]
        Rule::made_of(made, wanted, ignore_case) && rules::system_case(ignore_case);
    assert(Rule::made_of(made, wanted, ignore_case));
    Some(join_rule(rules, made))
}

/// What can be done with rules.
pub enum RuleAction {
    Apply(usize),
    Unapply(usize),
    Test(usize),
    Remove(usize),
    ApplyAll,
}

/// The numbers of all files.
fn all_files(model: &Model) -> (ids: Vec<FileId>)
    ensures
        ids@ == rule_laws::first_files(model.files@.len()),
{
    let mut ids: Vec<FileId> = Vec::new();
    for f in 0..model.files.len()
        invariant
            ids@ == rule_laws::first_files(f as nat),
    {
        ids.push(f);
        assert(ids@ =~= rule_laws::first_files((f + 1) as nat));
    }
    ids
}

/// Whether a rule was applied to all results, and what it did is noted with it.
pub open spec fn applied_to_all(
    before: Model,
    after: Model,
    rule_before: Rule,
    rule_after: Rule,
) -> bool {
    let ids = rule_laws::first_files(before.files@.len());
    let hits = rule_before.hits(before.files@);
    &&& after.wf()
    &&& after.same_but_files(before)
    &&& after.files@ == runs::run(before.files@, hits, ids, false)
    &&& after.dirty == (before.dirty || runs::marks_made(before.files@, hits, ids) > 0)
    &&& rule_after.spec == rule_before.spec
    &&& rule_after.matcher == rule_before.matcher
    &&& rule_after.last_result is Some
    &&& rule_after.last_result->0@ == views::summary_words(
        runs::marks_made(before.files@, hits, ids) as int,
        runs::marks_withheld(before.files@, hits, ids) as int,
    )
}

/// Applies a rule to all results, and notes with it what it did.
pub fn apply_rule(rules: &mut Vec<Rule>, i: usize, model: &mut Model)
    requires
        i < old(rules)@.len(),
        old(model).wf(),
    ensures
        final(rules)@.len() == old(rules)@.len(),
        forall|k: int| #![trigger final(rules)@[k]]
            0 <= k < final(rules)@.len() && k != i ==> final(rules)@[k] == old(rules)@[k],
        applied_to_all(
            *old(model),
            *final(model),
            old(rules)@[i as int],
            final(rules)@[i as int],
        ),
{
    let ids = all_files(model);
    proof {
        assert(model.files@.len() == model.files.len());
        assert(runs::are_files(model.files@, ids@));
    }
    let result = rules::apply(&rules[i], model, ids.as_slice());
    rules[i].last_result = Some(views::apply_summary(&result));
}

/// What applying the first rules, one after the other, has done.
pub open spec fn all_applied(
    before: Model,
    after: Model,
    rules_before: Seq<Rule>,
    rules_after: Seq<Rule>,
    count: nat,
) -> bool
    decreases count,
{
    if count == 0 {
        after == before
    } else {
        exists|between: Model|
            {
                &&& all_applied(
                    before,
                    between,
                    rules_before,
                    rules_after,
                    (count - 1) as nat,
                )
                &&& #[trigger] applied_to_all(
                    between,
                    after,
                    rules_before[count - 1],
                    rules_after[count - 1],
                )
            }
    }
}

proof fn lemma_all_applied_same(
    before: Model,
    after: Model,
    rules: Seq<Rule>,
    a: Seq<Rule>,
    b: Seq<Rule>,
    count: nat,
)
    requires
        all_applied(before, after, rules, a, count),
        forall|k: int| #![trigger b[k]] 0 <= k < count ==> b[k] == a[k],
    ensures
        all_applied(before, after, rules, b, count),
    decreases count,
{
    if count > 0 {
        let between = choose|between: Model|
            {
                &&& all_applied(before, between, rules, a, (count - 1) as nat)
                &&& #[trigger] applied_to_all(between, after, rules[count - 1], a[count - 1])
            };
        lemma_all_applied_same(before, between, rules, a, b, (count - 1) as nat);
        assert(b[count - 1] == a[count - 1]);
        assert(applied_to_all(between, after, rules[count - 1], b[count - 1]));
    }
}

/// Applies all rules to all results, one after the other.
pub fn apply_rules(rules: &mut Vec<Rule>, model: &mut Model)
    requires
        old(model).wf(),
    ensures
        final(model).wf(),
        final(rules)@.len() == old(rules)@.len(),
        all_applied(*old(model), *final(model), old(rules)@, final(rules)@, old(rules)@.len()),
{
    let ghost before = *model;
    let ghost first = rules@;
    let count = rules.len();
    for i in 0..count
        invariant
            model.wf(),
            count == first.len(),
            rules@.len() == first.len(),
            forall|k: int| #![trigger rules@[k]]
                i <= k < rules@.len() ==> rules@[k] == first[k],
            all_applied(before, *model, first, rules@, i as nat),
    {
        let ghost between = *model;
        let ghost held = rules@;
        apply_rule(rules, i, model);
        proof {
            assert(held[i as int] == first[i as int]);
            lemma_all_applied_same(before, between, first, held, rules@, i as nat);
            let next = (i + 1) as nat;
            assert(all_applied(before, between, first, rules@, (next - 1) as nat));
            assert(applied_to_all(between, *model, first[next - 1], rules@[next - 1]));
            assert(all_applied(before, *model, first, rules@, next));
            assert forall|k: int| #![trigger rules@[k]]
                i + 1 <= k < rules@.len() implies rules@[k] == first[k] by {
                assert(rules@[k] == held[k]);
            }
        }
    }
}

/// Whether rules are the same but for one, of which only what it did last
/// differs.
pub open spec fn noted(before: Seq<Rule>, after: Seq<Rule>, i: int, words: Seq<char>) -> bool {
    &&& after.len() == before.len()
    &&& forall|k: int| #![trigger after[k]] 0 <= k < after.len() && k != i ==> after[k] == before[k]
    &&& after[i].spec == before[i].spec
    &&& after[i].matcher == before[i].matcher
    &&& after[i].last_result is Some
    &&& after[i].last_result->0@ == words
}

/// How many marked files match a rule.
pub open spec fn marked_matching(before: Model, rule: Rule) -> nat {
    counting::count(
        before.files@.len(),
        |f: int| before.files@[f].marked && rule.covers(before.files@[f].path@),
    )
}

/// Whether the marks of the files that match a rule were taken away.
pub open spec fn unapplied(before: Model, after: Model, rule: Rule) -> bool {
    &&& after.same_but_files(before)
    &&& after.dirty == (before.dirty || marked_matching(before, rule) > 0)
    &&& forall|f: int| #![trigger after.files@[f]]
        0 <= f < after.files@.len() ==> after.files@[f] == (if before.files@[f].marked
            && rule.covers(before.files@[f].path@) {
            model::with_mark(before.files@[f], false)
        } else {
            before.files@[f]
        })
}

/// What taking marks away did, in words.
pub open spec fn unapplied_words(before: Model, rule: Rule) -> Seq<char> {
    views::number(marked_matching(before, rule) as int) + " fichier(s) démarqué(s)"@
}

/// How many files match a rule, in words.
pub open spec fn tested_words(model: Model, rule: Rule) -> Seq<char> {
    views::number(counting::count(model.files@.len(), model.matching(rule)) as int)
        + " doublon(s) correspondant(s)"@
}

/// Takes their marks from the files that match a rule, and notes with it how
/// many.
pub fn unapply_rule(rules: &mut Vec<Rule>, i: usize, model: &mut Model)
    requires
        i < old(rules)@.len(),
        old(model).wf(),
    ensures
        final(model).wf(),
        unapplied(*old(model), *final(model), old(rules)@[i as int]),
        noted(
            old(rules)@,
            final(rules)@,
            i as int,
            unapplied_words(*old(model), old(rules)@[i as int]),
        ),
        final(rules)@[i as int].last_result is Some,
        final(rules)@[i as int].last_result->0@ == text::decimal(
            counting::count(
                old(model).files@.len(),
                |f: int|
                    old(model).files@[f].marked && old(rules)@[i as int].covers(
                        old(model).files@[f].path@,
                    ),
            ),
        ) + " fichier(s) démarqué(s)"@,
        forall|f: int| #![trigger final(model).files@[f]]
            0 <= f < old(model).files@.len() ==> final(model).files@[f].marked == (old(
                model,
            ).files@[f].marked && !old(rules)@[i as int].covers(old(model).files@[f].path@)),
{
    let count = rules::unapply(&rules[i], model);
    let mut words = text::decimal_text(count as u64);
    words.append(" fichier(s) démarqué(s)");
    rules[i].last_result = Some(words);
}

/// Counts the files that are shown and match a rule, and notes with it how many.
pub fn test_rule(rules: &mut Vec<Rule>, i: usize, model: &Model)
    requires
        i < old(rules)@.len(),
        model.wf(),
    ensures
        noted(
            old(rules)@,
            final(rules)@,
            i as int,
            tested_words(*model, old(rules)@[i as int]),
        ),
        final(rules)@[i as int].last_result is Some,
        final(rules)@[i as int].last_result->0@ == text::decimal(
            counting::count(model.files@.len(), model.matching(old(rules)@[i as int])),
        ) + " doublon(s) correspondant(s)"@,
{
    let count = rules::count_matches(&rules[i], model);
    let mut words = text::decimal_text(count as u64);
    words.append(" doublon(s) correspondant(s)");
    rules[i].last_result = Some(words);
}

/// Does what is asked of the rules.
pub fn act(rules: &mut Vec<Rule>, model: &mut Model, action: RuleAction)
    requires
        old(model).wf(),
        match action {
            RuleAction::Apply(i) => i < old(rules)@.len(),
            RuleAction::Unapply(i) => i < old(rules)@.len(),
            RuleAction::Test(i) => i < old(rules)@.len(),
            RuleAction::Remove(i) => i < old(rules)@.len(),
            RuleAction::ApplyAll => true,
        },
    ensures
        final(model).wf(),
        match action {
            RuleAction::Apply(i) => {
                &&& applied_to_all(
                    *old(model),
                    *final(model),
                    old(rules)@[i as int],
                    final(rules)@[i as int],
                )
                &&& noted(
                    old(rules)@,
                    final(rules)@,
                    i as int,
                    final(rules)@[i as int].last_result->0@,
                )
            },
            RuleAction::Unapply(i) => {
                &&& unapplied(*old(model), *final(model), old(rules)@[i as int])
                &&& noted(
                    old(rules)@,
                    final(rules)@,
                    i as int,
                    unapplied_words(*old(model), old(rules)@[i as int]),
                )
            },
            RuleAction::Test(i) => {
                &&& *final(model) == *old(model)
                &&& noted(
                    old(rules)@,
                    final(rules)@,
                    i as int,
                    tested_words(*old(model), old(rules)@[i as int]),
                )
            },
            RuleAction::Remove(i) => {
                &&& *final(model) == *old(model)
                &&& final(rules)@ == old(rules)@.remove(i as int)
            },
            RuleAction::ApplyAll => {
                &&& final(rules)@.len() == old(rules)@.len()
                &&& all_applied(
                    *old(model),
                    *final(model),
                    old(rules)@,
                    final(rules)@,
                    old(rules)@.len(),
                )
            },
        },
{
    match action {
        RuleAction::Apply(i) => apply_rule(rules, i, model),
        RuleAction::Unapply(i) => unapply_rule(rules, i, model),
        RuleAction::Test(i) => test_rule(rules, i, model),
        RuleAction::Remove(i) => {
            rules.remove(i);
        },
        RuleAction::ApplyAll => apply_rules(rules, model),
    }
}

/// The rules as they are stored.
pub fn rule_specs(rules: &Vec<Rule>) -> (specs: Vec<RuleSpec>)
    ensures
        specs@.len() == rules@.len(),
        forall|i: int| #![trigger specs@[i]]
            0 <= i < specs@.len() ==> specs@[i].pattern@ == rules@[i].spec.pattern@
                && specs@[i].continuous == rules@[i].spec.continuous,
{
    let mut specs: Vec<RuleSpec> = Vec::new();
    for i in 0..rules.len()
        invariant
            specs@.len() == i,
            forall|k: int| #![trigger specs@[k]]
                0 <= k < i ==> specs@[k].pattern@ == rules@[k].spec.pattern@
                    && specs@[k].continuous == rules@[k].spec.continuous,
    {
        specs.push(rules[i].spec.clone());
    }
    specs
}

// -------------------------------------------------------------------- exclusions

/// Whether a pattern is among some.
pub open spec fn has_text(list: Seq<String>, pattern: Seq<char>) -> bool {
    exists|i: int| 0 <= i < list.len() && (#[trigger] list[i])@ == pattern
}

/// The patterns with the one that was typed, or `None` where there is nothing to
/// add: nothing was typed, it is refused or it is there.
pub fn with_exclusion(patterns: &Vec<String>, typed: &str, refused: bool) -> (more: Option<
    Vec<String>,
>)
    ensures
        match more {
            Some(list) => {
                &&& text::trimmed(typed@).len() > 0
                &&& !refused
                &&& !has_text(patterns@, text::trimmed(typed@))
                &&& text::texts(list@) == text::texts(patterns@).push(text::trimmed(typed@))
            },
            None => text::trimmed(typed@).len() == 0 || refused || has_text(
                patterns@,
                text::trimmed(typed@),
            ),
        },
{
    let pattern = text::trim(typed);
    if pattern.as_str().is_empty() || refused {
        return None;
    }
    for i in 0..patterns.len()
        invariant
            pattern@ == text::trimmed(typed@),
            forall|j: int| 0 <= j < i ==> (#[trigger] patterns@[j])@ != pattern@,
    {
        if text::same(patterns[i].as_str(), pattern.as_str()) {
            assert(patterns@[i as int]@ == pattern@);
            return None;
        }
    }
    let mut list = text::clone_texts(patterns);
    list.push(pattern);
    assert(text::texts(list@) =~= text::texts(patterns@).push(pattern@));
    Some(list)
}

/// The patterns without one of them.
pub fn without_exclusion(patterns: &Vec<String>, i: usize) -> (fewer: Vec<String>)
    requires
        i < patterns@.len(),
    ensures
        fewer@ == patterns@.remove(i as int),
{
    let mut list = text::clone_texts(patterns);
    list.remove(i);
    list
}

/// The exclusions that were made, or none where they were refused.
pub open spec fn made_or_none(excl: Exclusions, made: Result<Exclusions, String>) -> bool {
    match made {
        Ok(e) => excl == e,
        Err(_) => excl@ == Seq::<globs::GlobText>::empty(),
    }
}

/// The exclusions that were made, or none where they were refused.
pub fn exclusions_of(made: Result<Exclusions, String>) -> (excl: Exclusions)
    ensures
        made_or_none(excl, made),
        made matches Ok(e) ==> excl == e,
        made is Err ==> excl@.len() == 0,
{
    match made {
        Ok(excl) => excl,
        Err(_) => Exclusions::default(),
    }
}

/// The patterns to leave out, or none where they are refused.
pub fn exclusions_or_none(patterns: &Vec<String>) -> (excl: Exclusions)
    ensures
        exists|ignore_case: bool, made: Result<Exclusions, String>| #[trigger]
            Exclusions::made_of(made, patterns@, ignore_case) && rules::system_case(ignore_case)
                && made_or_none(excl, made),
{
    let made = Exclusions::new(patterns);
    let ghost ignore_case = choose|ignore_case: bool| #[trigger]
        Exclusions::made_of(made, patterns@, ignore_case) && rules::system_case(ignore_case);
    assert(Exclusions::made_of(made, patterns@, ignore_case));
    exclusions_of(made)
}

/// Leaves other patterns out of the search, and hides and shows the results
/// accordingly. Where the patterns are refused, nothing is left out.
pub fn set_exclusions(patterns: Vec<String>, settings: &mut Settings, model: &mut Model) -> (excl:
    Exclusions)
    requires
        old(model).wf(),
    ensures
        *final(settings) == (Settings { exclusions: patterns, ..*old(settings) }),
        exists|ignore_case: bool, made: Result<Exclusions, String>| #[trigger]
            Exclusions::made_of(made, patterns@, ignore_case) && rules::system_case(ignore_case)
                && made_or_none(excl, made),
        final(model).wf(),
        final(model).same_but_files(*old(model)),
        forall|f: int| #![trigger final(model).files@[f]]
            0 <= f < final(model).files@.len() ==> final(model).files@[f]
                == old(model).with_exclusions(excl, f),
        final(model).dirty == (old(model).dirty || exists|f: int| #![trigger old(model).files@[f]]
            0 <= f < old(model).files@.len() && old(model).files@[f].excluded
                != old(model).hidden(excl, f)),
{
    let excl = exclusions_or_none(&patterns);
    model.apply_exclusions(&excl);
    settings.exclusions = patterns;
    excl
}

// --------------------------------------------------------------- what is stored

/// Those of some texts whose flag is up.
pub open spec fn picked(list: Seq<String>, flags: Seq<bool>) -> Seq<String>
    decreases list.len(),
{
    if list.len() == 0 {
        Seq::empty()
    } else {
        let earlier = picked(list.drop_last(), flags.drop_last());
        if flags.last() {
            earlier.push(list.last())
        } else {
            earlier
        }
    }
}

/// Those of some texts whose flag is up.
pub fn pick(list: &Vec<String>, flags: &Vec<bool>) -> (found: Vec<String>)
    requires
        list@.len() == flags@.len(),
    ensures
        found@ == picked(list@, flags@),
{
    let mut found: Vec<String> = Vec::new();
    assert(list@.take(0) =~= Seq::<String>::empty());
    for i in 0..list.len()
        invariant
            list@.len() == flags@.len(),
            found@ == picked(list@.take(i as int), flags@.take(i as int)),
    {
        assert(list@.take(i + 1).drop_last() =~= list@.take(i as int));
        assert(flags@.take(i + 1).drop_last() =~= flags@.take(i as int));
        if flags[i] {
            found.push(list[i].clone());
        }
    }
    assert(list@.take(list@.len() as int) =~= list@);
    assert(flags@.take(list@.len() as int) =~= flags@);
    found
}

/// Whether exclusions were made of a pattern alone, under the conventions of the
/// system.
pub open spec fn tried_alone(pattern: String, fits: bool) -> bool {
    exists|ignore_case: bool, made: Result<Exclusions, String>| #[trigger]
        Exclusions::made_of(made, seq![pattern], ignore_case) && rules::system_case(ignore_case)
            && fits == made is Ok
}

/// Those of some stored patterns that can be left out by themselves.
pub fn usable_exclusions(patterns: &Vec<String>) -> (usable: Vec<String>)
    ensures
        exists|flags: Seq<bool>|
            {
                &&& flags.len() == patterns@.len()
                &&& usable@ == #[trigger] picked(patterns@, flags)
                &&& forall|i: int| #![trigger flags[i]]
                    0 <= i < flags.len() ==> tried_alone(patterns@[i], flags[i])
            },
{
    let mut flags: Vec<bool> = Vec::new();
    for i in 0..patterns.len()
        invariant
            flags@.len() == i,
            forall|k: int| #![trigger flags@[k]]
                0 <= k < i ==> tried_alone(patterns@[k], flags@[k]),
    {
        let mut alone: Vec<String> = Vec::new();
        alone.push(patterns[i].clone());
        let made = Exclusions::new(&alone);
        let fits = made.is_ok();
        proof {
            let ignore_case = choose|ignore_case: bool| #[trigger]
                Exclusions::made_of(made, alone@, ignore_case) && rules::system_case(ignore_case);
            assert(alone@ =~= seq![patterns@[i as int]]);
            assert(Exclusions::made_of(made, seq![patterns@[i as int]], ignore_case));
            assert(tried_alone(patterns@[i as int], fits));
        }
        flags.push(fits);
    }
    pick(patterns, &flags)
}

/// The rules that were made, without those that were refused.
pub open spec fn made_rules(made: Seq<Result<Rule, String>>) -> Seq<Rule>
    decreases made.len(),
{
    if made.len() == 0 {
        Seq::empty()
    } else {
        let earlier = made_rules(made.drop_last());
        match made.last() {
            Ok(rule) => earlier.push(rule),
            Err(_) => earlier,
        }
    }
}

/// Keeps the rules that were made, without those that were refused.
pub fn keep_made(made: Vec<Result<Rule, String>>) -> (rules: Vec<Rule>)
    ensures
        rules@ == made_rules(made@),
{
    let ghost all = made@;
    let mut left = made;
    let count = left.len();
    let mut rules: Vec<Rule> = Vec::new();
    assert(all.take(0) =~= Seq::<Result<Rule, String>>::empty());
    assert(all.skip(0) =~= all);
    for i in 0..count
        invariant
            count == all.len(),
            left@ == all.skip(i as int),
            rules@ == made_rules(all.take(i as int)),
    {
        let next = left.remove(0);
        proof {
            assert(left@ =~= all.skip(i + 1));
            assert(all.take(i + 1).drop_last() =~= all.take(i as int));
            assert(next == all[i as int]);
        }
        if let Ok(rule) = next {
            rules.push(rule);
        }
    }
    assert(all.take(all.len() as int) =~= all);
    rules
}

/// Whether a rule was made of one that is stored, or refused, under the
/// conventions of the system.
pub open spec fn made_of_stored(made: Result<Rule, String>, stored: RuleSpec) -> bool {
    exists|spec: RuleSpec, ignore_case: bool|
        spec.pattern@ == stored.pattern@ && spec.continuous == stored.continuous
            && #[trigger] Rule::made_of(made, spec, ignore_case) && rules::system_case(ignore_case)
}

/// The rules that can be made of those that are stored.
pub fn usable_rules(specs: &Vec<RuleSpec>) -> (rules: Vec<Rule>)
    ensures
        exists|made: Seq<Result<Rule, String>>|
            {
                &&& made.len() == specs@.len()
                &&& rules@ == #[trigger] made_rules(made)
                &&& forall|i: int| #![trigger made[i]]
                    0 <= i < made.len() ==> made_of_stored(made[i], specs@[i])
            },
{
    let mut made: Vec<Result<Rule, String>> = Vec::new();
    for i in 0..specs.len()
        invariant
            made@.len() == i,
            forall|k: int| #![trigger made@[k]]
                0 <= k < i ==> made_of_stored(made@[k], specs@[k]),
    {
        let spec = specs[i].clone();
        let ghost wanted = spec;
        let outcome = Rule::new(spec);
        proof {
            let ignore_case = choose|ignore_case: bool| #[trigger]
                Rule::made_of(outcome, wanted, ignore_case) && rules::system_case(ignore_case);
            assert(Rule::made_of(outcome, wanted, ignore_case));
            assert(made_of_stored(outcome, specs@[i as int]));
        }
        made.push(outcome);
    }
    keep_made(made)
}

} // verus!
