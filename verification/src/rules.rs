//! Rules that mark files for deletion, and patterns that are left out of the
//! search.
use std::collections::HashSet;

use globset::{GlobSet, GlobSetBuilder};
use vstd::prelude::*;

use crate::counting;
use crate::globs;
use crate::model::{self, DupFile, FileId, GroupId, Model};
use crate::runs;
use crate::text;

verus! {

broadcast use vstd::std_specs::hash::group_hash_axioms;

/// A rule as it is stored.
pub struct RuleSpec {
    pub pattern: String,
    /// Applied by itself to the duplicates that a search finds.
    pub continuous: bool,
}

/// A rule that is ready to be applied.
pub struct Rule {
    pub spec: RuleSpec,
    /// The pattern, as a set that holds nothing else.
    pub matcher: GlobSet,
    /// What the rule did when it was last used by hand.
    pub last_result: Option<String>,
}

/// What applying a rule did.
pub struct ApplyResult {
    pub marked: usize,
    /// Files that match but were left, so that a copy remains.
    pub protected: usize,
}

/// Patterns that are left out of the search.
///
/// A pattern hides a file where it matches the file's path, and a whole folder
/// where it matches the folder's path, with or without a `/` at the end.
pub struct Exclusions {
    set: GlobSet,
    empty: bool,
}

/// What a pattern would do to the results.
#[derive(Clone, Copy, PartialEq, Eq, Structural)]
pub struct PatternCount {
    pub files: usize,
    pub folders: usize,
    /// Of a rule: the files that would really be marked.
    pub markable: usize,
}

impl Clone for RuleSpec {
    fn clone(&self) -> (copy: RuleSpec)
        ensures
            copy.pattern@ == self.pattern@,
            copy.continuous == self.continuous,
    {
        RuleSpec { pattern: self.pattern.clone(), continuous: self.continuous }
    }
}

// -------------------------------------------------------------------- patterns

/// A path or a pattern with `/` for every separator.
pub open spec fn slashed(path: Seq<char>) -> Seq<char> {
    text::replaced(path, '\\', '/')
}

/// A pattern as it is read: with `/` for every separator, with a `*` that
/// stands for separators too and no character that escapes.
pub open spec fn glob_text(pattern: Seq<char>, ignore_case: bool) -> globs::GlobText {
    (slashed(pattern), false, ignore_case, false)
}

/// The message with which a pattern is refused, if it is.
pub open spec fn refusal(pattern: Seq<char>, ignore_case: bool) -> Option<Seq<char>> {
    let glob = glob_text(pattern, ignore_case);
    globs::glob_refusal(glob.0, glob.1, glob.2, glob.3)
}

/// A path with `/` for every separator.
pub fn normalize(path: &str) -> (result: String)
    ensures
        result@ == slashed(path@),
        !result@.contains('\\'),
{
    let result = text::replace(path, '\\', '/');
    assert forall|i: int| 0 <= i < result@.len() implies result@[i] != '\\' by {}
    result
}

/// Whether the system ignores case, or does not: it does where it says that `\`
/// separates names.
pub open spec fn system_case(ignore_case: bool) -> bool {
    call_ensures(std::path::is_separator, ('\\',), ignore_case)
}

/// Whether case is ignored: it is where `\` separates names.
fn ignores_case() -> (result: bool)
    ensures
        system_case(result),
{
    std::path::is_separator('\\')
}

/// Adds a pattern to a set under construction.
fn build_glob(builder: &mut GlobSetBuilder, pattern: &str, ignore_case: bool) -> (result: Result<
    (),
    String,
>)
    ensures
        match result {
            Ok(()) => refusal(pattern@, ignore_case) is None && globs::builder_globs(
                *final(builder),
            ) == globs::builder_globs(*old(builder)).push(glob_text(pattern@, ignore_case)),
            Err(message) => refusal(pattern@, ignore_case) == Some(message@) && *final(builder)
                == *old(builder),
        },
{
    let pattern = normalize(pattern);
    globs::add_glob(builder, pattern.as_str(), false, ignore_case, false)
}

// ----------------------------------------------------------------------- rules

impl Rule {
    /// Whether the rule matches a path.
    pub open spec fn covers(self, path: Seq<char>) -> bool {
        globs::covered(globs::set_globs(self.matcher), slashed(path))
    }

    /// Which files the rule matches.
    pub open spec fn hits(self, files: Seq<DupFile>) -> Seq<bool> {
        Seq::new(files.len(), |f: int| self.covers(files[f].path@))
    }

    /// Whether this is the rule of a pattern.
    pub open spec fn is_of(self, spec: RuleSpec, ignore_case: bool) -> bool {
        &&& self.spec == spec
        &&& globs::set_globs(self.matcher) == seq![glob_text(spec.pattern@, ignore_case)]
        &&& self.last_result is None
    }

    /// What becomes of a pattern: it is refused with its message, or makes a
    /// rule.
    pub open spec fn made_of(
        result: Result<Rule, String>,
        spec: RuleSpec,
        ignore_case: bool,
    ) -> bool {
        match result {
            Ok(rule) => refusal(spec.pattern@, ignore_case) is None && rule.is_of(
                spec,
                ignore_case,
            ),
            Err(message) => match refusal(spec.pattern@, ignore_case) {
                Some(m) => message@ == m,
                None => globs::build_failed(
                    seq![glob_text(spec.pattern@, ignore_case)],
                    message@,
                ),
            },
        }
    }

    /// The rule of a pattern, under the conventions of the system.
    pub fn new(spec: RuleSpec) -> (result: Result<Rule, String>)
        ensures
            exists|ignore_case: bool| #[trigger]
                Rule::made_of(result, spec, ignore_case) && system_case(ignore_case),
            exists|ignore_case: bool|
                call_ensures(std::path::is_separator, ('\\',), ignore_case)
                    && #[trigger] Rule::made_of(result, spec, ignore_case),
    {
        let ignore_case = ignores_case();
        let result = Rule::with_case(spec, ignore_case);
        assert(Rule::made_of(result, spec, ignore_case));
        result
    }

    /// The rule of a pattern, which may ignore case. It is refused where the
    /// pattern is, with the same message; what a pattern compiles to can also be
    /// too large.
    pub fn with_case(spec: RuleSpec, ignore_case: bool) -> (result: Result<Rule, String>)
        ensures
            Rule::made_of(result, spec, ignore_case),
            result is Ok ==> refusal(spec.pattern@, ignore_case) is None,
            result is Err && refusal(spec.pattern@, ignore_case) is None ==> globs::build_failed(
                seq![glob_text(spec.pattern@, ignore_case)],
                result->Err_0@,
            ),
    {
        let mut builder = globs::new_builder();
        match build_glob(&mut builder, spec.pattern.as_str(), ignore_case) {
            Err(message) => Err(message),
            Ok(()) => {
                let built = globs::finish_set(&builder);
                proof {
                    assert(globs::builder_globs(builder) =~= seq![
                        glob_text(spec.pattern@, ignore_case),
                    ]);
                }
                Rule::from_set(spec, built)
            },
        }
    }

    /// The rule of a pattern, from the set that was built of it.
    pub fn from_set(spec: RuleSpec, built: Result<GlobSet, String>) -> (result: Result<Rule, String>)
        ensures
            match built {
                Ok(set) => result == Ok::<Rule, String>(
                    Rule { spec, matcher: set, last_result: None },
                ),
                Err(message) => result == Err::<Rule, String>(message),
            },
    {
        match built {
            Ok(set) => Ok(Rule { spec, matcher: set, last_result: None }),
            Err(message) => Err(message),
        }
    }

    /// Whether the rule matches a path.
    pub fn matches(&self, path: &str) -> (result: bool)
        ensures
            result == self.covers(path@),
    {
        let path = normalize(path);
        globs::set_matches(&self.matcher, path.as_str())
    }
}

// ------------------------------------------------------------------ exclusions

impl View for Exclusions {
    type V = Seq<(Seq<char>, bool, bool, bool)>;

    /// The patterns.
    closed spec fn view(&self) -> Seq<(Seq<char>, bool, bool, bool)> {
        if self.empty {
            Seq::empty()
        } else {
            globs::set_globs(self.set)
        }
    }
}

impl Clone for Exclusions {
    fn clone(&self) -> (copy: Exclusions)
        ensures
            copy@ == self@,
    {
        Exclusions { set: self.set.clone(), empty: self.empty }
    }
}

impl Default for Exclusions {
    /// Nothing is left out.
    fn default() -> (exclusions: Exclusions)
        ensures
            exclusions@ == Seq::<globs::GlobText>::empty(),
    {
        Exclusions { set: globs::empty_set(), empty: true }
    }
}

/// The first of some patterns that is refused.
pub open spec fn first_refused(patterns: Seq<String>, ignore_case: bool, i: int) -> bool {
    &&& 0 <= i < patterns.len()
    &&& refusal(patterns[i]@, ignore_case) is Some
    &&& forall|j: int| 0 <= j < i ==> refusal((#[trigger] patterns[j])@, ignore_case) is None
}

/// Some patterns as they are read.
pub open spec fn glob_texts(patterns: Seq<String>, ignore_case: bool) -> Seq<globs::GlobText> {
    Seq::new(patterns.len(), |i: int| glob_text(patterns[i]@, ignore_case))
}

impl Exclusions {
    /// Whether a file is hidden, by its path.
    pub open spec fn hides_file(self, path: Seq<char>) -> bool {
        globs::covered(self@, slashed(path))
    }

    /// Whether a folder is hidden, by its path.
    pub open spec fn hides_dir(self, path: Seq<char>) -> bool {
        let path = slashed(path);
        globs::covered(self@, path) || globs::covered(
            self@,
            if path.len() > 0 && path.last() == '/' {
                path
            } else {
                path.push('/')
            },
        )
    }

    /// What becomes of some patterns: a pattern that is refused refuses them
    /// all, with the message of the first.
    pub open spec fn made_of(
        result: Result<Exclusions, String>,
        patterns: Seq<String>,
        ignore_case: bool,
    ) -> bool {
        match result {
            Ok(exclusions) => {
                &&& forall|i: int| 0 <= i < patterns.len() ==> refusal(
                    (#[trigger] patterns[i])@,
                    ignore_case,
                ) is None
                &&& exclusions@ == glob_texts(patterns, ignore_case)
            },
            Err(message) => {
                &&& patterns.len() > 0
                &&& forall|i: int| #[trigger]
                    first_refused(patterns, ignore_case, i) ==> Some(message@) == refusal(
                        patterns[i]@,
                        ignore_case,
                    )
                &&& (forall|i: int| 0 <= i < patterns.len() ==> refusal(
                    (#[trigger] patterns[i])@,
                    ignore_case,
                ) is None) ==> globs::build_failed(glob_texts(patterns, ignore_case), message@)
            },
        }
    }

    /// The patterns to leave out, under the conventions of the system.
    pub fn new(patterns: &Vec<String>) -> (result: Result<Exclusions, String>)
        ensures
            exists|ignore_case: bool| #[trigger]
                Exclusions::made_of(result, patterns@, ignore_case) && system_case(ignore_case),
            exists|ignore_case: bool|
                call_ensures(std::path::is_separator, ('\\',), ignore_case)
                    && #[trigger] Exclusions::made_of(result, patterns@, ignore_case),
    {
        let ignore_case = ignores_case();
        let result = Exclusions::with_case(patterns, ignore_case);
        assert(Exclusions::made_of(result, patterns@, ignore_case));
        result
    }

    /// The patterns to leave out, which may ignore case. They are refused where
    /// one of them is; what they compile to can also be too large.
    pub fn with_case(patterns: &Vec<String>, ignore_case: bool) -> (result: Result<
        Exclusions,
        String,
    >)
        ensures
            Exclusions::made_of(result, patterns@, ignore_case),
            result is Err && (forall|i: int|
                0 <= i < patterns@.len() ==> refusal((#[trigger] patterns@[i])@, ignore_case) is None)
                ==> globs::build_failed(glob_texts(patterns@, ignore_case), result->Err_0@),
    {
        let mut builder = globs::new_builder();
        let ghost texts = glob_texts(patterns@, ignore_case);
        assert(texts.take(0) =~= Seq::<globs::GlobText>::empty());
        for i in 0..patterns.len()
            invariant
                texts == glob_texts(patterns@, ignore_case),
                globs::builder_globs(builder) == texts.take(i as int),
                forall|j: int| 0 <= j < i ==> refusal((#[trigger] patterns@[j])@, ignore_case) is None,
        {
            match build_glob(&mut builder, patterns[i].as_str(), ignore_case) {
                Ok(()) => {
                    assert(texts.take(i + 1) =~= texts.take(i as int).push(texts[i as int]));
                },
                Err(message) => {
                    assert forall|k: int| #[trigger]
                        first_refused(patterns@, ignore_case, k) implies k == i by {
                        if k < i {
                            assert(refusal(patterns@[k]@, ignore_case) is None);
                        }
                        if k > i {
                            assert(refusal(patterns@[i as int]@, ignore_case) is None);
                        }
                    }
                    return Err(message);
                },
            }
        }
        assert(texts.take(texts.len() as int) =~= texts);
        let built = globs::finish_set(&builder);
        Exclusions::from_set(built, patterns.len() == 0)
    }

    /// The patterns to leave out, from the set that was built of them. Where there
    /// are none, the set is not looked at.
    pub fn from_set(built: Result<GlobSet, String>, empty: bool) -> (result: Result<
        Exclusions,
        String,
    >)
        ensures
            match built {
                Ok(set) => {
                    &&& result is Ok
                    &&& result->Ok_0@ == if empty {
                        Seq::<globs::GlobText>::empty()
                    } else {
                        globs::set_globs(set)
                    }
                },
                Err(message) => result == Err::<Exclusions, String>(message),
            },
    {
        match built {
            Ok(set) => Ok(Exclusions { set, empty }),
            Err(message) => Err(message),
        }
    }

    /// Whether a file is hidden, by its path.
    pub fn excludes_file(&self, path: &str) -> (result: bool)
        ensures
            result == self.hides_file(path@),
    {
        if self.empty {
            return false;
        }
        let path = normalize(path);
        globs::set_matches(&self.set, path.as_str())
    }

    /// Whether a folder is hidden, by its path.
    pub fn excludes_dir(&self, path: &str) -> (result: bool)
        ensures
            result == self.hides_dir(path@),
    {
        if self.empty {
            return false;
        }
        let mut path = normalize(path);
        if globs::set_matches(&self.set, path.as_str()) {
            return true;
        }
        let chars = text::chars_of(path.as_str());
        if chars.len() == 0 || chars[chars.len() - 1] != '/' {
            path.push('/');
        }
        globs::set_matches(&self.set, path.as_str())
    }
}

// -------------------------------------------------------------------- applying

/// Applies a rule to some files.
pub fn apply(rule: &Rule, model: &mut Model, files: &[FileId]) -> (result: ApplyResult)
    requires
        old(model).wf(),
        runs::are_files(old(model).files@, files@),
    ensures
        final(model).wf(),
        final(model).same_but_files(*old(model)),
        final(model).files@ == runs::run(
            old(model).files@,
            rule.hits(old(model).files@),
            files@,
            false,
        ),
        result.marked == runs::marks_made(
            old(model).files@,
            rule.hits(old(model).files@),
            files@,
        ),
        result.protected == runs::marks_withheld(
            old(model).files@,
            rule.hits(old(model).files@),
            files@,
        ),
        final(model).dirty == (old(model).dirty || result.marked > 0),
{
    let ghost before = *model;
    let ghost hits = rule.hits(before.files@);
    let mut result = ApplyResult { marked: 0, protected: 0 };
    assert(files@.take(0) =~= Seq::<FileId>::empty());
    for i in 0..files.len()
        invariant
            before.wf(),
            runs::are_files(before.files@, files@),
            hits == rule.hits(before.files@),
            model.wf(),
            model.same_but_files(before),
            model.files@ == runs::run(before.files@, hits, files@.take(i as int), false),
            result.marked == runs::marks_made(before.files@, hits, files@.take(i as int)),
            result.protected == runs::marks_withheld(before.files@, hits, files@.take(i as int)),
            result.marked + result.protected <= i,
            model.dirty == (before.dirty || result.marked > 0),
    {
        let f = files[i];
        let ghost now = *model;
        proof {
            assert(files@[i as int] < before.files@.len());
            assert(files@.take(i + 1).drop_last() =~= files@.take(i as int));
            assert(files@.take(i + 1).last() == f);
            now.lemma_as_files(f as int);
            assert(now.files@[f as int].path == before.files@[f as int].path);
        }
        if model.is_visible(f) && !model.files[f].marked && rule.matches(
            model.files[f].path.as_str(),
        ) {
            if model.mark_keeping_one(f) {
                result.marked = result.marked + 1;
            } else {
                result.protected = result.protected + 1;
            }
        }
        proof {
            lemma_same_but_files(*model, now, before);
        }
    }
    assert(files@.take(files@.len() as int) =~= files@);
    result
}

pub proof fn lemma_same_but_files(after: Model, between: Model, before: Model)
    requires
        between.same_but_files(before),
        after.same_but_files(between),
    ensures
        after.same_but_files(before),
{
    assert forall|f: int| #![trigger after.files@[f]] 0 <= f < after.files@.len() implies {
        &&& after.files@[f].path == before.files@[f].path
        &&& after.files@[f].group == before.files@[f].group
        &&& after.files@[f].node == before.files@[f].node
    } by {
        assert(between.files@[f].path == before.files@[f].path);
    }
}

/// Which files match one of the rules that apply by themselves.
pub open spec fn continuous_hits(rules: Seq<Rule>, files: Seq<DupFile>) -> Seq<bool> {
    Seq::new(files.len(), |f: int| continuous_covers(rules, files[f].path@))
}

/// Whether one of the rules that apply by themselves matches a path.
pub open spec fn continuous_covers(rules: Seq<Rule>, path: Seq<char>) -> bool {
    exists|i: int| 0 <= i < rules.len() && rules[i].spec.continuous && #[trigger] rules[i].covers(path)
}

/// Whether a group is that of one of the first of some files.
pub open spec fn group_met(files: Seq<DupFile>, ids: Seq<FileId>, count: int, g: GroupId) -> bool {
    exists|i: int| 0 <= i < count && files[#[trigger] ids[i] as int].group == g
}

/// Whether a file is one of the first of some.
spec fn listed(ids: Seq<FileId>, count: int, f: FileId) -> bool {
    exists|i: int| 0 <= i < count && #[trigger] ids[i] == f
}

/// The files of a group that wait for another copy and are not new themselves.
pub open spec fn waiting(members: Seq<FileId>, files: Seq<DupFile>, new_files: Seq<FileId>) -> Seq<
    FileId,
> {
    members.filter(|f: FileId| files[f as int].rule_pending && !new_files.contains(f))
}

impl Model {
    /// The files that wait for another copy in the groups of the first of some
    /// new files, group by group.
    pub open spec fn retried(self, new_files: Seq<FileId>, count: nat) -> Seq<FileId>
        decreases count,
    {
        if count == 0 {
            Seq::empty()
        } else {
            let earlier = self.retried(new_files, (count - 1) as nat);
            let g = self.files@[new_files[count - 1] as int].group;
            if group_met(self.files@, new_files, count - 1, g) {
                earlier
            } else {
                earlier + waiting(self.groups@[g as int].files@, self.files@, new_files)
            }
        }
    }

    /// The files to which new ones give occasion to apply rules: the new ones,
    /// then those that waited for another copy.
    pub open spec fn candidates(self, new_files: Seq<FileId>) -> Seq<FileId> {
        new_files + self.retried(new_files, new_files.len())
    }

    /// The files of a group that wait for another copy and are not new.
    fn waiting_files(&self, g: GroupId, new_set: &HashSet<FileId>, Ghost(new_files): Ghost<
        Seq<FileId>,
    >) -> (found: Vec<FileId>)
        requires
            self.wf(),
            g < self.groups@.len(),
            forall|f: FileId| new_set@.contains(f) == #[trigger] new_files.contains(f),
        ensures
            found@ == waiting(self.groups@[g as int].files@, self.files@, new_files),
    {
        let members = &self.groups[g].files;
        let ghost pred = |f: FileId| self.files@[f as int].rule_pending && !new_files.contains(f);
        let mut found: Vec<FileId> = Vec::new();
        proof {
            reveal(Seq::filter);
            assert(members@.take(0).filter(pred) =~= Seq::<FileId>::empty());
        }
        for i in 0..members.len()
            invariant
                self.wf(),
                g < self.groups@.len(),
                members == self.groups@[g as int].files,
                forall|f: FileId| new_set@.contains(f) == #[trigger] new_files.contains(f),
                pred == (|f: FileId|
                    self.files@[f as int].rule_pending && !new_files.contains(f)),
                found@ == members@.take(i as int).filter(pred),
        {
            let f = members[i];
            proof {
                reveal(Seq::filter);
                assert(self.groups@[g as int].files@[i as int] == f);
                assert(members@.take(i as int + 1).drop_last() =~= members@.take(i as int));
            }
            if self.files[f].rule_pending && !new_set.contains(&f) {
                found.push(f);
            }
        }
        assert(members@.take(members@.len() as int) =~= members@);
        found
    }

    /// The files to which new ones give occasion to apply rules.
    fn candidate_files(&self, new_files: &[FileId]) -> (found: Vec<FileId>)
        requires
            self.wf(),
            runs::are_files(self.files@, new_files@),
        ensures
            found@ == self.candidates(new_files@),
            runs::are_files(self.files@, found@),
    {
        let mut new_set: HashSet<FileId> = HashSet::new();
        let mut found: Vec<FileId> = Vec::new();
        for i in 0..new_files.len()
            invariant
                found@ == new_files@.take(i as int),
                forall|f: FileId| #[trigger]
                    new_set@.contains(f) == listed(new_files@, i as int, f),
        {
            let f = new_files[i];
            let ghost before = new_set@;
            new_set.insert(f);
            found.push(f);
            proof {
                assert(new_files@.take(i + 1) =~= new_files@.take(i as int).push(f));
                assert(new_set@ == before.insert(f));
                assert forall|o: FileId| #[trigger]
                    new_set@.contains(o) == listed(new_files@, i + 1, o) by {
                    assert(before.contains(o) == listed(new_files@, i as int, o));
                    assert(new_files@[i as int] == f);
                }
            }
        }
        assert(new_files@.take(new_files@.len() as int) =~= new_files@);
        assert forall|f: FileId| new_set@.contains(f) == #[trigger] new_files@.contains(f) by {
            assert(new_set@.contains(f) == listed(new_files@, new_files@.len() as int, f));
        }
        let mut met: HashSet<GroupId> = HashSet::new();
        assert(found@ =~= new_files@ + self.retried(new_files@, 0));
        for i in 0..new_files.len()
            invariant
                self.wf(),
                runs::are_files(self.files@, new_files@),
                forall|f: FileId| new_set@.contains(f) == #[trigger] new_files@.contains(f),
                forall|g: GroupId| #[trigger]
                    met@.contains(g) == group_met(self.files@, new_files@, i as int, g),
                found@ == new_files@ + self.retried(new_files@, i as nat),
        {
            let f = new_files[i];
            assert(new_files@[i as int] < self.files@.len());
            let g = self.files[f].group;
            let ghost met_before = met@;
            assert(met@.contains(g) == group_met(self.files@, new_files@, i as int, g));
            if !met.contains(&g) {
                let mut more = self.waiting_files(g, &new_set, Ghost(new_files@));
                found.append(&mut more);
                met.insert(g);
                proof {
                    assert(found@ =~= new_files@ + self.retried(new_files@, (i + 1) as nat));
                }
            }
            proof {
                assert(met@ =~= met_before.insert(g));
                assert forall|h: GroupId| #[trigger]
                    met@.contains(h) == group_met(self.files@, new_files@, i + 1, h) by {
                    assert(met_before.contains(h) == group_met(
                        self.files@,
                        new_files@,
                        i as int,
                        h,
                    ));
                    assert(self.files@[new_files@[i as int] as int].group == g);
                    if group_met(self.files@, new_files@, i as int, h) {
                        let j = choose|j: int|
                            0 <= j < i && self.files@[#[trigger] new_files@[j] as int].group == h;
                        assert(self.files@[new_files@[j] as int].group == h);
                    }
                    if group_met(self.files@, new_files@, i + 1, h) && h != g {
                        let j = choose|j: int|
                            0 <= j < i + 1 && self.files@[#[trigger] new_files@[j] as int].group
                                == h;
                        assert(self.files@[new_files@[j] as int].group == h);
                        assert(group_met(self.files@, new_files@, i as int, h));
                    }
                }
            }
        }
        proof {
            lemma_candidates(*self, new_files@);
        }
        found
    }
}

proof fn lemma_retried_files(model: Model, new_files: Seq<FileId>, count: nat)
    requires
        model.wf(),
        runs::are_files(model.files@, new_files),
        count <= new_files.len(),
    ensures
        runs::are_files(model.files@, model.retried(new_files, count)),
    decreases count,
{
    if count > 0 {
        let earlier = model.retried(new_files, (count - 1) as nat);
        lemma_retried_files(model, new_files, (count - 1) as nat);
        assert(new_files[count - 1] < model.files@.len());
        let g = model.files@[new_files[count - 1] as int].group;
        let members = model.groups@[g as int].files@;
        let pred = |f: FileId| model.files@[f as int].rule_pending && !new_files.contains(f);
        let found = model.retried(new_files, count);
        assert forall|j: int| 0 <= j < found.len() implies (#[trigger] found[j])
            < model.files@.len() by {
            if j < earlier.len() {
                assert(found[j] == earlier[j]);
            } else {
                assert(waiting(members, model.files@, new_files)[j - earlier.len()] == found[j]);
                members.lemma_filter_contains_rev(pred, found[j]);
                let k = members.index_of(found[j]);
                assert(model.groups@[g as int].files@[k] == found[j]);
            }
        }
    }
}

/// What new files give occasion to are files.
pub proof fn lemma_candidates(model: Model, new_files: Seq<FileId>)
    requires
        model.wf(),
        runs::are_files(model.files@, new_files),
    ensures
        runs::are_files(model.files@, model.candidates(new_files)),
{
    let more = model.retried(new_files, new_files.len());
    lemma_retried_files(model, new_files, new_files.len());
    let all = model.candidates(new_files);
    assert forall|j: int| 0 <= j < all.len() implies (#[trigger] all[j]) < model.files@.len() by {
        if j < new_files.len() {
            assert(all[j] == new_files[j]);
        } else {
            assert(all[j] == more[j - new_files.len()]);
        }
    }
}

/// Whether one of the rules that apply by themselves matches a path.
fn any_continuous(rules: &[Rule], path: &str) -> (result: bool)
    ensures
        result == continuous_covers(rules@, path@),
{
    for i in 0..rules.len()
        invariant
            forall|j: int|
                0 <= j < i ==> !(rules@[j].spec.continuous && #[trigger] rules@[j].covers(path@)),
    {
        if rules[i].spec.continuous && rules[i].matches(path) {
            assert(rules@[i as int].covers(path@));
            return true;
        }
    }
    false
}

/// Applies the rules that apply by themselves to files that were just found.
///
/// Files of the same groups that were spared before are tried again, as a new
/// one may now be the copy that stays.
pub fn apply_continuous(rules: &[Rule], model: &mut Model, new_files: &[FileId])
    requires
        old(model).wf(),
        runs::are_files(old(model).files@, new_files@),
    ensures
        final(model).wf(),
        final(model).same_but_files(*old(model)),
        final(model).files@ == runs::run(
            old(model).files@,
            continuous_hits(rules@, old(model).files@),
            old(model).candidates(new_files@),
            true,
        ),
        final(model).dirty == (old(model).dirty || exists|f: int| #![trigger final(model).files@[f]]
            0 <= f < final(model).files@.len() && final(model).files@[f].marked
                != old(model).files@[f].marked),
{
    let ghost before = *model;
    let ghost hits = continuous_hits(rules@, before.files@);
    let mut any = false;
    for i in 0..rules.len()
        invariant
            any == exists|j: int| 0 <= j < i && (#[trigger] rules@[j]).spec.continuous,
    {
        if rules[i].spec.continuous {
            assert(rules@[i as int].spec.continuous);
            any = true;
        }
    }
    if !any {
        proof {
            let candidates = model.candidates(new_files@);
            lemma_candidates(before, new_files@);
            assert forall|f: int| 0 <= f < hits.len() implies !#[trigger] hits[f] by {
                if hits[f] {
                    let path = before.files@[f].path@;
                    let i = choose|i: int|
                        0 <= i < rules@.len() && rules@[i].spec.continuous
                            && #[trigger] rules@[i].covers(path);
                    assert(rules@[i].spec.continuous);
                }
            }
            runs::lemma_run_frame(before.files@, hits, candidates, true);
            assert(runs::run(before.files@, hits, candidates, true) =~= before.files@);
        }
        return ;
    }
    let candidates = model.candidate_files(new_files);
    assert(candidates@.take(0) =~= Seq::<FileId>::empty());
    for i in 0..candidates.len()
        invariant
            before.wf(),
            runs::are_files(before.files@, candidates@),
            hits == continuous_hits(rules@, before.files@),
            model.wf(),
            model.same_but_files(before),
            model.files@ == runs::run(before.files@, hits, candidates@.take(i as int), true),
            model.dirty == (before.dirty || exists|f: int| #![trigger model.files@[f]]
                0 <= f < model.files@.len() && model.files@[f].marked != before.files@[f].marked),
    {
        let f = candidates[i];
        let ghost now = *model;
        proof {
            assert(candidates@[i as int] < before.files@.len());
            assert(candidates@.take(i + 1).drop_last() =~= candidates@.take(i as int));
            assert(candidates@.take(i + 1).last() == f);
            now.lemma_as_files(f as int);
            assert(now.files@[f as int].path == before.files@[f as int].path);
            runs::lemma_run_frame(before.files@, hits, candidates@.take(i as int), true);
            assert(runs::marked_more(before.files@, now.files@));
        }
        if model.is_visible(f) && !model.files[f].marked && any_continuous(
            rules,
            model.files[f].path.as_str(),
        ) {
            if !model.mark_keeping_one(f) {
                model.files[f].rule_pending = true;
                proof {
                    assert(model.files@ =~= now.files@.update(
                        f as int,
                        (DupFile { rule_pending: true, ..now.files@[f as int] }),
                    ));
                    model.lemma_wf_kept(now);
                }
            } else {
                assert(model.files@[f as int].marked != before.files@[f as int].marked);
            }
        }
        proof {
            lemma_same_but_files(*model, now, before);
            if now.dirty && !before.dirty {
                let o = choose|o: int| #![trigger now.files@[o]]
                    0 <= o < now.files@.len() && now.files@[o].marked != before.files@[o].marked;
                assert(model.files@[o].marked);
                assert(model.files@[o].marked != before.files@[o].marked);
            }
            if !model.dirty {
                assert forall|o: int| #![trigger model.files@[o]]
                    0 <= o < model.files@.len() implies model.files@[o].marked
                    == before.files@[o].marked by {
                    assert(now.files@[o].marked == before.files@[o].marked);
                }
            }
        }
    }
    assert(candidates@.take(candidates@.len() as int) =~= candidates@);
}

/// Takes their marks from the files that match a rule, and says how many.
pub fn unapply(rule: &Rule, model: &mut Model) -> (count: usize)
    requires
        old(model).wf(),
    ensures
        final(model).wf(),
        final(model).same_but_files(*old(model)),
        forall|f: int| #![trigger final(model).files@[f]]
            0 <= f < final(model).files@.len() ==> final(model).files@[f] == (
            if old(model).files@[f].marked && rule.covers(old(model).files@[f].path@) {
                model::with_mark(old(model).files@[f], false)
            } else {
                old(model).files@[f]
            }),
        count == counting::count(
            old(model).files@.len(),
            |f: int| old(model).files@[f].marked && rule.covers(old(model).files@[f].path@),
        ),
        final(model).dirty == (old(model).dirty || count > 0),
{
    let ghost before = *model;
    let ghost hit = |f: int| before.files@[f].marked && rule.covers(before.files@[f].path@);
    let mut n: usize = 0;
    let count = model.files.len();
    for f in 0..count
        invariant
            before.wf(),
            model.wf(),
            model.same_but_files(before),
            count == model.files@.len(),
            hit == (|f: int| before.files@[f].marked && rule.covers(before.files@[f].path@)),
            n == counting::count(f as nat, hit),
            n <= f,
            model.dirty == (before.dirty || n > 0),
            forall|o: int| #![trigger model.files@[o]]
                0 <= o < count ==> model.files@[o] == (if o < f && hit(o) {
                    model::with_mark(before.files@[o], false)
                } else {
                    before.files@[o]
                }),
    {
        let ghost now = *model;
        assert(now.files@[f as int] == before.files@[f as int]);
        if model.files[f].marked && rule.matches(model.files[f].path.as_str()) {
            model.set_marked(f, false);
            n = n + 1;
            proof {
                assert(hit(f as int));
                lemma_same_but_files(*model, now, before);
                assert forall|o: int| #![trigger model.files@[o]] 0 <= o < count implies model.files@[o]
                    == (if o < f + 1 && hit(o) {
                    model::with_mark(before.files@[o], false)
                } else {
                    before.files@[o]
                }) by {
                    assert(o != f ==> model.files@[o] == now.files@[o]);
                }
            }
        } else {
            assert(!hit(f as int));
        }
    }
    n
}

/// How many files that are shown match a rule.
pub fn count_matches(rule: &Rule, model: &Model) -> (count: usize)
    requires
        model.wf(),
    ensures
        count == counting::count(model.files@.len(), model.matching(*rule)),
{
    let mut n: usize = 0;
    for f in 0..model.files.len()
        invariant
            model.wf(),
            n == counting::count(f as nat, model.matching(*rule)),
            n <= f,
    {
        if model.is_visible(f) && rule.matches(model.files[f].path.as_str()) {
            n = n + 1;
        }
    }
    n
}

impl Model {
    /// Whether a file is shown and matches a rule.
    pub open spec fn matching(self, rule: Rule) -> spec_fn(int) -> bool {
        |f: int| self.visible(f) && rule.covers(self.files@[f].path@)
    }
}


impl Model {
    /// Whether a file is shown, matches a rule and is unmarked, in a group.
    pub open spec fn markable_in(self, rule: Rule, g: int) -> spec_fn(int) -> bool {
        |f: int|
            self.visible(f) && rule.covers(self.files@[f].path@) && !self.files@[f].marked
                && self.files@[f].group == g
    }

    /// Whether a file of a group is present and unmarked.
    pub open spec fn unmarked_in(self, g: int) -> spec_fn(int) -> bool {
        |f: int| self.alive(f) && !self.files@[f].marked && self.files@[f].group == g
    }

    /// How many files of a group a rule would mark, one copy being left.
    pub open spec fn markable(self, rule: Rule) -> spec_fn(int) -> nat {
        |g: int|
            {
                let matching = counting::count(self.files@.len(), self.markable_in(rule, g));
                let unmarked = counting::count(self.files@.len(), self.unmarked_in(g));
                if unmarked == 0 {
                    0
                } else if matching < unmarked {
                    matching
                } else {
                    (unmarked - 1) as nat
                }
            }
    }

    /// Whether a folder holds a file of some.
    pub open spec fn holds_one(self, of: spec_fn(int) -> bool) -> spec_fn(int) -> bool {
        |n: int| exists|f: int| 0 <= f < self.files@.len() && self.files@[f].node == n && #[trigger] of(f)
    }

    /// How many unmarked files of a group are present.
    fn count_unmarked(&self, g: GroupId) -> (count: usize)
        requires
            self.wf(),
            g < self.groups@.len(),
        ensures
            count == counting::count(self.files@.len(), self.unmarked_in(g as int)),
    {
        let members = &self.groups[g].files;
        let mut n: usize = 0;
        let ghost mut up_to: int = 0;
        for i in 0..members.len()
            invariant
                self.wf(),
                g < self.groups@.len(),
                members == self.groups@[g as int].files,
                n <= i,
                0 <= up_to <= self.files@.len(),
                up_to == (if i == 0 {
                    0
                } else {
                    members@[i - 1] + 1
                }),
                n == counting::count(up_to as nat, self.unmarked_in(g as int)),
        {
            let f = members[i];
            proof {
                assert(self.groups@[g as int].files@[i as int] == f);
                assert(i > 0 ==> members@[i - 1] < f) by {
                    if i > 0 {
                        assert(self.groups@[g as int].files@[i - 1]
                            < self.groups@[g as int].files@[i as int]);
                    }
                }
                self.lemma_between(g as int, up_to, f as int, i as int);
                up_to = f + 1;
            }
            if !self.files[f].removed && !self.files[f].excluded && !self.files[f].marked {
                n = n + 1;
            }
        }
        proof {
            self.lemma_between(g as int, up_to, self.files@.len() as int, members@.len() as int);
        }
        n
    }

    /// Between two members of a group that follow each other stands no file of
    /// the group.
    proof fn lemma_between(self, g: int, from: int, to: int, i: int)
        requires
            self.wf(),
            0 <= g < self.groups@.len(),
            0 <= i <= self.groups@[g].files@.len(),
            0 <= from <= to <= self.files@.len(),
            from == (if i == 0 {
                0
            } else {
                self.groups@[g].files@[i - 1] + 1
            }),
            i < self.groups@[g].files@.len() ==> to <= self.groups@[g].files@[i],
        ensures
            counting::count(to as nat, self.unmarked_in(g)) == counting::count(
                from as nat,
                self.unmarked_in(g),
            ),
        decreases to - from,
    {
        if from < to {
            let f = to - 1;
            let members = self.groups@[g].files@;
            if self.files@[f].group == g {
                assert(members.contains(f as usize));
                let j = members.index_of(f as usize);
                assert(members[j] == f);
                if j < i - 1 {
                    assert(self.groups@[g].files@[j] < self.groups@[g].files@[i - 1]);
                }
                if j > i {
                    assert(self.groups@[g].files@[i] < self.groups@[g].files@[j]);
                }
                assert(false);
            }
            self.lemma_between(g, from, f, i);
        }
    }
}

/// How many flags are up.
fn count_flags(flags: &Vec<bool>) -> (count: usize)
    ensures
        count == counting::count(flags@.len(), |i: int| flags@[i]),
{
    let mut n: usize = 0;
    for i in 0..flags.len()
        invariant
            n <= i,
            n == counting::count(i as nat, |i: int| flags@[i]),
    {
        if flags[i] {
            n = n + 1;
        }
    }
    n
}

/// Counts the files that are shown and match a rule, their folders, and how many
/// of the files would be marked.
pub fn count_rule(rule: &Rule, model: &Model) -> (count: PatternCount)
    requires
        model.wf(),
    ensures
        count.files == counting::count(model.files@.len(), model.matching(*rule)),
        count.folders == counting::count(
            model.nodes@.len(),
            model.holds_one(model.matching(*rule)),
        ),
        count.markable == counting::total(model.groups@.len(), model.markable(*rule)),
{
    let ghost matching = model.matching(*rule);
    let mut files: usize = 0;
    let mut folders: Vec<bool> = Vec::new();
    for n in 0..model.nodes.len()
        invariant
            folders@.len() == n,
            forall|m: int| 0 <= m < n ==> !#[trigger] folders@[m],
    {
        folders.push(false);
    }
    let mut by_group: Vec<usize> = Vec::new();
    for g in 0..model.groups.len()
        invariant
            by_group@.len() == g,
            forall|h: int| 0 <= h < g ==> #[trigger] by_group@[h] == 0,
    {
        by_group.push(0);
    }
    for f in 0..model.files.len()
        invariant
            model.wf(),
            matching == model.matching(*rule),
            files <= f,
            files == counting::count(f as nat, matching),
            folders@.len() == model.nodes@.len(),
            forall|n: int| 0 <= n < folders@.len() ==> #[trigger] folders@[n] == (exists|o: int|
                0 <= o < f && model.files@[o].node == n && #[trigger] matching(o)),
            by_group@.len() == model.groups@.len(),
            forall|g: int|
                0 <= g < by_group@.len() ==> #[trigger] by_group@[g] <= f && by_group@[g]
                    == counting::count(f as nat, model.markable_in(*rule, g)),
    {
        let hit = model.is_visible(f) && rule.matches(model.files[f].path.as_str());
        assert(hit == matching(f as int));
        let ghost folders_before = folders@;
        let ghost groups_before = by_group@;
        if hit {
            files = files + 1;
            let n = model.files[f].node;
            folders.set(n, true);
            if !model.files[f].marked {
                let g = model.files[f].group;
                by_group.set(g, by_group[g] + 1);
            }
        }
        proof {
            assert forall|n: int| 0 <= n < folders@.len() implies #[trigger] folders@[n] == (exists|
                o: int,
            |
                0 <= o < f + 1 && model.files@[o].node == n && #[trigger] matching(o)) by {
                assert(folders_before[n] == (exists|o: int|
                    0 <= o < f && model.files@[o].node == n && #[trigger] matching(o)));
                if folders_before[n] {
                    let o = choose|o: int|
                        0 <= o < f && model.files@[o].node == n && #[trigger] matching(o);
                    assert(matching(o));
                }
            }
            assert forall|g: int| 0 <= g < by_group@.len() implies #[trigger] by_group@[g] <= f + 1
                && by_group@[g] == counting::count((f + 1) as nat, model.markable_in(*rule, g)) by {
                assert(groups_before[g] == counting::count(f as nat, model.markable_in(*rule, g)));
                assert(model.markable_in(*rule, g)(f as int) == (hit
                    && !model.files@[f as int].marked && model.files@[f as int].group == g));
            }
        }
    }
    let mut markable: usize = 0;
    for g in 0..model.groups.len()
        invariant
            model.wf(),
            by_group@.len() == model.groups@.len(),
            forall|g: int|
                0 <= g < by_group@.len() ==> #[trigger] by_group@[g] == counting::count(
                    model.files@.len(),
                    model.markable_in(*rule, g),
                ),
            markable == counting::total(g as nat, model.markable(*rule)),
            markable <= counting::total(g as nat, model.unmarked_counts()),
    {
        let unmarked = model.count_unmarked(g);
        let n = by_group[g];
        proof {
            assert(by_group@[g as int] == counting::count(
                model.files@.len(),
                model.markable_in(*rule, g as int),
            ));
            model.lemma_unmarked_most((g + 1) as nat, model.files@.len());
            assert(model.files@.len() == model.files.len());
        }
        let left: usize = if unmarked == 0 {
            0
        } else {
            unmarked - 1
        };
        let more: usize = if n < left {
            n
        } else {
            left
        };
        assert(more == model.markable(*rule)(g as int));
        assert(unmarked == model.unmarked_counts()(g as int));
        markable = markable + more;
    }
    let folder_count = count_flags(&folders);
    proof {
        counting::lemma_count_same(
            model.nodes@.len(),
            |i: int| folders@[i],
            model.holds_one(matching),
        );
    }
    PatternCount { files, folders: folder_count, markable }
}

impl Model {
    /// How many unmarked files of each group are present.
    spec fn unmarked_counts(self) -> spec_fn(int) -> nat {
        |g: int| counting::count(self.files@.len(), self.unmarked_in(g))
    }

    /// Each file stands in one group at most.
    proof fn lemma_unmarked_most(self, groups: nat, files: nat)
        requires
            files == self.files@.len(),
        ensures
            counting::total(groups, self.unmarked_counts()) <= files,
    {
        self.lemma_unmarked_split(groups, files);
        counting::lemma_total_same(
            groups,
            self.unmarked_counts(),
            |g: int| counting::count(files, self.unmarked_in(g)),
        );
    }

    proof fn lemma_unmarked_split(self, groups: nat, files: nat)
        ensures
            counting::total(groups, |g: int| counting::count(files, self.unmarked_in(g))) <= files,
        decreases files,
    {
        let now = |g: int| counting::count(files, self.unmarked_in(g));
        if files == 0 {
            counting::lemma_total_zero(groups, now);
        } else {
            let f = files - 1;
            let before = |g: int| counting::count(f as nat, self.unmarked_in(g));
            self.lemma_unmarked_split(groups, f as nat);
            let home = self.files@[f].group as int;
            if home < groups && self.unmarked_in(home)(f) {
                assert forall|g: int| 0 <= g < groups && g != home implies #[trigger] before(g)
                    == now(g) by {
                    assert(!self.unmarked_in(g)(f));
                }
                counting::lemma_total_more(groups, before, now, home, 1);
            } else {
                assert forall|g: int| 0 <= g < groups implies #[trigger] before(g) == now(g) by {
                    assert(!self.unmarked_in(g)(f));
                }
                counting::lemma_total_same(groups, before, now);
            }
        }
    }
}

impl Model {
    /// Whether a file is shown and the exclusions would hide it.
    pub open spec fn hideable(self, excl: Exclusions) -> spec_fn(int) -> bool {
        |f: int| self.visible(f) && self.hidden(excl, f)
    }
}

/// Counts the files that are shown and that exclusions would hide, and their
/// folders.
pub fn count_exclusions(excl: &Exclusions, model: &Model) -> (count: PatternCount)
    requires
        model.wf(),
    ensures
        count.files == counting::count(model.files@.len(), model.hideable(*excl)),
        count.folders == counting::count(
            model.nodes@.len(),
            model.holds_one(model.hideable(*excl)),
        ),
        count.markable == 0,
{
    let ghost hideable = model.hideable(*excl);
    let nodes = model.excluded_nodes(excl);
    let mut files: usize = 0;
    let mut folders: Vec<bool> = Vec::new();
    for n in 0..model.nodes.len()
        invariant
            folders@.len() == n,
            forall|m: int| 0 <= m < n ==> !#[trigger] folders@[m],
    {
        folders.push(false);
    }
    for f in 0..model.files.len()
        invariant
            model.wf(),
            hideable == model.hideable(*excl),
            nodes@ == Seq::new(model.nodes@.len(), |n: int| model.hidden_node(*excl, n)),
            files <= f,
            files == counting::count(f as nat, hideable),
            folders@.len() == model.nodes@.len(),
            forall|n: int| 0 <= n < folders@.len() ==> #[trigger] folders@[n] == (exists|o: int|
                0 <= o < f && model.files@[o].node == n && #[trigger] hideable(o)),
    {
        let n = model.files[f].node;
        let hit = model.is_visible(f) && (nodes[n] || excl.excludes_file(
            model.files[f].path.as_str(),
        ));
        assert(hit == hideable(f as int));
        let ghost folders_before = folders@;
        if hit {
            files = files + 1;
            folders.set(n, true);
        }
        proof {
            assert forall|n: int| 0 <= n < folders@.len() implies #[trigger] folders@[n] == (exists|
                o: int,
            |
                0 <= o < f + 1 && model.files@[o].node == n && #[trigger] hideable(o)) by {
                assert(folders_before[n] == (exists|o: int|
                    0 <= o < f && model.files@[o].node == n && #[trigger] hideable(o)));
                if folders_before[n] {
                    let o = choose|o: int|
                        0 <= o < f && model.files@[o].node == n && #[trigger] hideable(o);
                    assert(hideable(o));
                }
            }
        }
    }
    let folder_count = count_flags(&folders);
    proof {
        counting::lemma_count_same(
            model.nodes@.len(),
            |i: int| folders@[i],
            model.holds_one(hideable),
        );
    }
    PatternCount { files, folders: folder_count, markable: 0 }
}

} // verus!
