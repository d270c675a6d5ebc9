//! Taking in what a search and a deletion tell.
use vstd::prelude::*;

use crate::deletion::{self, DeleteGroup, DeleteMsg};
use crate::model::{DupFile, FileId, Model};
use crate::paths;
use crate::rules::{self, Exclusions, Rule};
use crate::runs;
use crate::scanner::{ScanEvent, ScanProgress};
use crate::session;
use crate::text;
use crate::views;

verus! {

// --------------------------------------------------------------------- a search

/// What was taken in since the results were last brought up to date.
pub struct Batch {
    pub new_files: Vec<FileId>,
    pub errors: Vec<String>,
    /// Once the search is at its end, whether it was cancelled.
    pub finished: Option<bool>,
}

/// Whether a file was added, or was known; its number joins those of the new
/// files.
pub open spec fn added(
    before: Model,
    after: Model,
    key: u64,
    size: u64,
    path: Seq<char>,
    ids_before: Seq<FileId>,
    ids_after: Seq<FileId>,
) -> bool {
    if before.knows(path) {
        after == before && ids_after == ids_before
    } else {
        &&& after.wf()
        &&& after.with_file(before, key, size, path)
        &&& ids_after == ids_before.push(before.files@.len() as usize)
    }
}

/// Whether some files were added, one after the other.
pub open spec fn all_added(
    before: Model,
    after: Model,
    key: u64,
    size: u64,
    names: Seq<Seq<char>>,
    ids_before: Seq<FileId>,
    ids_after: Seq<FileId>,
) -> bool
    decreases names.len(),
{
    if names.len() == 0 {
        after == before && ids_after == ids_before
    } else {
        exists|between: Model, ids: Seq<FileId>|
            {
                &&& all_added(before, between, key, size, names.drop_last(), ids_before, ids)
                &&& #[trigger] added(between, after, key, size, names.last(), ids, ids_after)
            }
    }
}

/// Whether a path names a file in a folder.
pub open spec fn in_folder(path: Seq<char>) -> bool {
    paths::components(path).len() >= 2
}

/// Whether the files that an event tells of lie in folders.
pub open spec fn event_fits(event: ScanEvent) -> bool {
    match event {
        ScanEvent::NewGroup { key, size, files } => forall|i: int|
            0 <= i < files@.len() ==> in_folder((#[trigger] files@[i])@),
        ScanEvent::AddToGroup { key, file } => in_folder(file@),
        _ => true,
    }
}

/// Whether a path names a file in a folder.
fn is_in_folder(path: &str) -> (result: bool)
    ensures
        result == in_folder(path@),
{
    let parts = paths::path_parts(path);
    assert(text::texts(parts@).len() == parts@.len());
    parts.len() >= 2
}

/// Whether some paths name files in folders.
fn all_in_folders(files: &Vec<String>) -> (result: bool)
    ensures
        result == forall|i: int| 0 <= i < files@.len() ==> in_folder((#[trigger] files@[i])@),
{
    for i in 0..files.len()
        invariant
            forall|j: int| 0 <= j < i ==> in_folder((#[trigger] files@[j])@),
    {
        if !is_in_folder(files[i].as_str()) {
            assert(!in_folder(files@[i as int]@));
            return false;
        }
    }
    true
}

/// Whether the files that an event tells of lie in folders.
pub fn can_take(event: &ScanEvent) -> (result: bool)
    ensures
        result == event_fits(*event),
        *event matches ScanEvent::NewGroup { key, size, files } ==> result == forall|i: int|
            0 <= i < files@.len() ==> paths::components((#[trigger] files@[i])@).len() >= 2,
        *event matches ScanEvent::AddToGroup { key, file } ==> result == (paths::components(
            file@,
        ).len() >= 2),
        !(*event is NewGroup || *event is AddToGroup) ==> result,
{
    match event {
        ScanEvent::NewGroup { key: _, size: _, files } => all_in_folders(files),
        ScanEvent::AddToGroup { key: _, file } => is_in_folder(file.as_str()),
        _ => true,
    }
}

impl Batch {
    /// Nothing was taken in.
    pub fn new() -> (batch: Batch)
        ensures
            batch.new_files@.len() == 0,
            batch.errors@.len() == 0,
            batch.finished is None,
    {
        Batch { new_files: Vec::new(), errors: Vec::new(), finished: None }
    }

    /// Takes in what a search tells.
    pub fn take(&mut self, model: &mut Model, progress: &mut ScanProgress, event: ScanEvent)
        requires
            old(model).wf(),
            runs::are_files(old(model).files@, old(self).new_files@),
            event_fits(event),
        ensures
            final(model).wf(),
            runs::are_files(final(model).files@, final(self).new_files@),
            match event {
                ScanEvent::NewGroup { key, size, files } => {
                    &&& all_added(
                        *old(model),
                        *final(model),
                        key,
                        size,
                        text::texts(files@),
                        old(self).new_files@,
                        final(self).new_files@,
                    )
                    &&& final(self).errors == old(self).errors
                    &&& final(self).finished == old(self).finished
                    &&& *final(progress) == *old(progress)
                },
                ScanEvent::AddToGroup { key, file } => {
                    &&& added(
                        *old(model),
                        *final(model),
                        key,
                        0,
                        file@,
                        old(self).new_files@,
                        final(self).new_files@,
                    )
                    &&& final(self).errors == old(self).errors
                    &&& final(self).finished == old(self).finished
                    &&& *final(progress) == *old(progress)
                },
                ScanEvent::Progress(now) => {
                    &&& *final(progress) == now
                    &&& *final(self) == *old(self)
                    &&& *final(model) == *old(model)
                },
                ScanEvent::Error(message) => {
                    &&& final(self).errors@ == old(self).errors@.push(message)
                    &&& final(self).new_files == old(self).new_files
                    &&& final(self).finished == old(self).finished
                    &&& *final(model) == *old(model)
                    &&& *final(progress) == *old(progress)
                },
                ScanEvent::Finished { cancelled } => {
                    &&& final(self).finished == Some(cancelled)
                    &&& final(self).errors == old(self).errors
                    &&& final(self).new_files == old(self).new_files
                    &&& *final(model) == *old(model)
                    &&& *final(progress) == *old(progress)
                },
            },
    {
        match event {
            ScanEvent::NewGroup { key, size, files } => {
                let ghost first = *model;
                let ghost ids = self.new_files@;
                let ghost names = text::texts(files@);
                let ghost held = *self;
                let ghost shown = *progress;
                assert(names.take(0) =~= Seq::<Seq<char>>::empty());
                for i in 0..files.len()
                    invariant
                        names == text::texts(files@),
                        forall|j: int| 0 <= j < files@.len() ==> in_folder((#[trigger] files@[j])@),
                        model.wf(),
                        runs::are_files(model.files@, self.new_files@),
                        all_added(
                            first,
                            *model,
                            key,
                            size,
                            names.take(i as int),
                            ids,
                            self.new_files@,
                        ),
                        self.errors == held.errors,
                        self.finished == held.finished,
                        *progress == shown,
                {
                    let ghost between = *model;
                    let ghost before = self.new_files@;
                    assert(in_folder(files@[i as int]@));
                    self.add(model, key, size, files[i].clone());
                    proof {
                        let next = names.take(i + 1);
                        assert(next.drop_last() =~= names.take(i as int));
                        assert(next.last() == files@[i as int]@);
                        assert(added(
                            between,
                            *model,
                            key,
                            size,
                            next.last(),
                            before,
                            self.new_files@,
                        ));
                    }
                }
                assert(names.take(names.len() as int) =~= names);
            },
            ScanEvent::AddToGroup { key, file } => {
                self.add(model, key, 0, file);
            },
            ScanEvent::Progress(now) => {
                *progress = now;
            },
            ScanEvent::Error(message) => {
                self.errors.push(message);
            },
            ScanEvent::Finished { cancelled } => {
                self.finished = Some(cancelled);
            },
        }
    }

    fn add(&mut self, model: &mut Model, key: u64, size: u64, path: String)
        requires
            old(model).wf(),
            runs::are_files(old(model).files@, old(self).new_files@),
            in_folder(path@),
        ensures
            final(model).wf(),
            runs::are_files(final(model).files@, final(self).new_files@),
            added(
                *old(model),
                *final(model),
                key,
                size,
                path@,
                old(self).new_files@,
                final(self).new_files@,
            ),
            final(self).errors == old(self).errors,
            final(self).finished == old(self).finished,
    {
        let ghost before = self.new_files@;
        match model.add_file(key, size, path) {
            Some(id) => {
                self.new_files.push(id);
                proof {
                    let ids = self.new_files@;
                    assert forall|i: int| 0 <= i < ids.len() implies (#[trigger] ids[i])
                        < model.files@.len() by {
                        if i < before.len() {
                            assert(ids[i] == before[i]);
                        }
                    }
                }
            },
            None => {},
        }
    }

    /// Brings the results up to date: hides the new files that are to be left
    /// out, and applies the rules that apply by themselves.
    pub fn settle(&self, model: &mut Model, excl: &Exclusions, rules: &[Rule], errors: &mut Vec<String>)
        requires
            old(model).wf(),
            runs::are_files(old(model).files@, self.new_files@),
        ensures
            final(model).wf(),
            final(model).same_but_files(*old(model)),
            final(errors)@ == session::errors_with(old(errors)@, self.errors@),
            exists|between: Model|
                {
                    &&& #[trigger] hidden_among(*old(model), between, *excl, self.new_files@)
                    &&& final(model).files@ == runs::run(
                        between.files@,
                        rules::continuous_hits(rules@, between.files@),
                        between.candidates(self.new_files@),
                        true,
                    )
                    &&& final(model).dirty == (between.dirty || exists|f: int|
                        #![trigger final(model).files@[f]]
                        0 <= f < final(model).files@.len() && final(model).files@[f].marked
                            != between.files@[f].marked)
                },
    {
        session::push_errors(errors, &self.errors);
        let ghost before = *model;
        if self.new_files.len() > 0 {
            model.apply_exclusions_to(excl, self.new_files.as_slice());
            let ghost between = *model;
            rules::apply_continuous(rules, model, self.new_files.as_slice());
            proof {
                assert(hidden_among(before, between, *excl, self.new_files@));
                rules::lemma_same_but_files(*model, between, before);
            }
        } else {
            proof {
                assert(hidden_among(before, before, *excl, self.new_files@));
                assert(before.candidates(self.new_files@) =~= Seq::<FileId>::empty());
            }
        }
    }
}

/// Whether those of some files that the exclusions cover were hidden.
pub open spec fn hidden_among(before: Model, after: Model, excl: Exclusions, ids: Seq<FileId>) -> bool {
    &&& after.same_but_files(before)
    &&& after.dirty == (before.dirty || exists|i: int| #![trigger ids[i]]
        0 <= i < ids.len() && before.hidden(excl, ids[i] as int))
    &&& forall|f: int| #![trigger after.files@[f]]
        0 <= f < after.files@.len() ==> after.files@[f] == (if ids.contains(f as usize)
            && before.hidden(excl, f) {
            DupFile { excluded: true, marked: false, ..before.files@[f] }
        } else {
            before.files@[f]
        })
}

/// What is told once a search is at its end.
pub fn end_text(cancelled: bool) -> (words: &'static str)
    ensures
        words@ == if cancelled {
            "Analyse interrompue"@
        } else {
            "Analyse terminée"@
        },
{
    if cancelled {
        "Analyse interrompue"
    } else {
        "Analyse terminée"
    }
}

// ------------------------------------------------------------------- a deletion

/// Whether a file was noted to be gone from the disk.
pub open spec fn removed_at(before: Model, after: Model, f: int) -> bool {
    &&& 0 <= f < before.files@.len()
    &&& after.only_file(
        before,
        f,
        (DupFile { removed: true, marked: false, ..before.files@[f] }),
    )
    &&& after.dirty
}

/// How far a deletion has come.
#[derive(Clone, Copy)]
pub struct DeleteJob {
    pub total: usize,
    pub done: usize,
    pub ok: usize,
    pub freed: u64,
}

impl DeleteJob {
    /// A deletion that is about to begin, or `None` where there is nothing to
    /// delete.
    pub fn start(groups: &[DeleteGroup]) -> (job: Option<DeleteJob>)
        requires
            deletion::targets_in(deletion::group_paths(groups@)) <= usize::MAX,
        ensures
            match job {
                Some(j) => j.total == deletion::targets_in(deletion::group_paths(groups@))
                    && j.total > 0 && j.done == 0 && j.ok == 0 && j.freed == 0,
                None => deletion::targets_in(deletion::group_paths(groups@)) == 0,
            },
    {
        let total = deletion::target_count(groups);
        if total == 0 {
            None
        } else {
            Some(DeleteJob { total, done: 0, ok: 0, freed: 0 })
        }
    }

    /// Whether what became of one more file can be counted.
    pub open spec fn can_count(self, msg: DeleteMsg) -> bool {
        match msg {
            DeleteMsg::Done(_, Ok(size)) => self.done < usize::MAX && self.ok < self.total
                && self.freed + size <= u64::MAX,
            DeleteMsg::Done(_, Err(_)) => self.done < usize::MAX,
            DeleteMsg::Finished => true,
        }
    }

    /// Whether what became of one more file can be counted.
    pub fn accepts(&self, msg: &DeleteMsg) -> (result: bool)
        ensures
            result == self.can_count(*msg),
            result == match *msg {
                DeleteMsg::Done(_, Ok(size)) => self.done < usize::MAX && self.ok < self.total
                    && self.freed + size <= u64::MAX,
                DeleteMsg::Done(_, Err(_)) => self.done < usize::MAX,
                DeleteMsg::Finished => true,
            },
    {
        match msg {
            DeleteMsg::Done(_, Ok(size)) => self.done < usize::MAX && self.ok < self.total && *size
                <= u64::MAX - self.freed,
            DeleteMsg::Done(_, Err(_)) => self.done < usize::MAX,
            DeleteMsg::Finished => true,
        }
    }

    /// Takes in what became of a file. A file that was deleted is no longer
    /// shown. Says whether that was the end.
    pub fn take(&mut self, model: &mut Model, errors: &mut Vec<String>, msg: DeleteMsg) -> (finished:
        bool)
        requires
            old(model).wf(),
            old(self).can_count(msg),
        ensures
            final(model).wf(),
            finished == (msg is Finished),
            final(self).total == old(self).total,
            match msg {
                DeleteMsg::Done(path, Ok(size)) => {
                    &&& final(self).done == old(self).done + 1
                    &&& final(self).ok == old(self).ok + 1
                    &&& final(self).freed == old(self).freed + size
                    &&& final(errors)@ == old(errors)@
                    &&& if old(model).knows(path@) {
                        exists|f: int|
                            paths::same_path(old(model).files@[f].path@, path@)
                                && #[trigger] removed_at(*old(model), *final(model), f)
                    } else {
                        *final(model) == *old(model)
                    }
                },
                DeleteMsg::Done(path, Err(message)) => {
                    &&& final(self).done == old(self).done + 1
                    &&& final(self).ok == old(self).ok
                    &&& final(self).freed == old(self).freed
                    &&& final(errors)@ == old(errors)@.push(message)
                    &&& *final(model) == *old(model)
                },
                DeleteMsg::Finished => {
                    &&& *final(self) == *old(self)
                    &&& final(errors)@ == old(errors)@
                    &&& *final(model) == *old(model)
                },
            },
    {
        match msg {
            DeleteMsg::Done(path, result) => {
                self.done = self.done + 1;
                match result {
                    Ok(size) => {
                        self.ok = self.ok + 1;
                        self.freed = self.freed + size;
                        match model.find(path.as_str()) {
                            Some(f) => {
                                assert(paths::same_path(old(model).files@[f as int].path@, path@));
                                model.mark_removed(f);
                                assert(removed_at(*old(model), *model, f as int));
                            },
                            None => {},
                        }
                    },
                    Err(message) => {
                        errors.push(message);
                    },
                }
                false
            },
            DeleteMsg::Finished => true,
        }
    }

    /// What came of the deletion, in words.
    pub open spec fn summary_words(self) -> Seq<char> {
        views::number(self.ok as int) + " fichier(s) supprimé(s), "@ + views::size_words(self.freed)
            + " libéré(s), "@ + views::number(self.total - self.ok) + " échec(s)"@
    }

    /// What came of the deletion, in words.
    pub fn summary(&self) -> (words: String)
        requires
            self.ok <= self.total,
        ensures
            words@ == self.summary_words(),
            words@ == text::decimal(self.ok as nat) + " fichier(s) supprimé(s), "@
                + views::size_words(self.freed) + " libéré(s), "@ + text::decimal(
                (self.total - self.ok) as nat,
            ) + " échec(s)"@,
    {
        let mut words = text::decimal_text(self.ok as u64);
        words.append(" fichier(s) supprimé(s), ");
        words.append(views::size_text(self.freed).as_str());
        words.append(" libéré(s), ");
        text::push_decimal(&mut words, (self.total - self.ok) as u64);
        words.append(" échec(s)");
        assert(words@ =~= self.summary_words());
        words
    }

    /// How far the deletion has come, in words.
    pub fn progress_text(&self) -> (words: String)
        ensures
            words@ == "Suppression "@ + views::number(self.done as int) + "/"@ + views::number(
                self.total as int,
            ),
    {
        let mut words = String::new();
        words.append("Suppression ");
        text::push_decimal(&mut words, self.done as u64);
        words.append("/");
        text::push_decimal(&mut words, self.total as u64);
        assert(words@ =~= "Suppression "@ + views::number(self.done as int) + "/"@ + views::number(
            self.total as int,
        ));
        words
    }
}

/// How many files are to be deleted for which no copy is named to stay.
pub open spec fn unsupported(groups: Seq<deletion::GroupPaths>) -> nat
    decreases groups.len(),
{
    if groups.len() == 0 {
        0
    } else {
        unsupported(groups.drop_last()) + if groups.last().0.len() == 0 {
            groups.last().1.len()
        } else {
            0
        }
    }
}

proof fn lemma_unsupported_most(groups: Seq<deletion::GroupPaths>, count: int)
    requires
        0 <= count <= groups.len(),
    ensures
        unsupported(groups.take(count)) <= deletion::targets_in(groups),
    decreases groups.len(),
{
    if count == groups.len() {
        assert(groups.take(count) =~= groups);
        if groups.len() > 0 {
            let rest = groups.drop_last();
            lemma_unsupported_most(rest, rest.len() as int);
            assert(rest.take(rest.len() as int) =~= rest);
        }
    } else {
        lemma_unsupported_most(groups.drop_last(), count);
        assert(groups.drop_last().take(count) =~= groups.take(count));
    }
}

/// How many files are to be deleted for which no copy is named to stay.
pub fn without_keeper(groups: &[DeleteGroup]) -> (count: usize)
    requires
        deletion::targets_in(deletion::group_paths(groups@)) <= usize::MAX,
    ensures
        count == unsupported(deletion::group_paths(groups@)),
{
    let ghost all = deletion::group_paths(groups@);
    let mut count: usize = 0;
    assert(all.take(0) =~= Seq::<deletion::GroupPaths>::empty());
    for i in 0..groups.len()
        invariant
            all == deletion::group_paths(groups@),
            deletion::targets_in(all) <= usize::MAX,
            count == unsupported(all.take(i as int)),
    {
        proof {
            lemma_unsupported_most(all, i + 1);
            assert(all.take(i + 1).drop_last() =~= all.take(i as int));
            assert(all[i as int].0.len() == groups@[i as int].keepers@.len());
            assert(all[i as int].1.len() == groups@[i as int].targets@.len());
        }
        if groups[i].keepers.len() == 0 {
            count = count + groups[i].targets.len();
        }
    }
    assert(all.take(all.len() as int) =~= all);
    count
}

/// What is told once a list was written.
pub fn exported_text(count: usize, path: &str) -> (words: String)
    ensures
        words@ == "Liste exportée : "@ + views::number(count as int) + " fichier(s) → "@ + path@,
{
    let mut words = String::new();
    words.append("Liste exportée : ");
    text::push_decimal(&mut words, count as u64);
    words.append(" fichier(s) → ");
    words.append(path);
    assert(words@ =~= "Liste exportée : "@ + views::number(count as int) + " fichier(s) → "@
        + path@);
    words
}

/// What comes of a list that is to be carried out.
pub enum Loaded {
    /// It names something to delete, which is to be confirmed.
    Ask(Vec<DeleteGroup>),
    /// It names nothing to delete.
    Nothing(String),
    /// It cannot be read.
    Failed(String),
}

/// Reads a list that is to be carried out, from its bytes or from why they cannot
/// be read.
pub fn load(path: &str, read: Result<Vec<u8>, String>) -> (loaded: Loaded)
    ensures
        match read {
            Err(message) => loaded matches Loaded::Failed(m) && m@ == path@ + " : "@ + message@,
            Ok(bytes) => if !vstd::utf8::valid_utf8(bytes@) {
                loaded matches Loaded::Failed(m) && m@ == path@ + " : "@
                    + "stream did not contain valid UTF-8"@
            } else {
                let named = deletion::listed_groups(vstd::utf8::decode_utf8(bytes@));
                if deletion::targets_in(named) == 0 {
                    loaded matches Loaded::Nothing(m) && m@ == path@ + " : "@
                        + "aucun fichier à supprimer"@
                } else {
                    loaded matches Loaded::Ask(groups) && deletion::group_paths(groups@) == named
                }
            },
        },
{
    let bytes = match read {
        Ok(bytes) => bytes,
        Err(message) => return Loaded::Failed(session::path_error(path, message.as_str())),
    };
    match deletion::read_list(bytes.as_slice()) {
        Err(message) => Loaded::Failed(session::path_error(path, message.as_str())),
        Ok(groups) => {
            let ghost named = deletion::group_paths(groups@);
            if groups.len() == 0 {
                Loaded::Nothing(session::path_error(path, "aucun fichier à supprimer"))
            } else {
                proof {
                    assert(named.len() == groups@.len());
                    deletion::lemma_listed_have_targets(
                        vstd::utf8::decode_utf8(bytes@),
                        named.len() - 1,
                    );
                }
                Loaded::Ask(groups)
            }
        },
    }
}

// ----------------------------------------------------------------- confirmation

/// What is asked before files are deleted.
pub struct Dialog {
    pub heading: &'static str,
    pub lines: Vec<String>,
    pub warning: Option<String>,
}

/// What is asked before files are deleted: those of a list, or those that are
/// marked.
pub open spec fn dialog_words(
    list: Option<Seq<char>>,
    groups: Seq<deletion::GroupPaths>,
    bytes: u64,
    conflicts: int,
) -> (Seq<char>, Seq<Seq<char>>, Option<Seq<char>>) {
    let count = views::number(deletion::targets_in(groups) as int);
    match list {
        Some(path) => (
            "Exécuter la liste de suppression ?"@,
            seq![path, count + " fichier(s) à supprimer."@],
            if unsupported(groups) > 0 {
                Some(
                    views::number(unsupported(groups) as int)
                        + " fichier(s) sans exemplaire conservé indiqué : ignorés si la vérification est active."@,
                )
            } else {
                None
            },
        ),
        None => (
            "Supprimer les fichiers marqués ?"@,
            seq![count + " fichier(s), "@ + views::size_words(bytes) + " au total."@],
            if conflicts > 0 {
                Some(
                    views::number(conflicts)
                        + " fichier(s) ignoré(s) : tous les exemplaires de leur groupe sont marqués."@,
                )
            } else {
                None
            },
        ),
    }
}

impl Dialog {
    /// The texts of a question.
    pub open spec fn words(self) -> (Seq<char>, Seq<Seq<char>>, Option<Seq<char>>) {
        (
            self.heading@,
            text::texts(self.lines@),
            match self.warning {
                Some(w) => Some(w@),
                None => None,
            },
        )
    }

    /// What is asked before the files of a list are deleted.
    pub fn of_list(path: &str, groups: &[DeleteGroup]) -> (dialog: Dialog)
        requires
            deletion::targets_in(deletion::group_paths(groups@)) <= usize::MAX,
        ensures
            dialog.words() == dialog_words(
                Some(path@),
                deletion::group_paths(groups@),
                0,
                0,
            ),
            dialog.heading@ == "Exécuter la liste de suppression ?"@,
            dialog.lines@.len() == 2,
            dialog.lines@[0]@ == path@,
            dialog.lines@[1]@ == text::decimal(
                deletion::targets_in(deletion::group_paths(groups@)),
            ) + " fichier(s) à supprimer."@,
            dialog.warning is Some <==> unsupported(deletion::group_paths(groups@)) > 0,
            dialog.warning matches Some(w) ==> w@ == text::decimal(
                unsupported(deletion::group_paths(groups@)),
            )
                + " fichier(s) sans exemplaire conservé indiqué : ignorés si la vérification est active."@,
    {
        let count = deletion::target_count(groups);
        let unnamed = without_keeper(groups);
        let mut first = String::new();
        first.append(path);
        let mut second = text::decimal_text(count as u64);
        second.append(" fichier(s) à supprimer.");
        let mut lines: Vec<String> = Vec::new();
        lines.push(first);
        lines.push(second);
        assert(first@ =~= path@);
        assert(text::texts(lines@) =~= seq![path@, second@]);
        let warning = if unnamed > 0 {
            let mut words = text::decimal_text(unnamed as u64);
            words.append(
                " fichier(s) sans exemplaire conservé indiqué : ignorés si la vérification est active.",
            );
            Some(words)
        } else {
            None
        };
        Dialog { heading: "Exécuter la liste de suppression ?", lines, warning }
    }

    /// What is asked before the marked files are deleted.
    pub fn of_marked(groups: &[DeleteGroup], bytes: u64, conflicts: usize) -> (dialog: Dialog)
        requires
            deletion::targets_in(deletion::group_paths(groups@)) <= usize::MAX,
        ensures
            dialog.words() == dialog_words(
                None,
                deletion::group_paths(groups@),
                bytes,
                conflicts as int,
            ),
            dialog.heading@ == "Supprimer les fichiers marqués ?"@,
            dialog.lines@.len() == 1,
            dialog.lines@[0]@ == text::decimal(
                deletion::targets_in(deletion::group_paths(groups@)),
            ) + " fichier(s), "@ + views::size_words(bytes) + " au total."@,
            dialog.warning is Some <==> conflicts > 0,
            dialog.warning matches Some(w) ==> w@ == text::decimal(conflicts as nat)
                + " fichier(s) ignoré(s) : tous les exemplaires de leur groupe sont marqués."@,
    {
        let count = deletion::target_count(groups);
        let mut first = text::decimal_text(count as u64);
        first.append(" fichier(s), ");
        first.append(views::size_text(bytes).as_str());
        first.append(" au total.");
        let mut lines: Vec<String> = Vec::new();
        lines.push(first);
        assert(first@ =~= views::number(count as int) + " fichier(s), "@ + views::size_words(bytes)
            + " au total."@);
        assert(text::texts(lines@) =~= seq![first@]);
        let warning = if conflicts > 0 {
            let mut words = text::decimal_text(conflicts as u64);
            words.append(
                " fichier(s) ignoré(s) : tous les exemplaires de leur groupe sont marqués.",
            );
            Some(words)
        } else {
            None
        };
        Dialog { heading: "Supprimer les fichiers marqués ?", lines, warning }
    }
}

} // verus!
