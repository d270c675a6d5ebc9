//! Deleting files, each one checked again just before.
//!
//! What has to be asked of the disk is asked through actions, whose outcome
//! comes back as an event.
use vstd::hash_set::StringHashSet;
use vstd::prelude::*;

use crate::deletion::{self, DeleteGroup, DeleteMsg, GroupPaths};
use crate::paths;
use crate::text;

verus! {

/// What a run waits for.
#[derive(Clone, Copy)]
pub enum Phase {
    /// To begin.
    Ready,
    /// The size of the file to delete.
    Measuring,
    /// The size of a copy that stays.
    Sizing { size: u64, keeper: usize },
    /// Whether a copy that stays has the same content.
    Comparing { size: u64, keeper: usize },
    /// The deletion.
    Deleting { size: u64 },
    /// That what became of a file was passed on.
    Reporting,
    /// That the end was passed on.
    Ending,
    /// Nothing more.
    Over,
}

/// What came of an action.
pub enum DeleteEvent {
    Begin,
    TargetSize(Result<u64, String>),
    /// `None` where the size cannot be had.
    KeeperSize(Option<u64>),
    /// Whether the contents are the same, as far as they could be read.
    Compared(bool),
    Deleted(Result<(), String>),
    /// Whether someone still listens.
    Sent(bool),
}

/// What is to be done next.
pub enum DeleteAction {
    MeasureTarget(String),
    MeasureKeeper(String),
    /// Compare a file to delete with a copy that stays.
    Compare(String, String),
    /// Delete a file, by way of the trash or not.
    Delete(String, bool),
    Send(DeleteMsg),
    Stop,
}

/// What an action does.
pub ghost enum Deed {
    MeasureTarget(Seq<char>),
    MeasureKeeper(Seq<char>),
    Compare(Seq<char>, Seq<char>),
    Delete(Seq<char>, bool),
    Report(Seq<char>, Result<u64, Seq<char>>),
    Finish,
    Stop,
}

impl View for DeleteAction {
    type V = Deed;

    open spec fn view(&self) -> Deed {
        match *self {
            DeleteAction::MeasureTarget(path) => Deed::MeasureTarget(path@),
            DeleteAction::MeasureKeeper(path) => Deed::MeasureKeeper(path@),
            DeleteAction::Compare(path, keeper) => Deed::Compare(path@, keeper@),
            DeleteAction::Delete(path, to_trash) => Deed::Delete(path@, to_trash),
            DeleteAction::Send(DeleteMsg::Done(path, Ok(size))) => Deed::Report(path@, Ok(size)),
            DeleteAction::Send(DeleteMsg::Done(path, Err(message))) => Deed::Report(
                path@,
                Err(message@),
            ),
            DeleteAction::Send(DeleteMsg::Finished) => Deed::Finish,
            DeleteAction::Stop => Deed::Stop,
        }
    }
}

/// Whether a path names a copy that stays.
pub open spec fn is_kept(groups: Seq<GroupPaths>, path: Seq<char>) -> bool {
    exists|g: int, k: int|
        0 <= g < groups.len() && 0 <= k < groups[g].0.len() && paths::same_path(
            #[trigger] groups[g].0[k],
            path,
        )
}

/// Where a run stands.
#[verifier::ext_equal]
pub ghost struct RunState {
    pub groups: Seq<GroupPaths>,
    pub use_trash: bool,
    pub verify: bool,
    pub group: int,
    pub target: int,
    pub phase: Phase,
}

impl RunState {
    /// Before anything was done.
    pub open spec fn initial(groups: Seq<GroupPaths>, use_trash: bool, verify: bool) -> RunState {
        RunState { groups, use_trash, verify, group: 0, target: 0, phase: Phase::Ready }
    }

    /// The path of the file to delete.
    pub open spec fn path(self) -> Seq<char> {
        self.groups[self.group].1[self.target]
    }

    /// The paths of the copies that stay.
    pub open spec fn keepers(self) -> Seq<Seq<char>> {
        self.groups[self.group].0
    }

    /// Whether there is a file to delete where the run stands.
    pub open spec fn on_target(self) -> bool {
        &&& 0 <= self.group < self.groups.len()
        &&& 0 <= self.target < self.groups[self.group].1.len()
    }

    /// What every step keeps.
    pub open spec fn wf(self) -> bool {
        match self.phase {
            Phase::Ready => self.group == 0 && self.target == 0,
            Phase::Measuring => self.on_target() && !is_kept(self.groups, self.path()),
            Phase::Sizing { size, keeper } => {
                &&& self.on_target()
                &&& !is_kept(self.groups, self.path())
                &&& keeper < self.keepers().len()
                &&& !paths::same_path(self.keepers()[keeper as int], self.path())
            },
            Phase::Comparing { size, keeper } => {
                &&& self.on_target()
                &&& !is_kept(self.groups, self.path())
                &&& keeper < self.keepers().len()
                &&& !paths::same_path(self.keepers()[keeper as int], self.path())
                &&& self.verify
            },
            Phase::Deleting { size } => self.on_target() && !is_kept(self.groups, self.path()),
            Phase::Reporting => self.on_target(),
            Phase::Ending => true,
            Phase::Over => true,
        }
    }

    /// The same place, in another phase.
    pub open spec fn to(self, phase: Phase) -> RunState {
        RunState { phase, ..self }
    }

    /// The file is left, for a reason.
    pub open spec fn refused(self, reason: Seq<char>) -> (RunState, Deed) {
        (
            self.to(Phase::Reporting),
            Deed::Report(self.path(), Err(self.path() + " : "@ + reason)),
        )
    }

    /// The file is to be deleted.
    pub open spec fn cleared(self, size: u64) -> (RunState, Deed) {
        (self.to(Phase::Deleting { size }), Deed::Delete(self.path(), self.use_trash))
    }

    /// At the first file to delete from a place on.
    pub open spec fn arrived(self, group: int, target: int) -> (RunState, Deed)
        decreases self.groups.len() - group,
    {
        if group < 0 || group >= self.groups.len() {
            (RunState { group, target, ..self }.to(Phase::Ending), Deed::Finish)
        } else if target >= self.groups[group].1.len() {
            self.arrived(group + 1, 0)
        } else {
            let here = RunState { group, target, ..self };
            if is_kept(self.groups, here.path()) {
                here.refused("fichier désigné comme conservé, ignoré"@)
            } else {
                (here.to(Phase::Measuring), Deed::MeasureTarget(here.path()))
            }
        }
    }

    /// At the first copy that stays, from one on, that is another file.
    pub open spec fn sought(self, size: u64, keeper: int) -> (RunState, Deed)
        decreases self.keepers().len() - keeper,
    {
        if keeper < 0 || keeper >= self.keepers().len() {
            self.refused("aucun exemplaire conservé identique n'a été trouvé, fichier ignoré"@)
        } else if paths::same_path(self.keepers()[keeper], self.path()) {
            self.sought(size, keeper + 1)
        } else {
            (
                self.to(Phase::Sizing { size, keeper: keeper as usize }),
                Deed::MeasureKeeper(self.keepers()[keeper]),
            )
        }
    }

    /// After an event. One that the run does not wait for ends it.
    pub open spec fn after(self, event: DeleteEvent) -> (RunState, Deed) {
        match (self.phase, event) {
            (Phase::Ready, DeleteEvent::Begin) => self.arrived(0, 0),
            (Phase::Measuring, DeleteEvent::TargetSize(Err(message))) => self.refused(message@),
            (Phase::Measuring, DeleteEvent::TargetSize(Ok(size))) => if self.keepers().len() > 0 {
                self.sought(size, 0)
            } else if self.verify {
                self.refused(
                    "aucun exemplaire conservé indiqué dans la liste, fichier ignoré (désactivez la vérification pour forcer)"@,
                )
            } else {
                self.cleared(size)
            },
            (Phase::Sizing { size, keeper }, DeleteEvent::KeeperSize(found)) => if found != Some(
                size,
            ) {
                self.sought(size, keeper + 1)
            } else if self.verify {
                (
                    self.to(Phase::Comparing { size, keeper }),
                    Deed::Compare(self.path(), self.keepers()[keeper as int]),
                )
            } else {
                self.cleared(size)
            },
            (Phase::Comparing { size, keeper }, DeleteEvent::Compared(same)) => if same {
                self.cleared(size)
            } else {
                self.sought(size, keeper + 1)
            },
            (Phase::Deleting { size }, DeleteEvent::Deleted(Ok(()))) => (
                self.to(Phase::Reporting),
                Deed::Report(self.path(), Ok(size)),
            ),
            (Phase::Deleting { size }, DeleteEvent::Deleted(Err(message))) => self.refused(
                message@,
            ),
            (Phase::Reporting, DeleteEvent::Sent(true)) => self.arrived(
                self.group,
                self.target + 1,
            ),
            _ => (self.to(Phase::Over), Deed::Stop),
        }
    }
}

/// The deletion of some files, one after the other.
pub struct DeleteRun {
    pub groups: Vec<DeleteGroup>,
    pub use_trash: bool,
    pub verify: bool,
    /// The paths of all copies that stay, each in one spelling. A file that one
    /// of them names is never deleted, even where it is listed to be.
    pub kept: StringHashSet,
    pub group: usize,
    pub target: usize,
    pub phase: Phase,
}

impl View for DeleteRun {
    type V = RunState;

    open spec fn view(&self) -> RunState {
        RunState {
            groups: deletion::group_paths(self.groups@),
            use_trash: self.use_trash,
            verify: self.verify,
            group: self.group as int,
            target: self.target as int,
            phase: self.phase,
        }
    }
}

/// Whether the paths of some copies that stay are all there, each in one
/// spelling: those of the first groups, and the first of one group more.
spec fn keeps(kept: Set<Seq<char>>, groups: Seq<GroupPaths>, g: int, k: int) -> bool {
    forall|path: Seq<char>| #[trigger]
        kept.contains(path) == exists|h: int, i: int|
            0 <= h < groups.len() && 0 <= i < groups[h].0.len() && (h < g || (h == g && i < k))
                && paths::joined(paths::components(#[trigger] groups[h].0[i])) == path
}

impl DeleteRun {
    /// What every step keeps.
    pub open spec fn wf(self) -> bool {
        &&& self@.wf()
        &&& forall|path: Seq<char>| #[trigger]
            self.kept@.contains(paths::joined(paths::components(path))) == is_kept(
                self@.groups,
                path,
            )
    }

    /// Whether a run has the groups and the choices of another.
    spec fn set_as(self, other: DeleteRun) -> bool {
        &&& self.use_trash == other.use_trash
        &&& self.verify == other.verify
        &&& self.groups@ == other.groups@
    }

    /// A run that is ready to begin.
    pub fn new(groups: Vec<DeleteGroup>, use_trash: bool, verify: bool) -> (run: DeleteRun)
        ensures
            run.wf(),
            run@ == RunState::initial(deletion::group_paths(groups@), use_trash, verify),
            run.groups == groups,
            run.use_trash == use_trash,
            run.verify == verify,
            run.phase is Ready,
            run.group == 0,
            run.target == 0,
    {
        let mut kept = StringHashSet::new();
        let ghost all = deletion::group_paths(groups@);
        for g in 0..groups.len()
            invariant
                all == deletion::group_paths(groups@),
                keeps(kept@, all, g as int, 0),
        {
            let keepers = &groups[g].keepers;
            assert(all[g as int].0 == text::texts(keepers@));
            for k in 0..keepers.len()
                invariant
                    g < all.len(),
                    all[g as int].0 == text::texts(keepers@),
                    keeps(kept@, all, g as int, k as int),
            {
                let ghost before = kept@;
                let key = paths::canonical(keepers[k].as_str());
                assert(all[g as int].0[k as int] == keepers@[k as int]@);
                kept.insert(key);
                assert forall|path: Seq<char>| #[trigger]
                    kept@.contains(path) == exists|h: int, i: int|
                        0 <= h < all.len() && 0 <= i < all[h].0.len() && (h < g || (h == g && i < k
                            + 1)) && paths::joined(
                            paths::components(#[trigger] all[h].0[i]),
                        ) == path by {
                    assert(before.contains(path) == exists|h: int, i: int|
                        0 <= h < all.len() && 0 <= i < all[h].0.len() && (h < g || (h == g && i
                            < k)) && paths::joined(
                            paths::components(#[trigger] all[h].0[i]),
                        ) == path);
                    if path == key@ {
                        assert(paths::joined(paths::components(all[g as int].0[k as int])) == path);
                    }
                }
            }
            assert(keeps(kept@, all, g + 1, 0)) by {
                assert forall|path: Seq<char>| #[trigger]
                    kept@.contains(path) == exists|h: int, i: int|
                        0 <= h < all.len() && 0 <= i < all[h].0.len() && (h < g + 1 || (h == g + 1
                            && i < 0)) && paths::joined(
                            paths::components(#[trigger] all[h].0[i]),
                        ) == path by {
                    assert(kept@.contains(path) == exists|h: int, i: int|
                        0 <= h < all.len() && 0 <= i < all[h].0.len() && (h < g || (h == g && i
                            < keepers@.len())) && paths::joined(
                            paths::components(#[trigger] all[h].0[i]),
                        ) == path);
                }
            }
        }
        let run = DeleteRun { groups, use_trash, verify, kept, group: 0, target: 0, phase: Phase::Ready };
        proof {
            assert forall|path: Seq<char>| #[trigger]
                run.kept@.contains(paths::joined(paths::components(path))) == is_kept(all, path) by {
                let key = paths::joined(paths::components(path));
                assert(kept@.contains(key) == exists|h: int, i: int|
                    0 <= h < all.len() && 0 <= i < all[h].0.len() && (h < all.len() || (h
                        == all.len() && i < 0)) && paths::joined(
                        paths::components(#[trigger] all[h].0[i]),
                    ) == key);
                if kept@.contains(key) {
                    let (h, i) = choose|h: int, i: int|
                        0 <= h < all.len() && 0 <= i < all[h].0.len() && (h < all.len() || (h
                            == all.len() && i < 0)) && paths::joined(
                            paths::components(#[trigger] all[h].0[i]),
                        ) == key;
                    paths::lemma_canonical(all[h].0[i], path);
                    assert(paths::same_path(all[h].0[i], path));
                }
                if is_kept(all, path) {
                    let (h, i) = choose|h: int, i: int|
                        0 <= h < all.len() && 0 <= i < all[h].0.len() && paths::same_path(
                            #[trigger] all[h].0[i],
                            path,
                        );
                    assert(paths::joined(paths::components(all[h].0[i])) == key);
                }
            }
        }
        run
    }

    /// The path of the file to delete.
    fn path(&self) -> (path: String)
        requires
            self@.on_target(),
        ensures
            path@ == self@.path(),
    {
        assert(self@.groups[self.group as int] == self.groups@[self.group as int]@);
        self.groups[self.group].targets[self.target].clone()
    }

    /// Leaves the file, for a reason.
    fn refuse(&mut self, reason: &str) -> (action: DeleteAction)
        requires
            old(self).wf(),
            old(self)@.on_target(),
        ensures
            final(self).wf(),
            (final(self)@, action@) == old(self)@.refused(reason@),
            final(self).set_as(*old(self)),
            action !is Delete,
    {
        let path = self.path();
        let mut message = path.clone();
        message.append(" : ");
        message.append(reason);
        assert(message@ =~= old(self)@.path() + " : "@ + reason@);
        self.phase = Phase::Reporting;
        DeleteAction::Send(DeleteMsg::Done(path, Err(message)))
    }

    /// Has the file deleted.
    fn clear(&mut self, size: u64) -> (action: DeleteAction)
        requires
            old(self).wf(),
            old(self)@.on_target(),
            !is_kept(old(self)@.groups, old(self)@.path()),
        ensures
            final(self).wf(),
            (final(self)@, action@) == old(self)@.cleared(size),
            final(self).set_as(*old(self)),
    {
        let path = self.path();
        self.phase = Phase::Deleting { size };
        DeleteAction::Delete(path, self.use_trash)
    }

    /// Goes to the first file to delete from a place on.
    fn arrive(&mut self, group: usize, target: usize) -> (action: DeleteAction)
        requires
            old(self).wf(),
        ensures
            final(self).wf(),
            (final(self)@, action@) == old(self)@.arrived(group as int, target as int),
            final(self).set_as(*old(self)),
            action !is Delete,
    {
        let mut g = group;
        let mut t = target;
        while g < self.groups.len() && t >= self.groups[g].targets.len()
            invariant
                self.wf(),
                *self == *old(self),
                self@.arrived(group as int, target as int) == self@.arrived(g as int, t as int),
            decreases self.groups@.len() - g,
        {
            assert(self@.groups[g as int] == self.groups@[g as int]@);
            g = g + 1;
            t = 0;
        }
        self.group = g;
        self.target = t;
        if g >= self.groups.len() {
            self.phase = Phase::Ending;
            return DeleteAction::Send(DeleteMsg::Finished);
        }
        assert(self@.groups[g as int] == self.groups@[g as int]@);
        self.phase = Phase::Reporting;
        let path = self.path();
        let key = paths::canonical(path.as_str());
        assert(self.kept@.contains(paths::joined(paths::components(path@))) == is_kept(
            self@.groups,
            path@,
        ));
        if self.kept.contains(key.as_str()) {
            self.refuse("fichier désigné comme conservé, ignoré")
        } else {
            self.phase = Phase::Measuring;
            DeleteAction::MeasureTarget(path)
        }
    }

    /// Goes to the first copy that stays, from one on, that is another file.
    fn seek(&mut self, size: u64, keeper: usize) -> (action: DeleteAction)
        requires
            old(self).wf(),
            old(self)@.on_target(),
            !is_kept(old(self)@.groups, old(self)@.path()),
        ensures
            final(self).wf(),
            (final(self)@, action@) == old(self)@.sought(size, keeper as int),
            final(self).set_as(*old(self)),
            action !is Delete,
    {
        let path = self.path();
        let mut k = keeper;
        assert(self@.groups[self.group as int] == self.groups@[self.group as int]@);
        while k < self.groups[self.group].keepers.len()
            invariant
                self.wf(),
                *self == *old(self),
                self@.on_target(),
                path@ == self@.path(),
                self@.groups[self.group as int] == self.groups@[self.group as int]@,
                !is_kept(self@.groups, self@.path()),
                self@.sought(size, keeper as int) == self@.sought(size, k as int),
            decreases self.groups@[self.group as int].keepers@.len() - k,
        {
            let other = self.groups[self.group].keepers[k].clone();
            assert(self@.keepers()[k as int] == other@);
            if !paths::paths_equal(other.as_str(), path.as_str()) {
                self.phase = Phase::Sizing { size, keeper: k };
                return DeleteAction::MeasureKeeper(other);
            }
            k = k + 1;
        }
        self.refuse("aucun exemplaire conservé identique n'a été trouvé, fichier ignoré")
    }

    /// Takes what came of the last action, and says what is to be done next.
    pub fn next(&mut self, event: DeleteEvent) -> (action: DeleteAction)
        requires
            old(self).wf(),
        ensures
            final(self).wf(),
            (final(self)@, action@) == old(self)@.after(event),
            final(self).use_trash == old(self).use_trash,
            final(self).verify == old(self).verify,
            final(self).groups@ == old(self).groups@,
            action matches DeleteAction::Delete(path, to_trash) ==> {
                &&& to_trash == old(self).use_trash
                &&& old(self).group < old(self).groups@.len()
                &&& old(self).target < old(self).groups@[old(
                    self,
                ).group as int].targets@.len()
                &&& path@ == old(self).groups@[old(self).group as int].targets@[old(
                    self,
                ).target as int]@
            },
    {
        proof {
            if self@.on_target() {
                let group = self.groups@[self.group as int];
                assert(self@.groups[self.group as int] == group@);
                assert(group.keepers@.len() == group.keepers.len());
                assert(group.targets@.len() == group.targets.len());
            }
        }
        match (self.phase, event) {
            (Phase::Ready, DeleteEvent::Begin) => self.arrive(0, 0),
            (Phase::Measuring, DeleteEvent::TargetSize(Err(message))) => self.refuse(
                message.as_str(),
            ),
            (Phase::Measuring, DeleteEvent::TargetSize(Ok(size))) => {
                if self.groups[self.group].keepers.len() > 0 {
                    self.seek(size, 0)
                } else if self.verify {
                    self.refuse(
                        "aucun exemplaire conservé indiqué dans la liste, fichier ignoré (désactivez la vérification pour forcer)",
                    )
                } else {
                    self.clear(size)
                }
            },
            (Phase::Sizing { size, keeper }, DeleteEvent::KeeperSize(found)) => {
                let same_size = match found {
                    Some(s) => s == size,
                    None => false,
                };
                if !same_size {
                    self.seek(size, keeper + 1)
                } else if self.verify {
                    let path = self.path();
                    let other = self.groups[self.group].keepers[keeper].clone();
                    self.phase = Phase::Comparing { size, keeper };
                    DeleteAction::Compare(path, other)
                } else {
                    self.clear(size)
                }
            },
            (Phase::Comparing { size, keeper }, DeleteEvent::Compared(same)) => {
                if same {
                    self.clear(size)
                } else {
                    self.seek(size, keeper + 1)
                }
            },
            (Phase::Deleting { size }, DeleteEvent::Deleted(Ok(()))) => {
                let path = self.path();
                self.phase = Phase::Reporting;
                DeleteAction::Send(DeleteMsg::Done(path, Ok(size)))
            },
            (Phase::Deleting { size }, DeleteEvent::Deleted(Err(message))) => self.refuse(
                message.as_str(),
            ),
            (Phase::Reporting, DeleteEvent::Sent(true)) => self.arrive(
                self.group,
                self.target + 1,
            ),
            _ => {
                self.phase = Phase::Over;
                DeleteAction::Stop
            },
        }
    }
}

// ------------------------------------------------------------------------ laws

impl RunState {
    /// After some events.
    pub open spec fn played(self, events: Seq<DeleteEvent>) -> RunState
        decreases events.len(),
    {
        if events.len() == 0 {
            self
        } else {
            self.played(events.drop_last()).after(events.last()).0
        }
    }

    /// What is done upon an event.
    pub open spec fn deed(self, events: Seq<DeleteEvent>, i: int) -> Deed {
        self.played(events.take(i)).after(events[i]).1
    }

    proof fn lemma_arrived(self, group: int, target: int)
        requires
            0 <= group,
            0 <= target,
        ensures
            self.arrived(group, target).0.wf(),
            self.arrived(group, target).0.groups == self.groups,
            self.arrived(group, target).0.verify == self.verify,
            self.arrived(group, target).0.phase is Measuring || self.arrived(
                group,
                target,
            ).0.phase is Reporting || self.arrived(group, target).0.phase is Ending,
            self.arrived(group, target).0.phase is Measuring ==> self.arrived(group, target).1
                == Deed::MeasureTarget(self.arrived(group, target).0.path()),
            !(self.arrived(group, target).1 is Delete),
            !(self.arrived(group, target).1 is Compare),
        decreases self.groups.len() - group,
    {
        if group < self.groups.len() && target >= self.groups[group].1.len() {
            self.lemma_arrived(group + 1, 0);
        }
    }

    proof fn lemma_sought(self, size: u64, keeper: int)
        requires
            0 <= keeper,
            self.on_target(),
            !is_kept(self.groups, self.path()),
            self.keepers().len() <= usize::MAX,
        ensures
            self.sought(size, keeper).0.wf(),
            self.sought(size, keeper).0 == self.to(self.sought(size, keeper).0.phase),
            match self.sought(size, keeper).0.phase {
                Phase::Sizing { size: s, keeper: k } => s == size && self.sought(size, keeper).1
                    == Deed::MeasureKeeper(self.keepers()[k as int]),
                phase => phase is Reporting && self.sought(size, keeper).1 is Report,
            },
        decreases self.keepers().len() - keeper,
    {
        if keeper < self.keepers().len() && paths::same_path(self.keepers()[keeper], self.path()) {
            self.lemma_sought(size, keeper + 1);
        }
    }

    /// Whether lists of copies that stay can be held.
    pub open spec fn sized(self) -> bool {
        forall|g: int| #![trigger self.groups[g]]
            0 <= g < self.groups.len() ==> self.groups[g].0.len() <= usize::MAX
    }

    /// Every step keeps what a run rests on.
    pub proof fn lemma_step(self, event: DeleteEvent)
        requires
            self.wf(),
            self.sized(),
        ensures
            self.after(event).0.wf(),
            self.after(event).0.groups == self.groups,
            self.after(event).0.verify == self.verify,
    {
        self.lemma_arrived(0, 0);
        if self.on_target() {
            self.lemma_arrived(self.group, self.target + 1);
            if !is_kept(self.groups, self.path()) {
                match (self.phase, event) {
                    (Phase::Measuring, DeleteEvent::TargetSize(Ok(size))) => {
                        self.lemma_sought(size, 0);
                    },
                    (Phase::Sizing { size, keeper }, _) => {
                        self.lemma_sought(size, keeper + 1);
                    },
                    (Phase::Comparing { size, keeper }, _) => {
                        self.lemma_sought(size, keeper + 1);
                    },
                    _ => {},
                }
            }
        }
    }

    proof fn lemma_played(self, events: Seq<DeleteEvent>)
        requires
            self.wf(),
            self.sized(),
        ensures
            self.played(events).wf(),
            self.played(events).groups == self.groups,
            self.played(events).verify == self.verify,
        decreases events.len(),
    {
        if events.len() > 0 {
            self.lemma_played(events.drop_last());
            self.played(events.drop_last()).lemma_step(events.last());
        }
    }

    /// A file that a copy to keep is named by is never deleted: not even where it
    /// is listed to be.
    pub proof fn lemma_kept_not_deleted(self, events: Seq<DeleteEvent>, i: int)
        requires
            self.wf(),
            self.sized(),
            0 <= i < events.len(),
        ensures
            self.deed(events, i) matches Deed::Delete(path, _) ==> !is_kept(self.groups, path),
    {
        let before = self.played(events.take(i));
        self.lemma_played(events.take(i));
        before.lemma_arrived(0, 0);
        if before.on_target() {
            before.lemma_arrived(before.group, before.target + 1);
            if !is_kept(before.groups, before.path()) {
                match (before.phase, events[i]) {
                    (Phase::Measuring, DeleteEvent::TargetSize(Ok(size))) => {
                        before.lemma_sought(size, 0);
                    },
                    (Phase::Sizing { size, keeper }, _) => {
                        before.lemma_sought(size, keeper + 1);
                    },
                    (Phase::Comparing { size, keeper }, _) => {
                        before.lemma_sought(size, keeper + 1);
                    },
                    _ => {},
                }
            }
        }
    }

    /// Whether the size of a file was asked for and given.
    pub open spec fn was_measured(
        self,
        events: Seq<DeleteEvent>,
        i: int,
        path: Seq<char>,
        size: u64,
    ) -> bool {
        &&& 0 <= i < events.len() - 1
        &&& self.deed(events, i) == Deed::MeasureTarget(path)
        &&& events[i + 1] == DeleteEvent::TargetSize(Ok(size))
    }

    /// Whether, up to an event, a file was measured, a copy that stays was found
    /// to have the same size, and the two were found equal.
    pub open spec fn was_compared(
        self,
        events: Seq<DeleteEvent>,
        i: int,
        path: Seq<char>,
        keeper: Seq<char>,
        size: u64,
    ) -> bool {
        &&& i >= 2
        &&& is_kept(self.groups, keeper)
        &&& !paths::same_path(keeper, path)
        &&& exists|j: int| #[trigger] self.was_measured(events, j, path, size) && j < i
        &&& self.deed(events, i - 2) == Deed::MeasureKeeper(keeper)
        &&& events[i - 1] == DeleteEvent::KeeperSize(Some(size))
        &&& self.deed(events, i - 1) == Deed::Compare(path, keeper)
        &&& events[i] == DeleteEvent::Compared(true)
    }

    /// Whether a run that checks a file knows its size from having it measured,
    /// and compares it with a copy only when that has the same size.
    spec fn evidence(self, events: Seq<DeleteEvent>) -> bool {
        let now = self.played(events);
        let n = events.len() as int;
        match now.phase {
            Phase::Measuring => n > 0 && self.deed(events, n - 1) == Deed::MeasureTarget(
                now.path(),
            ),
            Phase::Sizing { size, keeper } => {
                &&& exists|j: int| self.was_measured(events, j, now.path(), size)
                &&& self.deed(events, n - 1) == Deed::MeasureKeeper(now.keepers()[keeper as int])
                &&& n > 0
            },
            Phase::Comparing { size, keeper } => {
                &&& exists|j: int| self.was_measured(events, j, now.path(), size)
                &&& n > 1
                &&& self.deed(events, n - 2) == Deed::MeasureKeeper(now.keepers()[keeper as int])
                &&& events[n - 1] == DeleteEvent::KeeperSize(Some(size))
                &&& self.deed(events, n - 1) == Deed::Compare(
                    now.path(),
                    now.keepers()[keeper as int],
                )
            },
            _ => true,
        }
    }

    proof fn lemma_deed_earlier(self, events: Seq<DeleteEvent>, i: int)
        requires
            0 <= i < events.len() - 1,
        ensures
            self.deed(events, i) == self.deed(events.drop_last(), i),
    {
        assert(events.drop_last().take(i) =~= events.take(i));
    }

    #[verifier::spinoff_prover]
    #[verifier::rlimit(30)]
    proof fn lemma_evidence(self, events: Seq<DeleteEvent>)
        requires
            self.wf(),
            self.sized(),
            self.phase is Ready,
        ensures
            self.evidence(events),
        decreases events.len(),
    {
        if events.len() > 0 {
            let rest = events.drop_last();
            let event = events.last();
            let n = events.len() as int;
            let before = self.played(rest);
            let now = self.played(events);
            self.lemma_evidence(rest);
            self.lemma_played(rest);
            assert(events.take(n - 1) =~= rest);
            assert(self.deed(events, n - 1) == before.after(event).1);
            assert(now == before.after(event).0);
            assert(events[n - 1] == event);
            if n > 1 {
                self.lemma_deed_earlier(events, n - 2);
            }
            before.lemma_arrived(0, 0);
            if before.on_target() {
                before.lemma_arrived(before.group, before.target + 1);
                if !is_kept(before.groups, before.path()) {
                    match (before.phase, event) {
                        (Phase::Measuring, DeleteEvent::TargetSize(Ok(size))) => {
                            before.lemma_sought(size, 0);
                            assert(self.was_measured(events, n - 2, before.path(), size));
                        },
                        (Phase::Sizing { size, keeper }, _) => {
                            before.lemma_sought(size, keeper + 1);
                            let j = choose|j: int|
                                self.was_measured(rest, j, before.path(), size);
                            self.lemma_deed_earlier(events, j);
                            assert(self.was_measured(events, j, before.path(), size));
                        },
                        (Phase::Comparing { size, keeper }, _) => {
                            before.lemma_sought(size, keeper + 1);
                            let j = choose|j: int|
                                self.was_measured(rest, j, before.path(), size);
                            self.lemma_deed_earlier(events, j);
                            assert(self.was_measured(events, j, before.path(), size));
                        },
                        _ => {},
                    }
                }
            }
        }
    }

    /// Where files are verified, one is deleted only just after it was found
    /// equal to a copy that stays, is another file and has the size that was
    /// measured.
    pub proof fn lemma_deleted_after_comparison(self, events: Seq<DeleteEvent>, i: int)
        requires
            self.wf(),
            self.sized(),
            self.phase is Ready,
            self.verify,
            0 <= i < events.len(),
            self.deed(events, i) is Delete,
        ensures
            exists|keeper: Seq<char>, size: u64| #[trigger]
                self.was_compared(events, i, self.deed(events, i)->Delete_0, keeper, size),
    {
        let earlier = events.take(i);
        let before = self.played(earlier);
        self.lemma_played(earlier);
        self.lemma_evidence(earlier);
        before.lemma_arrived(0, 0);
        assert(before.phase is Comparing) by {
            if before.on_target() {
                before.lemma_arrived(before.group, before.target + 1);
                if !is_kept(before.groups, before.path()) {
                    match (before.phase, events[i]) {
                        (Phase::Measuring, DeleteEvent::TargetSize(Ok(size))) => {
                            before.lemma_sought(size, 0);
                        },
                        (Phase::Sizing { size, keeper }, _) => {
                            before.lemma_sought(size, keeper + 1);
                        },
                        _ => {},
                    }
                }
            }
        }
        if let Phase::Comparing { size, keeper } = before.phase {
            before.lemma_sought(size, keeper + 1);
            let name = before.keepers()[keeper as int];
            let path = before.path();
            assert(earlier.take(i - 1) =~= events.take(i - 1));
            assert(earlier.take(i - 2) =~= events.take(i - 2));
            assert(self.deed(earlier, i - 1) == self.deed(events, i - 1));
            assert(self.deed(earlier, i - 2) == self.deed(events, i - 2));
            assert(paths::same_path(self.groups[before.group].0[keeper as int], name));
            let j = choose|j: int| self.was_measured(earlier, j, path, size);
            assert(earlier.take(j) =~= events.take(j));
            assert(self.was_measured(events, j, path, size));
            assert(self.was_compared(events, i, path, name, size));
            assert(self.deed(events, i) == before.after(events[i]).1);
            assert(before.after(events[i]) == before.cleared(size));
            assert(self.deed(events, i)->Delete_0 == path);
        }
    }

    /// Whether, up to an event, a file was measured and a copy that stays was found
    /// to have the same size.
    pub open spec fn was_sized(
        self,
        events: Seq<DeleteEvent>,
        i: int,
        path: Seq<char>,
        keeper: Seq<char>,
        size: u64,
    ) -> bool {
        &&& i >= 1
        &&& is_kept(self.groups, keeper)
        &&& !paths::same_path(keeper, path)
        &&& exists|j: int| #[trigger] self.was_measured(events, j, path, size) && j < i
        &&& self.deed(events, i - 1) == Deed::MeasureKeeper(keeper)
        &&& events[i] == DeleteEvent::KeeperSize(Some(size))
    }

    /// Where files are not verified and copies are named to stay, a file is
    /// deleted only just after one of them was found to be there, with the size
    /// that was measured.
    pub proof fn lemma_deleted_after_sizing(self, events: Seq<DeleteEvent>, i: int)
        requires
            self.wf(),
            self.sized(),
            self.phase is Ready,
            !self.verify,
            0 <= i < events.len(),
            self.deed(events, i) is Delete,
            self.played(events.take(i)).keepers().len() > 0,
        ensures
            exists|keeper: Seq<char>, size: u64| #[trigger]
                self.was_sized(events, i, self.deed(events, i)->Delete_0, keeper, size),
    {
        let earlier = events.take(i);
        let before = self.played(earlier);
        self.lemma_played(earlier);
        self.lemma_evidence(earlier);
        before.lemma_arrived(0, 0);
        assert(before.phase is Sizing) by {
            if before.on_target() {
                before.lemma_arrived(before.group, before.target + 1);
                if !is_kept(before.groups, before.path()) {
                    match (before.phase, events[i]) {
                        (Phase::Measuring, DeleteEvent::TargetSize(Ok(size))) => {
                            before.lemma_sought(size, 0);
                        },
                        _ => {},
                    }
                }
            }
        }
        if let Phase::Sizing { size, keeper } = before.phase {
            before.lemma_sought(size, keeper + 1);
            let name = before.keepers()[keeper as int];
            let path = before.path();
            assert(earlier.take(i - 1) =~= events.take(i - 1));
            assert(self.deed(earlier, i - 1) == self.deed(events, i - 1));
            assert(paths::same_path(self.groups[before.group].0[keeper as int], name));
            let j = choose|j: int| self.was_measured(earlier, j, path, size);
            assert(earlier.take(j) =~= events.take(j));
            assert(self.was_measured(events, j, path, size));
            assert(self.was_sized(events, i, path, name, size));
            assert(self.deed(events, i) == before.after(events[i]).1);
            assert(before.after(events[i]) == before.cleared(size));
            assert(self.deed(events, i)->Delete_0 == path);
        }
    }

    /// A file for which no copy is named to stay is deleted only where files are
    /// not verified.
    pub proof fn lemma_without_keeper(self, event: DeleteEvent)
        requires
            self.wf(),
            self.sized(),
            self.after(event).1 is Delete,
            self.keepers().len() == 0,
        ensures
            !self.verify,
    {
        self.lemma_arrived(0, 0);
        if self.on_target() {
            self.lemma_arrived(self.group, self.target + 1);
        }
    }
}

/// The files to delete of some groups, one after the other.
pub open spec fn all_targets(groups: Seq<GroupPaths>) -> Seq<Seq<char>>
    decreases groups.len(),
{
    if groups.len() == 0 {
        Seq::empty()
    } else {
        all_targets(groups.drop_last()) + groups.last().1
    }
}

/// The files to delete before a place.
pub open spec fn targets_before(groups: Seq<GroupPaths>, group: int, target: int) -> Seq<Seq<char>> {
    if group < groups.len() {
        all_targets(groups.take(group)) + groups[group].1.take(target)
    } else {
        all_targets(groups)
    }
}

impl RunState {
    /// The files of which it was passed on what became of them.
    pub open spec fn reported(self, events: Seq<DeleteEvent>) -> Seq<Seq<char>>
        decreases events.len(),
    {
        if events.len() == 0 {
            Seq::empty()
        } else {
            let earlier = self.reported(events.drop_last());
            match self.played(events.drop_last()).after(events.last()).1 {
                Deed::Report(path, _) => earlier.push(path),
                _ => earlier,
            }
        }
    }

    proof fn lemma_place(self, group: int, target: int)
        requires
            0 <= group,
            0 <= target,
            group < self.groups.len() ==> target <= self.groups[group].1.len(),
        ensures
            ({
                let (now, deed) = self.arrived(group, target);
                let done = targets_before(self.groups, group, target);
                match now.phase {
                    Phase::Ending => deed is Finish && done == all_targets(self.groups),
                    _ => now.on_target() && done == targets_before(
                        self.groups,
                        now.group,
                        now.target,
                    ) && now.groups == self.groups && (deed is Report ==> now.phase is Reporting
                        && deed->Report_0 == now.path()) && (now.phase is Reporting ==> deed is Report),
                }
            }),
        decreases self.groups.len() - group,
    {
        if group < self.groups.len() && target >= self.groups[group].1.len() {
            self.lemma_place(group + 1, 0);
            let groups = self.groups;
            assert(groups[group].1.take(target) =~= groups[group].1);
            assert(groups.take(group + 1).drop_last() =~= groups.take(group));
            if group + 1 < groups.len() {
                assert(groups[group + 1].1.take(0) =~= Seq::<Seq<char>>::empty());
                assert(targets_before(groups, group + 1, 0) =~= targets_before(
                    groups,
                    group,
                    target,
                ));
            } else {
                assert(groups.take(group + 1) =~= groups);
            }
        }
    }

    /// What becomes of each file to delete is passed on once, in the order in
    /// which they are listed, and the end only after the last.
    pub proof fn lemma_reports_in_order(self, events: Seq<DeleteEvent>)
        requires
            self.wf(),
            self.sized(),
            self.phase is Ready,
        ensures
            ({
                let now = self.played(events);
                let done = self.reported(events);
                match now.phase {
                    Phase::Ready => done.len() == 0,
                    Phase::Reporting => done == targets_before(
                        self.groups,
                        now.group,
                        now.target,
                    ).push(now.path()),
                    Phase::Ending => done == all_targets(self.groups),
                    Phase::Over => true,
                    _ => done == targets_before(self.groups, now.group, now.target),
                }
            }),
            forall|i: int|
                0 <= i < events.len() && self.deed(events, i) is Finish ==> #[trigger] self.reported(
                    events.take(i),
                ) == all_targets(self.groups),
        decreases events.len(),
    {
        if events.len() > 0 {
            let rest = events.drop_last();
            let event = events.last();
            let n = events.len() as int;
            let before = self.played(rest);
            let done = self.reported(rest);
            self.lemma_reports_in_order(rest);
            self.lemma_played(rest);
            assert(events.take(n - 1) =~= rest);
            assert forall|i: int|
                0 <= i < n && self.deed(events, i) is Finish implies #[trigger] self.reported(
                events.take(i),
            ) == all_targets(self.groups) || i == n - 1 by {
                assert(i < n - 1 ==> rest.take(i) =~= events.take(i));
            }
            if before.phase is Ready {
                assert(done =~= Seq::<Seq<char>>::empty());
                if self.groups.len() > 0 {
                    assert(self.groups.take(0) =~= Seq::<GroupPaths>::empty());
                    assert(self.groups[0].1.take(0) =~= Seq::<Seq<char>>::empty());
                }
                assert(targets_before(self.groups, 0, 0) =~= done);
                before.lemma_place(0, 0);
                before.lemma_arrived(0, 0);
            }
            if before.on_target() {
                let g = before.group;
                let t = before.target;
                before.lemma_place(g, t + 1);
                before.lemma_arrived(g, t + 1);
                assert(self.groups[g].1.take(t + 1) =~= self.groups[g].1.take(t).push(
                    before.path(),
                ));
                assert(targets_before(self.groups, g, t + 1) =~= targets_before(
                    self.groups,
                    g,
                    t,
                ).push(before.path()));
                if !is_kept(before.groups, before.path()) {
                    match (before.phase, event) {
                        (Phase::Measuring, DeleteEvent::TargetSize(Ok(size))) => {
                            before.lemma_report_here(size, 0);
                        },
                        (Phase::Sizing { size, keeper }, _) => {
                            before.lemma_report_here(size, keeper + 1);
                        },
                        (Phase::Comparing { size, keeper }, _) => {
                            before.lemma_report_here(size, keeper + 1);
                        },
                        _ => {},
                    }
                }
            }
        }
    }

    proof fn lemma_report_here(self, size: u64, keeper: int)
        requires
            0 <= keeper,
            self.on_target(),
            !is_kept(self.groups, self.path()),
            self.keepers().len() <= usize::MAX,
        ensures
            self.sought(size, keeper).0 == self.to(self.sought(size, keeper).0.phase),
            self.sought(size, keeper).0.phase is Sizing || self.sought(
                size,
                keeper,
            ).0.phase is Reporting,
            self.sought(size, keeper).0.phase is Reporting <==> self.sought(size, keeper).1 is Report,
            self.sought(size, keeper).1 is Report ==> self.sought(size, keeper).1->Report_0
                == self.path(),
            !(self.sought(size, keeper).1 is Finish),
        decreases self.keepers().len() - keeper,
    {
        if keeper < self.keepers().len() && paths::same_path(self.keepers()[keeper], self.path()) {
            self.lemma_report_here(size, keeper + 1);
        }
    }
}

} // verus!
