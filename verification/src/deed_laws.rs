//! What is done in a deletion, told by what was done and heard before.
use vstd::prelude::*;

use crate::paths;
use crate::removal::{self, Deed, DeleteEvent, Phase, RunState};

verus! {

impl RunState {
    proof fn lemma_arrived_trash(self, group: int, target: int)
        ensures
            self.arrived(group, target).0.use_trash == self.use_trash,
            self.arrived(group, target).0.groups == self.groups,
            self.arrived(group, target).0.verify == self.verify,
            !(self.arrived(group, target).1 is Delete),
        decreases self.groups.len() - group,
    {
        if 0 <= group < self.groups.len() && target >= self.groups[group].1.len() {
            self.lemma_arrived_trash(group + 1, 0);
        }
    }

    proof fn lemma_sought_trash(self, size: u64, keeper: int)
        ensures
            self.sought(size, keeper).0.use_trash == self.use_trash,
            self.sought(size, keeper).0.groups == self.groups,
            self.sought(size, keeper).0.verify == self.verify,
            !(self.sought(size, keeper).1 is Delete),
        decreases self.keepers().len() - keeper,
    {
        if 0 <= keeper < self.keepers().len() && paths::same_path(
            self.keepers()[keeper],
            self.path(),
        ) {
            self.lemma_sought_trash(size, keeper + 1);
        }
    }

    proof fn lemma_after_trash(self, event: DeleteEvent)
        ensures
            self.after(event).0.use_trash == self.use_trash,
            self.after(event).0.groups == self.groups,
            self.after(event).0.verify == self.verify,
            self.after(event).1 matches Deed::Delete(_, to_trash) ==> to_trash == self.use_trash,
    {
        self.lemma_arrived_trash(0, 0);
        self.lemma_arrived_trash(self.group, self.target + 1);
        match (self.phase, event) {
            (Phase::Measuring, DeleteEvent::TargetSize(Ok(size))) => {
                self.lemma_sought_trash(size, 0);
            },
            (Phase::Sizing { size, keeper }, _) => {
                self.lemma_sought_trash(size, keeper + 1);
            },
            (Phase::Comparing { size, keeper }, _) => {
                self.lemma_sought_trash(size, keeper + 1);
            },
            _ => {},
        }
    }

    /// Whatever comes, the choice of the trash is kept.
    pub proof fn lemma_choice_kept(self, events: Seq<DeleteEvent>)
        ensures
            self.played(events).use_trash == self.use_trash,
            self.played(events).groups == self.groups,
            self.played(events).verify == self.verify,
        decreases events.len(),
    {
        if events.len() > 0 {
            self.lemma_choice_kept(events.drop_last());
            self.played(events.drop_last()).lemma_after_trash(events.last());
        }
    }

    /// Whatever comes, a file is deleted by way of the trash where that was chosen
    /// at the beginning, and for good where it was not.
    pub proof fn lemma_deleted_as_chosen(self, events: Seq<DeleteEvent>, i: int)
        requires
            0 <= i < events.len(),
        ensures
            self.deed(events, i) matches Deed::Delete(_, to_trash) ==> to_trash == self.use_trash,
    {
        self.lemma_choice_kept(events.take(i));
        self.played(events.take(i)).lemma_after_trash(events[i]);
    }
}

/// The size that was given last of a file to delete.
pub open spec fn size_given(events: Seq<DeleteEvent>) -> Option<u64>
    decreases events.len(),
{
    if events.len() == 0 {
        None
    } else {
        match events.last() {
            DeleteEvent::TargetSize(Ok(size)) => Some(size),
            _ => size_given(events.drop_last()),
        }
    }
}

/// The first of some copies that stay, from one on, that is another file than one
/// to delete; their number where there is none.
pub open spec fn is_next_keeper(keepers: Seq<Seq<char>>, path: Seq<char>, from: int, k: int) -> bool {
    &&& from <= k <= keepers.len()
    &&& forall|j: int| #![trigger keepers[j]]
        from <= j < k ==> paths::components(keepers[j]) == paths::components(path)
    &&& k < keepers.len() ==> paths::components(keepers[k]) != paths::components(path)
}

impl RunState {
    /// The file to delete that was last asked for its size.
    pub open spec fn file_at_hand(self, events: Seq<DeleteEvent>) -> Option<Seq<char>>
        decreases events.len(),
    {
        if events.len() == 0 {
            None
        } else {
            match self.deed(events, events.len() - 1) {
                Deed::MeasureTarget(path) => Some(path),
                _ => self.file_at_hand(events.drop_last()),
            }
        }
    }

    proof fn lemma_sought_next(self, size: u64, keeper: int)
        requires
            0 <= keeper <= self.keepers().len() <= usize::MAX,
        ensures
            exists|k: int| #[trigger]
                is_next_keeper(self.keepers(), self.path(), keeper, k) && self.sought(size, keeper)
                    == if k < self.keepers().len() {
                    (
                        self.to(Phase::Sizing { size, keeper: k as usize }),
                        Deed::MeasureKeeper(self.keepers()[k]),
                    )
                } else {
                    (
                        self.to(Phase::Reporting),
                        Deed::Report(
                            self.path(),
                            Err(
                                self.path() + " : "@
                                    + "aucun exemplaire conservé identique n'a été trouvé, fichier ignoré"@,
                            ),
                        ),
                    )
                },
        decreases self.keepers().len() - keeper,
    {
        if keeper >= self.keepers().len() {
            assert(is_next_keeper(self.keepers(), self.path(), keeper, keeper));
        } else if paths::same_path(self.keepers()[keeper], self.path()) {
            self.lemma_sought_next(size, keeper + 1);
            let k = choose|k: int| #[trigger]
                is_next_keeper(self.keepers(), self.path(), keeper + 1, k) && self.sought(
                    size,
                    keeper + 1,
                ) == if k < self.keepers().len() {
                    (
                        self.to(Phase::Sizing { size, keeper: k as usize }),
                        Deed::MeasureKeeper(self.keepers()[k]),
                    )
                } else {
                    (
                        self.to(Phase::Reporting),
                        Deed::Report(
                            self.path(),
                            Err(
                                self.path() + " : "@
                                    + "aucun exemplaire conservé identique n'a été trouvé, fichier ignoré"@,
                            ),
                        ),
                    )
                };
            assert(is_next_keeper(self.keepers(), self.path(), keeper, k));
        } else {
            assert(is_next_keeper(self.keepers(), self.path(), keeper, keeper));
        }
    }

    proof fn lemma_arrival(self, group: int, target: int)
        requires
            0 <= group,
            0 <= target,
        ensures
            ({
                let (now, deed) = self.arrived(group, target);
                match deed {
                    Deed::MeasureTarget(path) => now.phase is Measuring && now.path() == path
                        && !removal::is_kept(self.groups, path),
                    Deed::Report(path, outcome) => now.phase is Reporting && now.path() == path
                        && removal::is_kept(self.groups, path) && outcome == Err::<u64, Seq<char>>(
                        path + " : "@ + "fichier désigné comme conservé, ignoré"@,
                    ),
                    Deed::Finish => now.phase is Ending,
                    _ => false,
                }
            }),
        decreases self.groups.len() - group,
    {
        if group < self.groups.len() && target >= self.groups[group].1.len() {
            self.lemma_arrival(group + 1, 0);
        }
    }

    /// Whether the last deed is the one that led to where a run stands.
    spec fn led_here(self, events: Seq<DeleteEvent>) -> bool {
        let now = self.played(events);
        let n = events.len() as int;
        let last = self.deed(events, n - 1);
        if n == 0 {
            now.phase is Ready
        } else {
            match now.phase {
                Phase::Ready => false,
                Phase::Measuring => last == Deed::MeasureTarget(now.path()),
                Phase::Sizing { size, keeper } => last == Deed::MeasureKeeper(
                    now.keepers()[keeper as int],
                ),
                Phase::Comparing { size, keeper } => last == Deed::Compare(
                    now.path(),
                    now.keepers()[keeper as int],
                ),
                Phase::Deleting { size } => last == Deed::Delete(now.path(), now.use_trash),
                Phase::Reporting => last is Report && last->Report_0 == now.path(),
                Phase::Ending => last is Finish,
                Phase::Over => last is Stop,
            }
        }
    }

    /// Whether what a run knows of the file at hand is what it heard.
    spec fn knows_it(self, events: Seq<DeleteEvent>) -> bool {
        let now = self.played(events);
        match now.phase {
            Phase::Measuring => self.file_at_hand(events) == Some(now.path()),
            Phase::Sizing { size, keeper } => self.file_at_hand(events) == Some(now.path())
                && size_given(events) == Some(size),
            Phase::Comparing { size, keeper } => self.file_at_hand(events) == Some(now.path())
                && size_given(events) == Some(size),
            Phase::Deleting { size } => self.file_at_hand(events) == Some(now.path())
                && size_given(events) == Some(size),
            _ => true,
        }
    }

    proof fn lemma_led(self, events: Seq<DeleteEvent>)
        requires
            self.wf(),
            self.sized(),
            self.phase is Ready,
        ensures
            self.led_here(events),
            self.knows_it(events),
            self.played(events).wf(),
            self.played(events).sized(),
            self.played(events).groups == self.groups,
        decreases events.len(),
    {
        self.lemma_choice_kept(events);
        if events.len() > 0 {
            let rest = events.drop_last();
            let before = self.played(rest);
            let n = events.len() as int;
            self.lemma_led(rest);
            assert(events.take(n - 1) =~= rest);
            before.lemma_step(events.last());
            before.lemma_arrival(0, 0);
            if before.on_target() {
                before.lemma_arrival(before.group, before.target + 1);
            }
            match (before.phase, events.last()) {
                (Phase::Measuring, DeleteEvent::TargetSize(Ok(size))) => {
                    before.lemma_sought_next(size, 0);
                },
                (Phase::Sizing { size, keeper }, _) => {
                    before.lemma_sought_next(size, keeper + 1);
                },
                (Phase::Comparing { size, keeper }, _) => {
                    before.lemma_sought_next(size, keeper + 1);
                },
                _ => {},
            }
        }
    }

    proof fn lemma_before(self, events: Seq<DeleteEvent>, i: int)
        requires
            self.wf(),
            self.sized(),
            self.phase is Ready,
            0 < i < events.len(),
        ensures
            self.led_here(events.take(i)),
            self.knows_it(events.take(i)),
            self.played(events.take(i)).wf(),
            self.played(events.take(i)).sized(),
            self.played(events.take(i)).groups == self.groups,
            self.played(events.take(i)).use_trash == self.use_trash,
            self.played(events.take(i)).verify == self.verify,
            self.deed(events.take(i), i - 1) == self.deed(events, i - 1),
    {
        self.lemma_led(events.take(i));
        self.lemma_choice_kept(events.take(i));
        assert(events.take(i).take(i - 1) =~= events.take(i - 1));
    }

    /// A file whose size cannot be had is left, with the reason.
    pub proof fn lemma_unmeasured_left(self, events: Seq<DeleteEvent>, i: int, path: Seq<char>, reason: String)
        requires
            self.wf(),
            self.sized(),
            self.phase is Ready,
            0 < i < events.len(),
            self.deed(events, i - 1) == Deed::MeasureTarget(path),
            events[i] == DeleteEvent::TargetSize(Err(reason)),
        ensures
            self.deed(events, i) == Deed::Report(path, Err(path + " : "@ + reason@)),
    {
        self.lemma_before(events, i);
    }

    /// Once a file has its size, the first copy that stays and is another file is
    /// asked for its own. Without any such copy the file is left; where no copy is
    /// named at all, it is deleted if files are not to be verified.
    pub proof fn lemma_measured(self, events: Seq<DeleteEvent>, i: int, path: Seq<char>, size: u64)
        requires
            self.wf(),
            self.sized(),
            self.phase is Ready,
            0 < i < events.len(),
            self.deed(events, i - 1) == Deed::MeasureTarget(path),
            events[i] == DeleteEvent::TargetSize(Ok(size)),
        ensures
            ({
                let keepers = self.groups[self.played(events.take(i)).group].0;
                let deed = self.deed(events, i);
                if keepers.len() == 0 {
                    if self.verify {
                        deed == Deed::Report(
                            path,
                            Err(
                                path + " : "@
                                    + "aucun exemplaire conservé indiqué dans la liste, fichier ignoré (désactivez la vérification pour forcer)"@,
                            ),
                        )
                    } else {
                        deed == Deed::Delete(path, self.use_trash)
                    }
                } else {
                    exists|k: int| #[trigger]
                        is_next_keeper(keepers, path, 0, k) && deed == if k < keepers.len() {
                            Deed::MeasureKeeper(keepers[k])
                        } else {
                            Deed::Report(
                                path,
                                Err(
                                    path + " : "@
                                        + "aucun exemplaire conservé identique n'a été trouvé, fichier ignoré"@,
                                ),
                            )
                        }
                }
            }),
    {
        self.lemma_before(events, i);
        self.played(events.take(i)).lemma_sought_next(size, 0);
    }

    /// A copy that stays and has the size of the file at hand settles it: the two are
    /// compared where files are to be verified, and where not, the file is deleted.
    pub proof fn lemma_same_size(self, events: Seq<DeleteEvent>, i: int, path: Seq<char>, keeper: Seq<char>, size: u64)
        requires
            self.wf(),
            self.sized(),
            self.phase is Ready,
            0 < i < events.len(),
            self.deed(events, i - 1) == Deed::MeasureKeeper(keeper),
            self.file_at_hand(events.take(i)) == Some(path),
            size_given(events.take(i)) == Some(size),
            events[i] == DeleteEvent::KeeperSize(Some(size)),
        ensures
            self.deed(events, i) == if self.verify {
                Deed::Compare(path, keeper)
            } else {
                Deed::Delete(path, self.use_trash)
            },
    {
        self.lemma_before(events, i);
    }

    /// A copy that stays and has another size, or none that can be had, or another
    /// content, is passed over: the next one that is another file is asked for its
    /// size, and where there is none, the file at hand is left.
    pub proof fn lemma_passed_over(self, events: Seq<DeleteEvent>, i: int, path: Seq<char>)
        requires
            self.wf(),
            self.sized(),
            self.phase is Ready,
            0 < i < events.len(),
            self.file_at_hand(events.take(i)) == Some(path),
            match (self.deed(events, i - 1), events[i]) {
                (Deed::MeasureKeeper(_), DeleteEvent::KeeperSize(found)) => found != size_given(
                    events.take(i),
                ),
                (Deed::Compare(_, _), DeleteEvent::Compared(same)) => !same,
                _ => false,
            },
        ensures
            ({
                let keepers = self.groups[self.played(events.take(i)).group].0;
                exists|last: int, k: int| #[trigger]
                    is_next_keeper(keepers, path, last + 1, k) && 0 <= last < keepers.len()
                        && keepers[last] == match self.deed(events, i - 1) {
                        Deed::MeasureKeeper(keeper) => keeper,
                        Deed::Compare(_, keeper) => keeper,
                        _ => path,
                    } && self.deed(events, i) == if k < keepers.len() {
                        Deed::MeasureKeeper(keepers[k])
                    } else {
                        Deed::Report(
                            path,
                            Err(
                                path + " : "@
                                    + "aucun exemplaire conservé identique n'a été trouvé, fichier ignoré"@,
                            ),
                        )
                    }
            }),
    {
        self.lemma_before(events, i);
        let before = self.played(events.take(i));
        let keeper = match before.phase {
            Phase::Sizing { size, keeper } => keeper,
            Phase::Comparing { size, keeper } => keeper,
            _ => 0,
        };
        let size = size_given(events.take(i))->0;
        before.lemma_sought_next(size, keeper + 1);
        let last = keeper as int;
        let k = choose|k: int| #[trigger]
            is_next_keeper(before.keepers(), before.path(), keeper + 1, k) && before.sought(
                size,
                keeper + 1,
            ).1 == if k < before.keepers().len() {
                Deed::MeasureKeeper(before.keepers()[k])
            } else {
                Deed::Report(
                    before.path(),
                    Err(
                        before.path() + " : "@
                            + "aucun exemplaire conservé identique n'a été trouvé, fichier ignoré"@,
                    ),
                )
            };
        assert(is_next_keeper(before.keepers(), path, last + 1, k));
    }

    /// A file that was found equal to a copy that stays is deleted.
    pub proof fn lemma_equal_deleted(self, events: Seq<DeleteEvent>, i: int, path: Seq<char>, keeper: Seq<char>)
        requires
            self.wf(),
            self.sized(),
            self.phase is Ready,
            0 < i < events.len(),
            self.deed(events, i - 1) == Deed::Compare(path, keeper),
            events[i] == DeleteEvent::Compared(true),
        ensures
            self.deed(events, i) == Deed::Delete(path, self.use_trash),
    {
        self.lemma_before(events, i);
    }

    /// What came of a deletion is passed on: the size that was given of the file, or
    /// why it is still there.
    pub proof fn lemma_deletion_told(self, events: Seq<DeleteEvent>, i: int, path: Seq<char>, to_trash: bool)
        requires
            self.wf(),
            self.sized(),
            self.phase is Ready,
            0 < i < events.len(),
            self.deed(events, i - 1) == Deed::Delete(path, to_trash),
            events[i] is Deleted,
        ensures
            self.deed(events, i) == Deed::Report(
                path,
                match events[i] {
                    DeleteEvent::Deleted(Err(reason)) => Err(path + " : "@ + reason@),
                    _ => Ok(size_given(events.take(i))->0),
                },
            ),
            size_given(events.take(i)) is Some,
    {
        self.lemma_before(events, i);
    }

    /// At the beginning, and once what became of a file was passed on, the next file
    /// is asked for its size; one that a copy to keep names is left at once, and after
    /// the last file the end is passed on.
    pub proof fn lemma_next_file(self, events: Seq<DeleteEvent>, i: int)
        requires
            self.wf(),
            self.sized(),
            self.phase is Ready,
            0 <= i < events.len(),
            i == 0 ==> events[i] is Begin,
            i > 0 ==> self.deed(events, i - 1) is Report && events[i] == DeleteEvent::Sent(true),
        ensures
            match self.deed(events, i) {
                Deed::MeasureTarget(path) => !removal::is_kept(self.groups, path),
                Deed::Report(path, outcome) => removal::is_kept(self.groups, path) && outcome
                    == Err::<u64, Seq<char>>(
                    path + " : "@ + "fichier désigné comme conservé, ignoré"@,
                ),
                Deed::Finish => true,
                _ => false,
            },
    {
        if i > 0 {
            self.lemma_before(events, i);
            let before = self.played(events.take(i));
            before.lemma_arrival(before.group, before.target + 1);
        } else {
            assert(events.take(0) =~= Seq::<DeleteEvent>::empty());
            self.lemma_arrival(0, 0);
        }
    }
}

impl RunState {
    /// A run that could not pass something on, that has passed the end on, or that was
    /// not begun, stops; and one that has stopped does nothing more.
    pub proof fn lemma_stopped(self, events: Seq<DeleteEvent>, i: int)
        requires
            self.wf(),
            self.sized(),
            self.phase is Ready,
            0 <= i < events.len(),
            i == 0 ==> events[i] !is Begin,
            i > 0 ==> events[i] == DeleteEvent::Sent(false) || self.deed(events, i - 1) is Finish
                || self.deed(events, i - 1) is Stop,
        ensures
            self.deed(events, i) is Stop,
    {
        if i > 0 {
            self.lemma_before(events, i);
        } else {
            assert(events.take(0) =~= Seq::<DeleteEvent>::empty());
        }
    }
}

/// A path names a copy to keep exactly where one of the copies has the same parts.
pub proof fn lemma_kept_by_parts(groups: Seq<crate::deletion::GroupPaths>, path: Seq<char>)
    ensures
        removal::is_kept(groups, path) <==> exists|g: int, k: int|
            0 <= g < groups.len() && 0 <= k < groups[g].0.len() && paths::components(
                #[trigger] groups[g].0[k],
            ) == paths::components(path),
{
    if removal::is_kept(groups, path) {
        let (g, k) = choose|g: int, k: int|
            0 <= g < groups.len() && 0 <= k < groups[g].0.len() && paths::same_path(
                #[trigger] groups[g].0[k],
                path,
            );
        assert(paths::components(groups[g].0[k]) == paths::components(path));
    }
    if exists|g: int, k: int|
        0 <= g < groups.len() && 0 <= k < groups[g].0.len() && paths::components(
            #[trigger] groups[g].0[k],
        ) == paths::components(path) {
        let (g, k) = choose|g: int, k: int|
            0 <= g < groups.len() && 0 <= k < groups[g].0.len() && paths::components(
                #[trigger] groups[g].0[k],
            ) == paths::components(path);
        assert(paths::same_path(groups[g].0[k], path));
    }
}

} // verus!
