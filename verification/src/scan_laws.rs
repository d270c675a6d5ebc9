//! What a search counts and tells, told by the messages that it has heard.
use vstd::prelude::*;

use crate::buckets;
use crate::counting;
use crate::scanner::{self, Msg, News, ScanState, Task};

verus! {

/// Whether some messages can be taken in, one after the other, from the beginning.
pub open spec fn can_come(msgs: Seq<Msg>) -> bool
    decreases msgs.len(),
{
    msgs.len() == 0 || (can_come(msgs.drop_last()) && ScanState::initial().played(
        msgs.drop_last(),
    ).can_take(msgs.last()))
}

/// Whether a message brings a whole file.
pub open spec fn brings_whole(msg: Msg) -> bool {
    msg is Full
}

/// The bytes that a message says were read of a whole file.
pub open spec fn bytes_brought(msg: Msg) -> nat {
    match msg {
        Msg::Full(_, _, bytes) => bytes as nat,
        _ => 0,
    }
}

/// How far a search says it has come is how far it has: the files that were taken up and
/// their sizes, the files that were read whole and how many bytes that were, and whether
/// the folders are still gone through.
pub proof fn lemma_progress(msgs: Seq<Msg>)
    requires
        can_come(msgs),
    ensures
        ({
            let end = ScanState::initial().played(msgs);
            let p = end.progress;
            &&& p.files_seen == end.files.len()
            &&& p.bytes_seen == counting::total(end.files.len(), |i: int| end.files[i].1 as nat)
            &&& p.files_hashed == counting::count(msgs.len(), |i: int| brings_whole(msgs[i]))
            &&& p.bytes_hashed == counting::total(msgs.len(), |i: int| bytes_brought(msgs[i]))
            &&& p.walking <==> forall|i: int| 0 <= i < msgs.len() ==> !((#[trigger] msgs[i]) is WalkDone)
        }),
    decreases msgs.len(),
{
    let end = ScanState::initial().played(msgs);
    if msgs.len() > 0 {
        let rest = msgs.drop_last();
        let before = ScanState::initial().played(rest);
        lemma_progress(rest);
        counting::lemma_count_same(
            rest.len(),
            |i: int| brings_whole(rest[i]),
            |i: int| brings_whole(msgs[i]),
        );
        counting::lemma_total_same(
            rest.len(),
            |i: int| bytes_brought(rest[i]),
            |i: int| bytes_brought(msgs[i]),
        );
        counting::lemma_total_same(
            before.files.len(),
            |i: int| before.files[i].1 as nat,
            |i: int| end.files[i].1 as nat,
        );
        assert(end == before.after(msgs.last()).0);
        assert(msgs[msgs.len() - 1] == msgs.last());
        if before.progress.walking {
            assert forall|i: int| 0 <= i < msgs.len() && !(msgs.last() is WalkDone) implies !((
            #[trigger] msgs[i]) is WalkDone) by {
                if i < rest.len() {
                    assert(rest[i] == msgs[i]);
                }
            }
        } else {
            let i = choose|i: int| 0 <= i < rest.len() && (#[trigger] rest[i]) is WalkDone;
            assert(msgs[i] is WalkDone);
        }
    }
}

/// Whether one of some messages tells of a file with some data.
pub open spec fn told_of(msgs: Seq<Msg>, inode: (u64, u64)) -> bool {
    exists|i: int| #![trigger msgs[i]]
        0 <= i < msgs.len() && msgs[i] is Found && msgs[i]->Found_2 == Some(inode)
}

proof fn lemma_data(msgs: Seq<Msg>, inode: (u64, u64))
    ensures
        ScanState::initial().played(msgs).data.contains(scanner::data_number(inode)) == told_of(
            msgs,
            inode,
        ),
    decreases msgs.len(),
{
    if msgs.len() > 0 {
        let rest = msgs.drop_last();
        lemma_data(rest, inode);
        assert(msgs[msgs.len() - 1] == msgs.last());
        if told_of(rest, inode) {
            let i = choose|i: int| #![trigger rest[i]]
                0 <= i < rest.len() && rest[i] is Found && rest[i]->Found_2 == Some(inode);
            assert(msgs[i] == rest[i]);
        }
        if told_of(msgs, inode) && !told_of(rest, inode) {
            let i = choose|i: int| #![trigger msgs[i]]
                0 <= i < msgs.len() && msgs[i] is Found && msgs[i]->Found_2 == Some(inode);
            if i < rest.len() {
                assert(rest[i] == msgs[i]);
            }
        }
        if let Msg::Found(_, _, Some(other)) = msgs.last() {
            scanner::lemma_data_numbers(inode, other);
        }
    }
}

/// A file that is found is taken up, unless one with the same data was found before; then
/// nothing changes and nothing is asked for or told.
pub proof fn lemma_found_once(msgs: Seq<Msg>, path: String, size: u64, inode: Option<(u64, u64)>)
    ensures
        ({
            let before = ScanState::initial().played(msgs);
            let (next, asked, told) = before.after(Msg::Found(path, size, inode));
            if inode is Some && told_of(msgs, inode->0) {
                next == before && asked.len() == 0 && told.len() == 0
            } else {
                next.files == before.files.push((path@, size)) && told.len() == 0
            }
        }),
{
    if let Some(i) = inode {
        lemma_data(msgs, i);
    }
}

/// Only a file that is found adds to the files, and what was found stays as it was.
pub proof fn lemma_files_kept(before: ScanState, msg: Msg)
    ensures
        !(msg is Found) ==> before.after(msg).0.files == before.files,
        before.files.len() <= before.after(msg).0.files.len(),
        forall|f: int| #![trigger before.after(msg).0.files[f]]
            0 <= f < before.files.len() ==> before.after(msg).0.files[f] == before.files[f],
{
}

/// Nothing is told when a file is found, when the ends of one were read and when the
/// folders have been gone through. What goes wrong is told at once, with the path of the
/// file.
pub proof fn lemma_errors_told(before: ScanState, msg: Msg)
    ensures
        match msg {
            Msg::Found(_, _, _) => before.after(msg).2.len() == 0,
            Msg::Partial(_, _) => before.after(msg).2.len() == 0,
            Msg::WalkDone => before.after(msg).2.len() == 0,
            Msg::WalkError(message) => before.after(msg).2 == seq![News::Error(message@)],
            Msg::ReadError(id, message) => before.after(msg).2 == seq![
                News::Error(before.files[id as int].0 + " : "@ + message@),
            ],
            Msg::Full(id, _, bytes) => bytes != before.files[id as int].1 ==> before.after(msg).2
                == seq![
                News::Error(
                    before.files[id as int].0 + " : fichier modifié pendant l'analyse, ignoré"@,
                ),
            ],
        },
{
}

/// A file that was read whole joins the group of its size and fingerprint. Of a group of
/// one nothing is told; with the second file the group is told, with its number, its size
/// and both paths; after that each file by itself.
pub proof fn lemma_groups_told(before: ScanState, id: usize, hash: crate::contents::Hash, bytes: u64) -> (k: int)
    requires
        before.wf(),
        before.can_take(Msg::Full(id, hash, bytes)),
        bytes == before.files[id as int].1,
        before.by_full.len() < u64::MAX,
    ensures
        ({
            let (next, asked, told) = before.after(Msg::Full(id, hash, bytes));
            let path = before.files[id as int].0;
            let ids = next.by_full[k].2;
            &&& 0 <= k < next.by_full.len()
            &&& next.by_full[k].0 == bytes
            &&& next.by_full[k].1 == hash@
            &&& ids.len() > 0
            &&& ids.last() == id
            &&& asked.len() == 0
            &&& ids.len() == 1 ==> told.len() == 0
            &&& ids.len() == 2 ==> told == seq![
                News::NewGroup(k as u64, bytes, seq![before.files[ids[0] as int].0, path]),
            ]
            &&& ids.len() > 2 ==> told == seq![News::AddToGroup(k as u64, path)]
            &&& forall|l: int| #![trigger next.by_full[l]]
                0 <= l < before.by_full.len() && l != k ==> next.by_full[l] == before.by_full[l]
            &&& k < before.by_full.len() ==> before.by_full[k] == (bytes, hash@, ids.drop_last())
        }),
{
    let size = before.files[id as int].1;
    let k = buckets::place(before.by_full, size, hash@);
    let old_ids = buckets::ids_of(before.by_full, size, hash@);
    if buckets::holds(before.by_full, size, hash@) {
        assert(buckets::is_of(before.by_full[k], size, hash@));
    }
    assert(old_ids.push(id).drop_last() =~= old_ids);
    k
}

/// When a second file of a size is found, both are to be read, and each one after that; of
/// the first alone nothing is. It is the same for files whose ends agree.
pub proof fn lemma_asked(before: ScanState, msg: Msg)
    requires
        before.wf(),
        before.can_take(msg),
    ensures
        ({
            let (next, asked, _) = before.after(msg);
            let ids = match msg {
                Msg::Found(_, size, _) => buckets::ids_of(
                    before.by_size,
                    size,
                    scanner::unread(),
                ),
                Msg::Partial(id, hash) => buckets::ids_of(
                    before.by_partial,
                    before.files[id as int].1,
                    hash@,
                ),
                _ => Seq::empty(),
            };
            &&& next.pending - before.pending == asked.len() - if msg is Partial || msg is Full
                || msg is ReadError {
                1int
            } else {
                0
            }
            &&& ids.len() == 0 ==> asked.len() == 0
            &&& next.files.len() > before.files.len() && ids.len() == 1 ==> asked.len() == 2
                && task_id(asked[0]) == ids[0] && task_id(asked[1]) == before.files.len()
            &&& next.files.len() > before.files.len() && ids.len() > 1 ==> asked.len() == 1
                && task_id(asked[0]) == before.files.len()
            &&& msg matches Msg::Partial(id, _) ==> {
                &&& ids.len() == 1 ==> asked.len() == 2 && task_id(asked[0]) == ids[0] && task_id(
                    asked[1],
                ) == id
                &&& ids.len() > 1 ==> asked.len() == 1 && task_id(asked[0]) == id
            }
        }),
{
}

/// The file that is to be read.
pub open spec fn task_id(task: Task) -> usize {
    match task {
        Task::Partial(id, _, _) => id,
        Task::Full(id, _) => id,
    }
}

} // verus!
