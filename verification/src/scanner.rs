//! Finding duplicates.
//!
//! Files are taken in as the folders are gone through. A file is read only when
//! another of the same size has been found: first its two ends, then, if those
//! agree with the ends of another file, the whole of it. Each group that is
//! confirmed is passed on at once.
use std::collections::HashSet;

use vstd::prelude::*;

use crate::buckets::{self, Buckets};
use crate::contents;
use crate::roots;
use crate::rules::Exclusions;
use crate::text;

verus! {

broadcast use vstd::std_specs::hash::group_hash_axioms;

/// What a search tells.
pub enum ScanEvent {
    /// A new group of duplicates, of at least two files.
    NewGroup { key: u64, size: u64, files: Vec<String> },
    /// One more file joins a group.
    AddToGroup { key: u64, file: String },
    Progress(ScanProgress),
    Error(String),
    Finished { cancelled: bool },
}

/// How far a search has come.
#[derive(Clone, Copy)]
pub struct ScanProgress {
    pub files_seen: u64,
    pub bytes_seen: u64,
    pub files_hashed: u64,
    pub bytes_hashed: u64,
    pub pending_jobs: u64,
    pub walking: bool,
}

impl ScanProgress {
    /// Nothing was done.
    pub open spec fn none() -> ScanProgress {
        ScanProgress {
            files_seen: 0,
            bytes_seen: 0,
            files_hashed: 0,
            bytes_hashed: 0,
            pending_jobs: 0,
            walking: false,
        }
    }
}

impl Default for ScanProgress {
    fn default() -> (progress: ScanProgress)
        ensures
            progress == ScanProgress::none(),
    {
        ScanProgress {
            files_seen: 0,
            bytes_seen: 0,
            files_hashed: 0,
            bytes_hashed: 0,
            pending_jobs: 0,
            walking: false,
        }
    }
}

/// Something to read.
pub enum Job {
    /// The two ends of a file, whose size is given.
    Partial(usize, String, u64),
    /// The whole of a file.
    Full(usize, String),
}

/// What reaches the search.
pub enum Msg {
    /// A file, its size and, where the system has them, the numbers of its device
    /// and of its data there.
    Found(String, u64, Option<(u64, u64)>),
    Partial(usize, contents::Hash),
    /// The fingerprint of a file and how many bytes were read.
    Full(usize, contents::Hash, u64),
    ReadError(usize, String),
    WalkError(String),
    WalkDone,
}

/// What a search does upon a message.
pub struct Reaction {
    pub jobs: Vec<Job>,
    pub events: Vec<ScanEvent>,
}

// ---------------------------------------------------------------------- model

/// Something to read.
pub ghost enum Task {
    Partial(usize, Seq<char>, u64),
    Full(usize, Seq<char>),
}

impl View for Job {
    type V = Task;

    open spec fn view(&self) -> Task {
        match *self {
            Job::Partial(id, path, size) => Task::Partial(id, path@, size),
            Job::Full(id, path) => Task::Full(id, path@),
        }
    }
}

/// What a search tells.
pub ghost enum News {
    NewGroup(u64, u64, Seq<Seq<char>>),
    AddToGroup(u64, Seq<char>),
    Progress(ScanProgress),
    Error(Seq<char>),
    Finished(bool),
}

impl View for ScanEvent {
    type V = News;

    open spec fn view(&self) -> News {
        match *self {
            ScanEvent::NewGroup { key, size, files } => News::NewGroup(
                key,
                size,
                text::texts(files@),
            ),
            ScanEvent::AddToGroup { key, file } => News::AddToGroup(key, file@),
            ScanEvent::Progress(progress) => News::Progress(progress),
            ScanEvent::Error(message) => News::Error(message@),
            ScanEvent::Finished { cancelled } => News::Finished(cancelled),
        }
    }
}

pub open spec fn tasks(jobs: Seq<Job>) -> Seq<Task> {
    jobs.map_values(|j: Job| j@)
}

pub open spec fn news(events: Seq<ScanEvent>) -> Seq<News> {
    events.map_values(|e: ScanEvent| e@)
}

/// The number that stands for the data of a file.
pub open spec fn data_number(inode: (u64, u64)) -> u128 {
    (inode.0 * 0x1_0000_0000_0000_0000 + inode.1) as u128
}

/// Different data have different numbers.
pub proof fn lemma_data_numbers(a: (u64, u64), b: (u64, u64))
    ensures
        data_number(a) == data_number(b) <==> a == b,
{
}

/// What stands for the fingerprint of a file of which nothing was read.
pub open spec fn unread() -> Seq<u8> {
    Seq::new(32, |i: int| 0u8)
}

/// The files to read once one more belongs with some: none while it is alone,
/// both when it is the second, it alone after that.
pub open spec fn to_start(before: Seq<usize>, id: usize) -> Seq<usize> {
    if before.len() == 0 {
        Seq::empty()
    } else if before.len() == 1 {
        seq![before[0], id]
    } else {
        seq![id]
    }
}

/// Where a search stands.
#[verifier::ext_equal]
pub ghost struct ScanState {
    /// The path and the size of each file.
    pub files: Seq<(Seq<char>, u64)>,
    /// The numbers of the data that were met.
    pub data: Set<u128>,
    pub by_size: Seq<buckets::Contents>,
    pub by_partial: Seq<buckets::Contents>,
    pub by_full: Seq<buckets::Contents>,
    pub progress: ScanProgress,
    /// The jobs that were given out and have not come back.
    pub pending: int,
}

/// Whether the files of each bucket are files of its size.
pub open spec fn sorted_by_size(contents: Seq<buckets::Contents>, files: Seq<(Seq<char>, u64)>) -> bool {
    forall|b: int, i: int| #![trigger contents[b].2[i]]
        0 <= b < contents.len() && 0 <= i < contents[b].2.len() ==> contents[b].2[i] < files.len()
            && files[contents[b].2[i] as int].1 == contents[b].0
}

impl ScanState {
    /// Before any file was found.
    pub open spec fn initial() -> ScanState {
        ScanState {
            files: Seq::empty(),
            data: Set::empty(),
            by_size: Seq::empty(),
            by_partial: Seq::empty(),
            by_full: Seq::empty(),
            progress: ScanProgress { walking: true, ..ScanProgress::none() },
            pending: 0,
        }
    }

    /// What every message keeps.
    pub open spec fn wf(self) -> bool {
        &&& sorted_by_size(self.by_size, self.files)
        &&& sorted_by_size(self.by_partial, self.files)
        &&& sorted_by_size(self.by_full, self.files)
        &&& buckets::distinct(self.by_size)
        &&& buckets::distinct(self.by_partial)
        &&& buckets::distinct(self.by_full)
    }

    /// Whether a message can be taken in: it speaks of a file that was found, what
    /// was read comes while something is out to be read, and the numbers that are
    /// kept can be held.
    pub open spec fn can_take(self, msg: Msg) -> bool {
        match msg {
            Msg::Found(path, size, inode) => {
                &&& self.files.len() < usize::MAX
                &&& self.progress.files_seen < u64::MAX
                &&& self.progress.bytes_seen + size <= u64::MAX
                &&& self.pending + 2 <= u64::MAX
            },
            Msg::Partial(id, hash) => {
                &&& id < self.files.len()
                &&& 0 < self.pending < u64::MAX
            },
            Msg::Full(id, hash, bytes) => {
                &&& id < self.files.len()
                &&& 0 < self.pending
                &&& self.progress.files_hashed < u64::MAX
                &&& self.progress.bytes_hashed + bytes <= u64::MAX
            },
            Msg::ReadError(id, message) => id < self.files.len() && 0 < self.pending,
            Msg::WalkError(message) => true,
            Msg::WalkDone => true,
        }
    }

    /// The first thing to read of a file: all of it, where its two ends would
    /// cover it.
    pub open spec fn first_task(self, id: usize) -> Task {
        let (path, size) = self.files[id as int];
        if size <= 2 * contents::PARTIAL_CHUNK {
            Task::Full(id, path)
        } else {
            Task::Partial(id, path, size)
        }
    }

    /// The first thing to read of each of some files.
    pub open spec fn first_tasks(self, ids: Seq<usize>) -> Seq<Task> {
        ids.map_values(|id: usize| self.first_task(id))
    }

    /// Each of some files, to be read whole.
    pub open spec fn full_tasks(self, ids: Seq<usize>) -> Seq<Task> {
        ids.map_values(|id: usize| Task::Full(id, self.files[id as int].0))
    }

    /// What is told when a file is confirmed to belong with some.
    pub open spec fn confirmed(self, key: u64, before: Seq<usize>, id: usize) -> Seq<News> {
        let (path, size) = self.files[id as int];
        if before.len() == 0 {
            Seq::empty()
        } else if before.len() == 1 {
            seq![News::NewGroup(key, size, seq![self.files[before[0] as int].0, path])]
        } else {
            seq![News::AddToGroup(key, path)]
        }
    }

    /// After a message: where the search stands, what it gives out to be read
    /// and what it tells.
    pub open spec fn after(self, msg: Msg) -> (ScanState, Seq<Task>, Seq<News>) {
        let none = (Seq::<Task>::empty(), Seq::<News>::empty());
        match msg {
            Msg::Found(path, size, inode) => if inode is Some && self.data.contains(
                data_number(inode->0),
            ) {
                // Another path to the same data is no copy.
                (self, none.0, none.1)
            } else {
                let id = self.files.len() as usize;
                let started = to_start(buckets::ids_of(self.by_size, size, unread()), id);
                let next = ScanState {
                    files: self.files.push((path@, size)),
                    data: if inode is Some {
                        self.data.insert(data_number(inode->0))
                    } else {
                        self.data
                    },
                    by_size: buckets::filed(self.by_size, size, unread(), id),
                    progress: ScanProgress {
                        files_seen: (self.progress.files_seen + 1) as u64,
                        bytes_seen: (self.progress.bytes_seen + size) as u64,
                        ..self.progress
                    },
                    pending: self.pending + started.len(),
                    ..self
                };
                (next, next.first_tasks(started), none.1)
            },
            Msg::Partial(id, hash) => {
                let size = self.files[id as int].1;
                let started = to_start(buckets::ids_of(self.by_partial, size, hash@), id);
                let next = ScanState {
                    by_partial: buckets::filed(self.by_partial, size, hash@, id),
                    pending: self.pending - 1 + started.len(),
                    ..self
                };
                (next, next.full_tasks(started), none.1)
            },
            Msg::Full(id, hash, bytes) => {
                let (path, size) = self.files[id as int];
                let read = ScanState {
                    progress: ScanProgress {
                        files_hashed: (self.progress.files_hashed + 1) as u64,
                        bytes_hashed: (self.progress.bytes_hashed + bytes) as u64,
                        ..self.progress
                    },
                    pending: self.pending - 1,
                    ..self
                };
                if bytes != size {
                    (
                        read,
                        none.0,
                        seq![
                            News::Error(
                                path + " : fichier modifié pendant l'analyse, ignoré"@,
                            ),
                        ],
                    )
                } else {
                    let before = buckets::ids_of(self.by_full, size, hash@);
                    let key = buckets::place(self.by_full, size, hash@) as u64;
                    let next = ScanState {
                        by_full: buckets::filed(self.by_full, size, hash@, id),
                        ..read
                    };
                    (next, none.0, self.confirmed(key, before, id))
                }
            },
            Msg::ReadError(id, message) => (
                ScanState { pending: self.pending - 1, ..self },
                none.0,
                seq![News::Error(self.files[id as int].0 + " : "@ + message@)],
            ),
            Msg::WalkError(message) => (self, none.0, seq![News::Error(message@)]),
            Msg::WalkDone => (
                ScanState { progress: ScanProgress { walking: false, ..self.progress }, ..self },
                none.0,
                none.1,
            ),
        }
    }
}

// ---------------------------------------------------------------------- search

/// A search.
pub struct Scan {
    pub paths: Vec<String>,
    pub sizes: Vec<u64>,
    pub data: HashSet<u128>,
    pub by_size: Buckets,
    pub by_partial: Buckets,
    pub by_full: Buckets,
    pub progress: ScanProgress,
    pub pending: u64,
}

impl View for Scan {
    type V = ScanState;

    open spec fn view(&self) -> ScanState {
        ScanState {
            files: Seq::new(self.paths@.len(), |i: int| (self.paths@[i]@, self.sizes@[i])),
            data: self.data@,
            by_size: self.by_size@,
            by_partial: self.by_partial@,
            by_full: self.by_full@,
            progress: self.progress,
            pending: self.pending as int,
        }
    }
}

/// Buckets that hold files by size still do when a file of the size is put in.
proof fn lemma_filed_sorted(
    contents: Seq<buckets::Contents>,
    before: Seq<(Seq<char>, u64)>,
    files: Seq<(Seq<char>, u64)>,
    size: u64,
    hash: Seq<u8>,
    id: usize,
)
    requires
        sorted_by_size(contents, before),
        before.len() <= files.len(),
        forall|i: int| #![trigger files[i]] 0 <= i < before.len() ==> files[i] == before[i],
        id < files.len(),
        files[id as int].1 == size,
    ensures
        sorted_by_size(buckets::filed(contents, size, hash, id), files),
        sorted_by_size(contents, files),
{
    let after = buckets::filed(contents, size, hash, id);
    let p = buckets::place(contents, size, hash);
    if buckets::holds(contents, size, hash) {
        assert(buckets::is_of(contents[p], size, hash));
    }
    assert forall|b: int, i: int| #![trigger contents[b].2[i]]
        0 <= b < contents.len() && 0 <= i < contents[b].2.len() implies contents[b].2[i]
        < files.len() && files[contents[b].2[i] as int].1 == contents[b].0 by {
        assert(files[contents[b].2[i] as int] == before[contents[b].2[i] as int]);
    }
    assert forall|b: int, i: int| #![trigger after[b].2[i]]
        0 <= b < after.len() && 0 <= i < after[b].2.len() implies after[b].2[i] < files.len()
        && files[after[b].2[i] as int].1 == after[b].0 by {
        let old_ids = buckets::ids_of(contents, size, hash);
        if b == p {
            assert(after[b].2 == old_ids.push(id));
            if i < old_ids.len() {
                assert(contents[b].2[i] == after[b].2[i]);
            }
        } else {
            assert(contents[b].2[i] == after[b].2[i]);
        }
    }
}

impl ScanState {
    /// Every message keeps what a search rests on.
    pub proof fn lemma_kept(self, msg: Msg)
        requires
            self.wf(),
            self.can_take(msg),
        ensures
            self.after(msg).0.wf(),
    {
        match msg {
            Msg::Found(path, size, inode) => {
                if !(inode is Some && self.data.contains(data_number(inode->0))) {
                    let files = self.files.push((path@, size));
                    let id = self.files.len() as usize;
                    lemma_filed_sorted(self.by_size, self.files, files, size, unread(), id);
                    lemma_filed_sorted(self.by_partial, self.files, files, size, unread(), id);
                    lemma_filed_sorted(self.by_full, self.files, files, size, unread(), id);
                    buckets::lemma_filed_distinct(self.by_size, size, unread(), id);
                }
            },
            Msg::Partial(id, hash) => {
                let size = self.files[id as int].1;
                lemma_filed_sorted(self.by_partial, self.files, self.files, size, hash@, id);
                buckets::lemma_filed_distinct(self.by_partial, size, hash@, id);
            },
            Msg::Full(id, hash, bytes) => {
                let size = self.files[id as int].1;
                lemma_filed_sorted(self.by_full, self.files, self.files, size, hash@, id);
                buckets::lemma_filed_distinct(self.by_full, size, hash@, id);
            },
            _ => {},
        }
    }
}

impl ScanState {
    /// Whether a job upon a message suits the file that it is for: the ends of a file
    /// are asked for only where it has two that do not touch, and of another file
    /// that is found the whole is.
    spec fn task_fits(self, msg: Msg, k: int) -> bool {
        let (next, given, _) = self.after(msg);
        match given[k] {
            Task::Partial(id, path, size) => {
                &&& id < next.files.len()
                &&& next.files[id as int] == (path, size)
                &&& size > 131_072
            },
            Task::Full(id, path) => {
                &&& id < next.files.len()
                &&& path == next.files[id as int].0
                &&& msg is Found ==> next.files[id as int].1 <= 131_072
            },
        }
    }

    proof fn lemma_task_fits(self, msg: Msg, k: int)
        requires
            self.wf(),
            self.can_take(msg),
            0 <= k < self.after(msg).1.len(),
        ensures
            self.task_fits(msg, k),
    {
        let (next, given, _) = self.after(msg);
        match msg {
            Msg::Found(path, size, inode) => {
                let ids = buckets::ids_of(self.by_size, size, unread());
                let id = self.files.len() as usize;
                let p = buckets::place(self.by_size, size, unread());
                if ids.len() > 0 {
                    assert(self.by_size[p].2[0] == ids[0]);
                }
                assert(given[k] == next.first_task(to_start(ids, id)[k]));
            },
            Msg::Partial(id, hash) => {
                let size = self.files[id as int].1;
                let ids = buckets::ids_of(self.by_partial, size, hash@);
                let p = buckets::place(self.by_partial, size, hash@);
                if ids.len() > 0 {
                    assert(self.by_partial[p].2[0] == ids[0]);
                }
                let f = to_start(ids, id)[k];
                assert(given[k] == Task::Full(f, next.files[f as int].0));
            },
            _ => {},
        }
    }
}

impl Scan {
    /// What every message keeps.
    pub open spec fn wf(self) -> bool {
        &&& self.paths@.len() == self.sizes@.len()
        &&& self.by_size.wf()
        &&& self.by_partial.wf()
        &&& self.by_full.wf()
        &&& self@.wf()
    }

    /// A search that has found nothing yet.
    pub fn new() -> (scan: Scan)
        ensures
            scan.wf(),
            scan@ == ScanState::initial(),
    {
        let scan = Scan {
            paths: Vec::new(),
            sizes: Vec::new(),
            data: HashSet::new(),
            by_size: Buckets::new(),
            by_partial: Buckets::new(),
            by_full: Buckets::new(),
            progress: ScanProgress {
                files_seen: 0,
                bytes_seen: 0,
                files_hashed: 0,
                bytes_hashed: 0,
                pending_jobs: 0,
                walking: true,
            },
            pending: 0,
        };
        assert(scan@ =~= ScanState::initial());
        scan
    }

    /// Whether a message can come now.
    pub fn accepts(&self, msg: &Msg) -> (result: bool)
        requires
            self.wf(),
        ensures
            result == self@.can_take(*msg),
            result == match *msg {
                Msg::Found(_, size, _) => self.paths@.len() < usize::MAX && self.progress.files_seen
                    < u64::MAX && self.progress.bytes_seen + size <= u64::MAX && self.pending + 2
                    <= u64::MAX,
                Msg::Partial(id, _) => id < self.paths@.len() && 0 < self.pending < u64::MAX,
                Msg::Full(id, _, bytes) => id < self.paths@.len() && 0 < self.pending
                    && self.progress.files_hashed < u64::MAX && self.progress.bytes_hashed + bytes
                    <= u64::MAX,
                Msg::ReadError(id, _) => id < self.paths@.len() && 0 < self.pending,
                Msg::WalkError(_) => true,
                Msg::WalkDone => true,
            },
    {
        assert(self@.files.len() == self.paths@.len());
        match msg {
            Msg::Found(_, size, _) => self.paths.len() < usize::MAX && self.progress.files_seen
                < u64::MAX && *size <= u64::MAX - self.progress.bytes_seen && self.pending
                <= u64::MAX - 2,
            Msg::Partial(id, _) => *id < self.paths.len() && 0 < self.pending && self.pending
                < u64::MAX,
            Msg::Full(id, _, bytes) => *id < self.paths.len() && 0 < self.pending
                && self.progress.files_hashed < u64::MAX && *bytes <= u64::MAX
                - self.progress.bytes_hashed,
            Msg::ReadError(id, _) => *id < self.paths.len() && 0 < self.pending,
            Msg::WalkError(_) => true,
            Msg::WalkDone => true,
        }
    }

    /// The files to read once one more belongs with some.
    fn start(ids: &Vec<usize>) -> (started: Vec<usize>)
        requires
            ids@.len() > 0,
        ensures
            started@ == to_start(ids@.drop_last(), ids@.last()),
    {
        let mut started: Vec<usize> = Vec::new();
        let count = ids.len();
        if count == 2 {
            started.push(ids[0]);
            started.push(ids[1]);
        } else if count > 2 {
            started.push(ids[count - 1]);
        }
        assert(started@ =~= to_start(ids@.drop_last(), ids@.last()));
        started
    }

    /// The first thing to read of each of some files.
    fn first_jobs(&self, ids: &Vec<usize>) -> (jobs: Vec<Job>)
        requires
            self.paths@.len() == self.sizes@.len(),
            forall|i: int| 0 <= i < ids@.len() ==> (#[trigger] ids@[i]) < self.paths@.len(),
        ensures
            tasks(jobs@) == self@.first_tasks(ids@),
    {
        let mut jobs: Vec<Job> = Vec::new();
        assert(tasks(jobs@) =~= self@.first_tasks(ids@.take(0)));
        for i in 0..ids.len()
            invariant
                self.paths@.len() == self.sizes@.len(),
                forall|i: int| 0 <= i < ids@.len() ==> (#[trigger] ids@[i]) < self.paths@.len(),
                tasks(jobs@) == self@.first_tasks(ids@.take(i as int)),
        {
            let id = ids[i];
            let ghost before = jobs@;
            let path = self.paths[id].clone();
            let size = self.sizes[id];
            let job = if size <= 2 * contents::PARTIAL_CHUNK {
                Job::Full(id, path)
            } else {
                Job::Partial(id, path, size)
            };
            assert(job@ == self@.first_task(id));
            jobs.push(job);
            assert(tasks(jobs@) =~= tasks(before).push(job@));
            assert(self@.first_tasks(ids@.take(i + 1)) =~= self@.first_tasks(
                ids@.take(i as int),
            ).push(self@.first_task(id)));
        }
        assert(ids@.take(ids@.len() as int) =~= ids@);
        jobs
    }

    /// Each of some files, to be read whole.
    fn full_jobs(&self, ids: &Vec<usize>) -> (jobs: Vec<Job>)
        requires
            self.paths@.len() == self.sizes@.len(),
            forall|i: int| 0 <= i < ids@.len() ==> (#[trigger] ids@[i]) < self.paths@.len(),
        ensures
            tasks(jobs@) == self@.full_tasks(ids@),
    {
        let mut jobs: Vec<Job> = Vec::new();
        assert(tasks(jobs@) =~= self@.full_tasks(ids@.take(0)));
        for i in 0..ids.len()
            invariant
                self.paths@.len() == self.sizes@.len(),
                forall|i: int| 0 <= i < ids@.len() ==> (#[trigger] ids@[i]) < self.paths@.len(),
                tasks(jobs@) == self@.full_tasks(ids@.take(i as int)),
        {
            let id = ids[i];
            let ghost before = jobs@;
            let job = Job::Full(id, self.paths[id].clone());
            jobs.push(job);
            assert(tasks(jobs@) =~= tasks(before).push(job@));
            assert(self@.full_tasks(ids@.take(i + 1)) =~= self@.full_tasks(
                ids@.take(i as int),
            ).push(job@));
        }
        assert(ids@.take(ids@.len() as int) =~= ids@);
        jobs
    }

    /// A reaction that tells one thing.
    fn tell(event: ScanEvent) -> (reaction: Reaction)
        ensures
            tasks(reaction.jobs@) == Seq::<Task>::empty(),
            news(reaction.events@) == seq![event@],
    {
        let mut events: Vec<ScanEvent> = Vec::new();
        events.push(event);
        let reaction = Reaction { jobs: Vec::new(), events };
        assert(tasks(reaction.jobs@) =~= Seq::<Task>::empty());
        assert(news(reaction.events@) =~= seq![event@]);
        reaction
    }

    /// A reaction that gives something out to be read.
    fn give(jobs: Vec<Job>) -> (reaction: Reaction)
        ensures
            tasks(reaction.jobs@) == tasks(jobs@),
            news(reaction.events@) == Seq::<News>::empty(),
    {
        let reaction = Reaction { jobs, events: Vec::new() };
        assert(news(reaction.events@) =~= Seq::<News>::empty());
        reaction
    }

    fn found(&mut self, path: String, size: u64, inode: Option<(u64, u64)>) -> (reaction: Reaction)
        requires
            old(self).wf(),
            old(self)@.can_take(Msg::Found(path, size, inode)),
        ensures
            final(self).wf(),
            (final(self)@, tasks(reaction.jobs@), news(reaction.events@)) == old(self)@.after(
                Msg::Found(path, size, inode),
            ),
    {
        let ghost before = *self;
        let ghost msg = Msg::Found(path, size, inode);
        proof {
            before@.lemma_kept(msg);
        }
        if let Some((device, number)) = inode {
            let data: u128 = device as u128 * 0x1_0000_0000_0000_0000u128 + number as u128;
            assert(data == data_number((device, number)));
            if !self.data.insert(data) {
                assert(self.data@ =~= before.data@);
                let reaction = Scan::give(Vec::new());
                assert(tasks(reaction.jobs@) =~= Seq::<Task>::empty());
                return reaction;
            }
        }
        self.progress.files_seen = self.progress.files_seen + 1;
        self.progress.bytes_seen = self.progress.bytes_seen + size;
        let id = self.paths.len();
        self.paths.push(path);
        self.sizes.push(size);
        let unread_hash: contents::Hash = [0; 32];
        assert(unread_hash@ =~= unread());
        let at = self.by_size.file(size, &unread_hash, id);
        let ghost ids = buckets::ids_of(before.by_size@, size, unread());
        proof {
            assert(self.by_size@[at as int].2 == ids.push(id));
            assert(ids.push(id).drop_last() =~= ids);
            assert(self@.files =~= before@.files.push((path@, size)));
            lemma_filed_sorted(
                before.by_size@,
                before@.files,
                self@.files,
                size,
                unread(),
                id,
            );
            assert forall|i: int| 0 <= i < ids.len() implies (#[trigger] ids[i]) < id by {
                let p = buckets::place(before.by_size@, size, unread());
                assert(before.by_size@[p].2[i] == ids[i]);
            }
        }
        let started = Scan::start(&self.by_size.list[at].ids);
        let jobs = self.first_jobs(&started);
        proof {
            assert(jobs@.len() == tasks(jobs@).len());
            assert(started@.len() <= 2);
        }
        self.pending = self.pending + jobs.len() as u64;
        proof {
            assert(self@ =~= before@.after(msg).0);
            assert(self@.first_tasks(started@) =~= tasks(jobs@));
        }
        Scan::give(jobs)
    }

    fn partly_read(&mut self, id: usize, hash: contents::Hash) -> (reaction: Reaction)
        requires
            old(self).wf(),
            old(self)@.can_take(Msg::Partial(id, hash)),
        ensures
            final(self).wf(),
            (final(self)@, tasks(reaction.jobs@), news(reaction.events@)) == old(self)@.after(
                Msg::Partial(id, hash),
            ),
    {
        let ghost before = *self;
        let ghost msg = Msg::Partial(id, hash);
        proof {
            before@.lemma_kept(msg);
        }
        self.pending = self.pending - 1;
        let size = self.sizes[id];
        let at = self.by_partial.file(size, &hash, id);
        let ghost ids = buckets::ids_of(before.by_partial@, size, hash@);
        proof {
            assert(self.by_partial@[at as int].2 == ids.push(id));
            assert(ids.push(id).drop_last() =~= ids);
            assert forall|i: int| 0 <= i < ids.len() implies (#[trigger] ids[i])
                < self.paths@.len() by {
                let p = buckets::place(before.by_partial@, size, hash@);
                assert(before.by_partial@[p].2[i] == ids[i]);
            }
        }
        let started = Scan::start(&self.by_partial.list[at].ids);
        let jobs = self.full_jobs(&started);
        proof {
            assert(jobs@.len() == tasks(jobs@).len());
            assert(started@.len() <= 2);
        }
        self.pending = self.pending + jobs.len() as u64;
        proof {
            assert(self@ =~= before@.after(msg).0);
            assert(self@.full_tasks(started@) =~= tasks(jobs@));
        }
        Scan::give(jobs)
    }

    fn read(&mut self, id: usize, hash: contents::Hash, bytes: u64) -> (reaction: Reaction)
        requires
            old(self).wf(),
            old(self)@.can_take(Msg::Full(id, hash, bytes)),
        ensures
            final(self).wf(),
            (final(self)@, tasks(reaction.jobs@), news(reaction.events@)) == old(self)@.after(
                Msg::Full(id, hash, bytes),
            ),
    {
        let ghost before = *self;
        let ghost msg = Msg::Full(id, hash, bytes);
        proof {
            before@.lemma_kept(msg);
        }
        self.pending = self.pending - 1;
        self.progress.files_hashed = self.progress.files_hashed + 1;
        self.progress.bytes_hashed = self.progress.bytes_hashed + bytes;
        let size = self.sizes[id];
        let path = self.paths[id].clone();
        if bytes != size {
            let mut message = path;
            message.append(" : fichier modifié pendant l'analyse, ignoré");
            assert(self@ =~= before@.after(msg).0);
            return Scan::tell(ScanEvent::Error(message));
        }
        let at = self.by_full.file(size, &hash, id);
        let ghost ids = buckets::ids_of(before.by_full@, size, hash@);
        assert(self.by_full@[at as int].2 == ids.push(id));
        assert(self@ =~= before@.after(msg).0);
        let count = self.by_full.list[at].ids.len();
        assert(count == ids.len() + 1);
        let key = at as u64;
        if count == 1 {
            let reaction = Scan::give(Vec::new());
            assert(tasks(reaction.jobs@) =~= Seq::<Task>::empty());
            reaction
        } else if count == 2 {
            let first = self.by_full.list[at].ids[0];
            proof {
                let p = buckets::place(before.by_full@, size, hash@);
                assert(before.by_full@[p].2[0] == ids[0]);
                assert(first == ids[0]);
            }
            let mut files: Vec<String> = Vec::new();
            files.push(self.paths[first].clone());
            files.push(path);
            assert(text::texts(files@) =~= seq![before@.files[first as int].0, path@]);
            Scan::tell(ScanEvent::NewGroup { key, size, files })
        } else {
            Scan::tell(ScanEvent::AddToGroup { key, file: path })
        }
    }

    /// Takes a message in, and says what is to be read and told.
    pub fn handle(&mut self, msg: Msg) -> (reaction: Reaction)
        requires
            old(self).wf(),
            old(self)@.can_take(msg),
        ensures
            final(self).wf(),
            (final(self)@, tasks(reaction.jobs@), news(reaction.events@)) == old(self)@.after(msg),
            forall|k: int| #![trigger reaction.jobs@[k]]
                0 <= k < reaction.jobs@.len() ==> match reaction.jobs@[k] {
                    Job::Partial(id, path, size) => {
                        &&& id < final(self).sizes@.len()
                        &&& size == final(self).sizes@[id as int]
                        &&& path@ == final(self).paths@[id as int]@
                        &&& size > 2 * contents::PARTIAL_CHUNK
                        &&& size > 131_072
                    },
                    Job::Full(id, path) => {
                        &&& id < final(self).sizes@.len()
                        &&& path@ == final(self).paths@[id as int]@
                        &&& msg is Found ==> final(self).sizes@[id as int] <= 2
                            * contents::PARTIAL_CHUNK
                        &&& msg is Found ==> final(self).sizes@[id as int] <= 131_072
                    },
                },
    {
        let ghost before = *self;
        proof {
            before@.lemma_kept(msg);
            assert forall|k: int| #![trigger before@.after(msg).1[k]]
                0 <= k < before@.after(msg).1.len() implies before@.task_fits(msg, k) by {
                before@.lemma_task_fits(msg, k);
            }
        }
        let reaction = self.react(msg);
        proof {
            assert(self@.files.len() == self.sizes@.len());
            assert forall|k: int| #![trigger reaction.jobs@[k]]
                0 <= k < reaction.jobs@.len() implies match reaction.jobs@[k] {
                Job::Partial(id, path, size) => {
                    &&& id < self.sizes@.len()
                    &&& size == self.sizes@[id as int]
                    &&& path@ == self.paths@[id as int]@
                    &&& size > 2 * contents::PARTIAL_CHUNK
                    &&& size > 131_072
                },
                Job::Full(id, path) => {
                    &&& id < self.sizes@.len()
                    &&& path@ == self.paths@[id as int]@
                    &&& msg is Found ==> self.sizes@[id as int] <= 2 * contents::PARTIAL_CHUNK
                    &&& msg is Found ==> self.sizes@[id as int] <= 131_072
                },
            } by {
                assert(tasks(reaction.jobs@)[k] == reaction.jobs@[k]@);
                assert(before@.task_fits(msg, k));
            }
        }
        reaction
    }

    fn react(&mut self, msg: Msg) -> (reaction: Reaction)
        requires
            old(self).wf(),
            old(self)@.can_take(msg),
        ensures
            final(self).wf(),
            (final(self)@, tasks(reaction.jobs@), news(reaction.events@)) == old(self)@.after(msg),
    {
        let ghost before = *self;
        match msg {
            Msg::Found(path, size, inode) => self.found(path, size, inode),
            Msg::Partial(id, hash) => self.partly_read(id, hash),
            Msg::Full(id, hash, bytes) => self.read(id, hash, bytes),
            Msg::ReadError(id, error) => {
                self.pending = self.pending - 1;
                let mut message = self.paths[id].clone();
                message.append(" : ");
                message.append(error.as_str());
                assert(message@ =~= before@.files[id as int].0 + " : "@ + error@);
                assert(self@ =~= before@.after(msg).0);
                Scan::tell(ScanEvent::Error(message))
            },
            Msg::WalkError(message) => Scan::tell(ScanEvent::Error(message)),
            Msg::WalkDone => {
                self.progress.walking = false;
                assert(self@ =~= before@.after(msg).0);
                let reaction = Scan::give(Vec::new());
                assert(tasks(reaction.jobs@) =~= Seq::<Task>::empty());
                reaction
            },
        }
    }

    /// Whether nothing is left to be gone through or read.
    pub fn is_over(&self) -> (result: bool)
        ensures
            result == (!self@.progress.walking && self@.pending == 0),
    {
        !self.progress.walking && self.pending == 0
    }

    /// Tells how far the search has come.
    pub fn report(&mut self) -> (event: ScanEvent)
        requires
            old(self).wf(),
        ensures
            final(self).wf(),
            final(self)@ == (ScanState {
                progress: ScanProgress {
                    pending_jobs: old(self).pending,
                    ..old(self)@.progress
                },
                ..old(self)@
            }),
            event@ == News::Progress(final(self)@.progress),
    {
        self.progress.pending_jobs = self.pending;
        ScanEvent::Progress(self.progress)
    }

    /// Tells that the search is at its end.
    pub fn finish(&mut self, cancelled: bool) -> (events: Vec<ScanEvent>)
        requires
            old(self).wf(),
        ensures
            final(self).wf(),
            final(self)@ == (ScanState {
                progress: ScanProgress {
                    pending_jobs: 0,
                    walking: false,
                    ..old(self)@.progress
                },
                ..old(self)@
            }),
            news(events@) == seq![
                News::Progress(final(self)@.progress),
                News::Finished(cancelled),
            ],
    {
        self.progress.walking = false;
        self.progress.pending_jobs = 0;
        let mut events: Vec<ScanEvent> = Vec::new();
        events.push(ScanEvent::Progress(self.progress));
        events.push(ScanEvent::Finished { cancelled });
        assert(news(events@) =~= seq![
            News::Progress(self@.progress),
            News::Finished(cancelled),
        ]);
        events
    }
}

// ------------------------------------------------------------- what is searched

/// The folders to search, or what is told where there is none.
pub fn plan(given: &[String]) -> (result: Result<Vec<String>, Vec<ScanEvent>>)
    ensures
        match result {
            Ok(found) => roots::are_roots(text::texts(found@), text::texts(given@)) && found@.len()
                > 0,
            Err(events) => given@.len() == 0 && news(events@) == seq![
                News::Error("Aucun dossier valide à analyser"@),
                News::Finished(false),
            ],
        },
        given@.len() > 0 ==> result is Ok,
{
    let found = roots::normalize_roots(given);
    if found.len() == 0 {
        proof {
            if given@.len() > 0 {
                assert(roots::inside_one(text::texts(given@)[0], text::texts(found@)));
            }
        }
        let mut message = String::new();
        message.append("Aucun dossier valide à analyser");
        assert(message@ =~= "Aucun dossier valide à analyser"@);
        let mut events: Vec<ScanEvent> = Vec::new();
        events.push(ScanEvent::Error(message));
        events.push(ScanEvent::Finished { cancelled: false });
        assert(news(events@) =~= seq![
            News::Error("Aucun dossier valide à analyser"@),
            News::Finished(false),
        ]);
        return Err(events);
    }
    Ok(found)
}

/// How many files are read at the same time: one at least.
pub fn thread_count(threads: usize) -> (count: usize)
    ensures
        count == if threads == 0 {
            1
        } else {
            threads
        },
{
    if threads == 0 {
        1
    } else {
        threads
    }
}

/// The size from which files are looked at: an empty file is no duplicate.
pub fn smallest_size(min_size: u64) -> (size: u64)
    ensures
        size == if min_size == 0 {
            1
        } else {
            min_size
        },
{
    if min_size == 0 {
        1
    } else {
        min_size
    }
}

/// Whether something that is met in a folder is left out. What the search begins
/// with is not, where it is a folder.
pub fn entry_excluded(exclusions: &Exclusions, is_dir: bool, depth: usize, path: &str) -> (result:
    bool)
    ensures
        result == if is_dir {
            depth > 0 && exclusions.hides_dir(path@)
        } else {
            exclusions.hides_file(path@)
        },
{
    if is_dir {
        depth > 0 && exclusions.excludes_dir(path)
    } else {
        exclusions.excludes_file(path)
    }
}

/// Whether a file of some size is looked at.
pub fn size_counts(size: u64, smallest: u64) -> (result: bool)
    ensures
        result == (size >= smallest),
{
    size >= smallest
}

/// What a job ends in: the fingerprint and how many bytes were read, or what
/// went wrong.
pub fn job_message(job: Job, outcome: Result<(contents::Hash, u64), String>) -> (msg: Msg)
    ensures
        match (job, outcome) {
            (Job::Partial(id, _, _), Ok((hash, _))) => msg == Msg::Partial(id, hash),
            (Job::Full(id, _), Ok((hash, bytes))) => msg == Msg::Full(id, hash, bytes),
            (Job::Partial(id, _, _), Err(error)) => msg == Msg::ReadError(id, error),
            (Job::Full(id, _), Err(error)) => msg == Msg::ReadError(id, error),
        },
{
    match (job, outcome) {
        (Job::Partial(id, _, _), Ok((hash, _))) => Msg::Partial(id, hash),
        (Job::Full(id, _), Ok((hash, bytes))) => Msg::Full(id, hash, bytes),
        (Job::Partial(id, _, _), Err(error)) => Msg::ReadError(id, error),
        (Job::Full(id, _), Err(error)) => Msg::ReadError(id, error),
    }
}

// ------------------------------------------------------------------------ laws

impl ScanState {
    /// A file is read only where another of the same size was found.
    pub proof fn lemma_read_only_with_another(self, path: String, size: u64, inode: Option<(u64, u64)>, k: int)
        requires
            self.wf(),
            self.can_take(Msg::Found(path, size, inode)),
            0 <= k < self.after(Msg::Found(path, size, inode)).1.len(),
        ensures
            ({
                let (next, started, _) = self.after(Msg::Found(path, size, inode));
                exists|f: usize, o: usize| #![trigger next.files[f as int], next.files[o as int]]
                    f < next.files.len() && o < next.files.len() && f != o && started[k]
                        == next.first_task(f) && next.files[f as int].1 == size
                        && next.files[o as int].1 == size
            }),
    {
        let (next, started, _) = self.after(Msg::Found(path, size, inode));
        let ids = buckets::ids_of(self.by_size, size, unread());
        let id = self.files.len() as usize;
        let p = buckets::place(self.by_size, size, unread());
        assert(buckets::is_of(self.by_size[p], size, unread()));
        assert(self.by_size[p].2[0] == ids[0]);
        let first = ids[0];
        assert(next.files[first as int] == self.files[first as int]);
        assert(next.files[id as int] == (path@, size));
        let fs = to_start(ids, id);
        assert(started[k] == next.first_task(fs[k]));
        if fs[k] == first {
            assert(next.files[fs[k] as int].1 == size && next.files[id as int].1 == size);
        } else {
            assert(next.files[fs[k] as int].1 == size && next.files[first as int].1 == size);
        }
    }

    /// A file whose ends are read for the first time is read whole only where
    /// another file of its size has the same ends, by their fingerprint.
    pub proof fn lemma_read_whole_with_another(self, id: usize, hash: contents::Hash, k: int)
        requires
            self.wf(),
            self.can_take(Msg::Partial(id, hash)),
            !buckets::ids_of(self.by_partial, self.files[id as int].1, hash@).contains(id),
            0 <= k < self.after(Msg::Partial(id, hash)).1.len(),
        ensures
            exists|o: usize|
                {
                    &&& #[trigger] buckets::ids_of(
                        self.by_partial,
                        self.files[id as int].1,
                        hash@,
                    ).contains(o)
                    &&& o != id
                    &&& o < self.files.len()
                    &&& self.files[o as int].1 == self.files[id as int].1
                },
    {
        let size = self.files[id as int].1;
        let ids = buckets::ids_of(self.by_partial, size, hash@);
        let p = buckets::place(self.by_partial, size, hash@);
        assert(buckets::is_of(self.by_partial[p], size, hash@));
        assert(self.by_partial[p].2[0] == ids[0]);
        assert(ids.contains(ids[0]));
    }

    /// The files that were told to make up a group.
    pub open spec fn told(self, key: int) -> Seq<Seq<char>> {
        if 0 <= key < self.by_full.len() && self.by_full[key].2.len() >= 2 {
            self.by_full[key].2.map_values(|id: usize| self.files[id as int].0)
        } else {
            Seq::empty()
        }
    }

    /// What is told of groups upon a message is what it changes in them: a group is
    /// told whole when it comes to have two files, and file by file after that.
    pub proof fn lemma_told(self, msg: Msg, key: int)
        requires
            self.wf(),
            self.can_take(msg),
            self.by_full.len() < u64::MAX,
            0 <= key,
        ensures
            ({
                let (next, _, told) = self.after(msg);
                next.told(key) == if told.len() == 1 {
                    match told[0] {
                        News::NewGroup(k, size, files) => if k == key {
                            files
                        } else {
                            self.told(key)
                        },
                        News::AddToGroup(k, file) => if k == key {
                            self.told(key).push(file)
                        } else {
                            self.told(key)
                        },
                        _ => self.told(key),
                    }
                } else {
                    self.told(key)
                }
            }),
    {
        let (next, _, told) = self.after(msg);
        match msg {
            Msg::Found(path, size, inode) => {
                if 0 <= key < self.by_full.len() {
                    assert forall|i: int| 0 <= i < self.by_full[key].2.len() implies next.files[
                    #[trigger] self.by_full[key].2[i] as int] == self.files[self.by_full[key].2[i] as int] by {}
                    assert(next.told(key) =~= self.told(key));
                }
            },
            Msg::Full(id, hash, bytes) => {
                let (path, size) = self.files[id as int];
                if bytes == size {
                    let ids = buckets::ids_of(self.by_full, size, hash@);
                    let p = buckets::place(self.by_full, size, hash@);
                    if buckets::holds(self.by_full, size, hash@) {
                        assert(buckets::is_of(self.by_full[p], size, hash@));
                    }
                    assert(p as u64 == p);
                    if key == p {
                        assert(next.by_full[key].2 == ids.push(id));
                        let named = |i: usize| self.files[i as int].0;
                        assert(ids.push(id).map_values(named) =~= ids.map_values(named).push(path));
                        if ids.len() == 1 {
                            assert(next.told(key) =~= seq![self.files[ids[0] as int].0, path]);
                        } else if ids.len() >= 2 {
                            assert(next.told(key) =~= self.told(key).push(path));
                        } else {
                            assert(next.told(key) =~= Seq::<Seq<char>>::empty());
                            assert(self.told(key) =~= Seq::<Seq<char>>::empty());
                        }
                    } else {
                        assert(next.told(key) =~= self.told(key));
                    }
                } else {
                    assert(next.told(key) =~= self.told(key));
                }
            },
            _ => {
                assert(next.told(key) =~= self.told(key));
            },
        }
    }

    /// The ends of a file are asked for only where it has two that do not touch, that
    /// is more than twice as much as is read at each end; the whole of a file that is
    /// found is asked for where it has not.
    pub proof fn lemma_jobs_suit(self, msg: Msg, k: int)
        requires
            self.wf(),
            self.can_take(msg),
            0 <= k < self.after(msg).1.len(),
        ensures
            ({
                let (next, given, _) = self.after(msg);
                match given[k] {
                    Task::Partial(id, path, size) => {
                        &&& msg is Found
                        &&& id < next.files.len()
                        &&& next.files[id as int] == (path, size)
                        &&& size > 2 * contents::PARTIAL_CHUNK
                        &&& size > 131_072
                    },
                    Task::Full(id, path) => {
                        &&& msg is Found || msg is Partial
                        &&& id < next.files.len()
                        &&& path == next.files[id as int].0
                        &&& msg is Found ==> next.files[id as int].1 <= 2
                            * contents::PARTIAL_CHUNK
                        &&& msg is Found ==> next.files[id as int].1 <= 131_072
                    },
                }
            }),
    {
        self.lemma_task_fits(msg, k);
    }

    /// Another path to data that was met already changes nothing.
    pub proof fn lemma_same_data_ignored(self, path: String, size: u64, inode: (u64, u64), again: String)
        requires
            self.can_take(Msg::Found(path, size, Some(inode))),
        ensures
            ({
                let next = self.after(Msg::Found(path, size, Some(inode))).0;
                next.after(Msg::Found(again, size, Some(inode))) == (
                    next,
                    Seq::<Task>::empty(),
                    Seq::<News>::empty(),
                )
            }),
    {
    }
}

impl ScanState {
    /// Whether nothing differs but how many jobs were last reported to be out.
    pub open spec fn same_but_report(self, other: ScanState) -> bool {
        self == (ScanState {
            progress: ScanProgress {
                pending_jobs: self.progress.pending_jobs,
                ..other.progress
            },
            ..other
        })
    }

    /// Reporting how far a search has come changes nothing of what follows.
    pub proof fn lemma_report_apart(self, other: ScanState, msg: Msg)
        requires
            self.same_but_report(other),
        ensures
            self.can_take(msg) == other.can_take(msg),
            self.after(msg).0.same_but_report(other.after(msg).0),
            self.after(msg).1 == other.after(msg).1,
            self.after(msg).2 == other.after(msg).2,
    {
        assert(self.after(msg).1 =~= other.after(msg).1);
        assert(self.after(msg).2 =~= other.after(msg).2);
    }
}

impl ScanState {
    /// After some messages.
    pub open spec fn played(self, msgs: Seq<Msg>) -> ScanState
        decreases msgs.len(),
    {
        if msgs.len() == 0 {
            self
        } else {
            self.played(msgs.drop_last()).after(msgs.last()).0
        }
    }

    /// How many jobs were given out upon some messages.
    pub open spec fn given_out(self, msgs: Seq<Msg>) -> nat
        decreases msgs.len(),
    {
        if msgs.len() == 0 {
            0
        } else {
            self.given_out(msgs.drop_last()) + self.played(msgs.drop_last()).after(
                msgs.last(),
            ).1.len()
        }
    }

    /// The search is over only when every job that was given out has come back.
    pub proof fn lemma_over_when_all_read(self, msgs: Seq<Msg>)
        requires
            self.pending == 0,
        ensures
            self.played(msgs).pending == self.given_out(msgs) - answers(msgs),
        decreases msgs.len(),
    {
        if msgs.len() > 0 {
            self.lemma_over_when_all_read(msgs.drop_last());
        }
    }
}

/// How many of some messages bring back what was given out to be read.
pub open spec fn answers(msgs: Seq<Msg>) -> nat
    decreases msgs.len(),
{
    if msgs.len() == 0 {
        0
    } else {
        answers(msgs.drop_last()) + match msgs.last() {
            Msg::Partial(_, _) => 1nat,
            Msg::Full(_, _, _) => 1nat,
            Msg::ReadError(_, _) => 1nat,
            _ => 0nat,
        }
    }
}

} // verus!
