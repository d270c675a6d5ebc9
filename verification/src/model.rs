//! The results: groups of duplicates, the tree of folders that hold them and
//! the mark that each file carries.
use std::collections::HashMap;

use vstd::hash_map::StringHashMap;
use vstd::prelude::*;

use crate::names::NameMap;
use crate::paths;
use crate::text;

verus! {

broadcast use vstd::std_specs::hash::group_hash_axioms;

pub type FileId = usize;

pub type GroupId = usize;

pub type NodeId = usize;

/// The state in which a file or a folder is shown.
#[derive(Clone, Copy, PartialEq, Eq, Debug, Structural)]
pub enum Status {
    /// Still to be decided.
    Pending,
    /// Marked for deletion.
    Delete,
    /// Kept: all its duplicates are marked.
    Keep,
    /// All copies of the group are marked: nothing will be deleted.
    Conflict,
}

/// A file that has duplicates.
pub struct DupFile {
    pub path: String,
    pub group: GroupId,
    pub node: NodeId,
    pub marked: bool,
    /// Deleted from the disk: no longer shown.
    pub removed: bool,
    /// Hidden by an exclusion pattern; the file stays on the disk.
    pub excluded: bool,
    /// Matches a continuous rule but was spared as the last unmarked copy; tried
    /// again when the group grows.
    pub rule_pending: bool,
}

/// Files with the same content.
pub struct Group {
    pub size: u64,
    pub files: Vec<FileId>,
}

/// How many files a folder holds, by what becomes of them.
#[derive(Clone, Copy)]
pub struct Counts {
    pub total: usize,
    pub delete: usize,
    pub keep: usize,
    pub conflict: usize,
    pub delete_bytes: u64,
}

/// The numbers that `Counts` holds.
#[verifier::ext_equal]
pub ghost struct Tally {
    pub total: nat,
    pub delete: nat,
    pub keep: nat,
    pub conflict: nat,
    pub delete_bytes: nat,
}

/// A folder.
pub struct Node {
    pub name: String,
    pub parent: Option<NodeId>,
    pub children: NameMap,
    pub files: Vec<FileId>,
    pub counts: Counts,
}

/// All results.
pub struct Model {
    pub files: Vec<DupFile>,
    pub groups: Vec<Group>,
    pub nodes: Vec<Node>,
    /// The roots of the tree.
    pub roots: NameMap,
    /// The group that each key stands for.
    pub group_by_key: HashMap<u64, GroupId>,
    /// The file that each path stands for, by the text that its spellings share.
    pub file_by_path: StringHashMap<FileId>,
    /// Whether the counts may be out of date.
    pub dirty: bool,
    pub totals: Counts,
    /// The groups that still have two files or more.
    pub visible_groups: usize,
    pub wasted_bytes: u64,
    /// Goes up with each recount, so that what was derived from the counts can
    /// be told to be out of date.
    pub generation: u64,
}

// --------------------------------------------------------------------- counts

impl Tally {
    /// No file at all.
    pub open spec fn zero() -> Tally {
        Tally { total: 0, delete: 0, keep: 0, conflict: 0, delete_bytes: 0 }
    }

    /// Two tallies together.
    pub open spec fn plus(self, other: Tally) -> Tally {
        Tally {
            total: self.total + other.total,
            delete: self.delete + other.delete,
            keep: self.keep + other.keep,
            conflict: self.conflict + other.conflict,
            delete_bytes: self.delete_bytes + other.delete_bytes,
        }
    }

    /// Whether no number of this tally is above that of another.
    pub open spec fn at_most(self, other: Tally) -> bool {
        &&& self.total <= other.total
        &&& self.delete <= other.delete
        &&& self.keep <= other.keep
        &&& self.conflict <= other.conflict
        &&& self.delete_bytes <= other.delete_bytes
    }
}

impl View for Counts {
    type V = Tally;

    open spec fn view(&self) -> Tally {
        Tally {
            total: self.total as nat,
            delete: self.delete as nat,
            keep: self.keep as nat,
            conflict: self.conflict as nat,
            delete_bytes: self.delete_bytes as nat,
        }
    }
}

impl Default for Counts {
    fn default() -> (counts: Counts)
        ensures
            counts@ == Tally::zero(),
    {
        Counts { total: 0, delete: 0, keep: 0, conflict: 0, delete_bytes: 0 }
    }
}

/// Adds the second counts to the first.
pub fn add_counts(a: &mut Counts, b: Counts)
    requires
        old(a).total + b.total <= usize::MAX,
        old(a).delete + b.delete <= usize::MAX,
        old(a).keep + b.keep <= usize::MAX,
        old(a).conflict + b.conflict <= usize::MAX,
        old(a).delete_bytes + b.delete_bytes <= u64::MAX,
    ensures
        final(a)@ == old(a)@.plus(b@),
{
    a.total = a.total + b.total;
    a.delete = a.delete + b.delete;
    a.keep = a.keep + b.keep;
    a.conflict = a.conflict + b.conflict;
    a.delete_bytes = a.delete_bytes + b.delete_bytes;
}

// ----------------------------------------------------------------------- tree

/// The names of the folders that lead to a folder, the outermost first.
pub open spec fn node_parts(nodes: Seq<Node>, n: int) -> Seq<Seq<char>>
    decreases n,
{
    match nodes[n].parent {
        None => seq![nodes[n].name@],
        Some(p) => if 0 <= p < n {
            node_parts(nodes, p as int).push(nodes[n].name@)
        } else {
            Seq::empty()
        },
    }
}

/// Whether a folder is another folder or lies below it.
pub open spec fn under(nodes: Seq<Node>, n: int, top: int) -> bool
    decreases n,
{
    n == top || match nodes[n].parent {
        None => false,
        Some(p) => 0 <= p < n && under(nodes, p as int, top),
    }
}

/// Whether folders and their sub-folders refer to each other, each folder
/// standing after the one that holds it.
#[verifier::opaque]
pub open spec fn tree_wf(nodes: Seq<Node>, roots: NameMap) -> bool {
    &&& roots.wf()
    &&& forall|n: int| #![trigger nodes[n]]
        0 <= n < nodes.len() ==> {
            &&& nodes[n].children.wf()
            &&& paths::are_components(node_parts(nodes, n))
            &&& match nodes[n].parent {
                None => roots@.contains((nodes[n].name@, n as usize)),
                Some(p) => p < n && nodes[p as int].children@.contains(
                    (nodes[n].name@, n as usize),
                ),
            }
        }
    &&& forall|e: (Seq<char>, usize)| #[trigger]
        roots@.contains(e) ==> e.1 < nodes.len() && nodes[e.1 as int].parent is None
            && nodes[e.1 as int].name@ == e.0
    &&& forall|n: int, e: (Seq<char>, usize)|
        0 <= n < nodes.len() && #[trigger] nodes[n].children@.contains(e) ==> e.1 < nodes.len()
            && nodes[e.1 as int].parent == Some(n as usize) && nodes[e.1 as int].name@ == e.0
}

// ---------------------------------------------------------------------- groups

/// Those of some files that are neither removed nor excluded.
pub open spec fn alive_among(ids: Seq<FileId>, files: Seq<DupFile>) -> Seq<FileId> {
    ids.filter(|f: FileId| !files[f as int].removed && !files[f as int].excluded)
}

impl Group {
    /// The files of the group that are neither removed nor excluded.
    pub fn alive(&self, files: &[DupFile]) -> (alive: Vec<FileId>)
        requires
            forall|i: int| 0 <= i < self.files@.len() ==> (#[trigger] self.files@[i]) < files@.len(),
        ensures
            alive@ == alive_among(self.files@, files@),
            alive@ == self.files@.filter(
                |f: FileId| !files@[f as int].removed && !files@[f as int].excluded,
            ),
    {
        let mut alive: Vec<FileId> = Vec::new();
        proof {
            reveal(Seq::filter);
            assert(alive_among(self.files@.take(0), files@) =~= Seq::<FileId>::empty());
        }
        for i in 0..self.files.len()
            invariant
                forall|j: int|
                    0 <= j < self.files@.len() ==> (#[trigger] self.files@[j]) < files@.len(),
                alive@ == alive_among(self.files@.take(i as int), files@),
        {
            let f = self.files[i];
            proof {
                reveal(Seq::filter);
                assert(self.files@.take(i as int + 1).drop_last() =~= self.files@.take(i as int));
            }
            if !files[f].removed && !files[f].excluded {
                alive.push(f);
            }
        }
        assert(self.files@.take(self.files@.len() as int) =~= self.files@);
        alive
    }
}

// ----------------------------------------------------------------------- model

impl Model {
    /// Whether a file is neither removed nor excluded.
    pub open spec fn alive(self, f: int) -> bool {
        !self.files@[f].removed && !self.files@[f].excluded
    }

    /// Whether a file is another copy, present, of the content of the first.
    pub open spec fn other(self, f: int, o: int) -> bool {
        &&& 0 <= o < self.files@.len()
        &&& o != f
        &&& self.files@[o].group == self.files@[f].group
        &&& self.alive(o)
    }

    /// Whether a file is shown: it is present, and so is another copy.
    pub open spec fn visible(self, f: int) -> bool {
        self.alive(f) && exists|o: int| self.other(f, o)
    }

    /// Whether there are other copies and all of them are marked.
    pub open spec fn others_marked(self, f: int) -> bool {
        &&& exists|o: int| self.other(f, o)
        &&& forall|o: int| #[trigger] self.other(f, o) ==> self.files@[o].marked
    }

    /// The status of a file.
    pub open spec fn status_of(self, f: int) -> Status {
        match (self.files@[f].marked, self.others_marked(f)) {
            (true, true) => Status::Conflict,
            (true, false) => Status::Delete,
            (false, true) => Status::Keep,
            (false, false) => Status::Pending,
        }
    }

    /// The names of the folders that lead to a folder.
    pub open spec fn parts(self, n: int) -> Seq<Seq<char>> {
        node_parts(self.nodes@, n)
    }

    /// Whether files and groups refer to each other, no group being empty.
    pub open spec fn groups_wf(self) -> bool {
        &&& forall|f: int| #![trigger self.files@[f]]
            0 <= f < self.files@.len() ==> self.files@[f].group < self.groups@.len()
                && self.groups@[self.files@[f].group as int].files@.contains(f as usize)
        &&& forall|g: int, i: int| #![trigger self.groups@[g].files@[i]]
            0 <= g < self.groups@.len() && 0 <= i < self.groups@[g].files@.len() ==> {
                &&& self.groups@[g].files@[i] < self.files@.len()
                &&& self.files@[self.groups@[g].files@[i] as int].group == g
            }
        &&& forall|g: int, i: int, j: int| #![trigger self.groups@[g].files@[i], self.groups@[g].files@[j]]
            0 <= g < self.groups@.len() && 0 <= i < j < self.groups@[g].files@.len()
                ==> self.groups@[g].files@[i] < self.groups@[g].files@[j]
        &&& forall|g: int| #![trigger self.groups@[g]]
            0 <= g < self.groups@.len() ==> self.groups@[g].files@.len() > 0
    }

    /// Whether files and folders refer to each other, each file standing in the
    /// folder that its path names.
    pub open spec fn nodes_wf(self) -> bool {
        &&& tree_wf(self.nodes@, self.roots)
        &&& forall|f: int| #![trigger self.files@[f]]
            0 <= f < self.files@.len() ==> {
                &&& self.files@[f].node < self.nodes@.len()
                &&& self.nodes@[self.files@[f].node as int].files@.contains(f as usize)
                &&& self.parts(self.files@[f].node as int) == paths::components(
                    self.files@[f].path@,
                ).drop_last()
                &&& paths::components(self.files@[f].path@).len() >= 2
            }
        &&& forall|n: int, i: int| #![trigger self.nodes@[n].files@[i]]
            0 <= n < self.nodes@.len() && 0 <= i < self.nodes@[n].files@.len() ==> {
                &&& self.nodes@[n].files@[i] < self.files@.len()
                &&& self.files@[self.nodes@[n].files@[i] as int].node == n
            }
        &&& forall|n: int, i: int, j: int| #![trigger self.nodes@[n].files@[i], self.nodes@[n].files@[j]]
            0 <= n < self.nodes@.len() && 0 <= i < j < self.nodes@[n].files@.len()
                ==> self.nodes@[n].files@[i] < self.nodes@[n].files@[j]
    }

    /// The group that each key stands for.
    pub open spec fn keys(self) -> Map<u64, GroupId> {
        self.group_by_key@
    }

    /// The file that each path stands for, by the text that its spellings share.
    pub open spec fn path_index(self) -> Map<Seq<char>, FileId> {
        self.file_by_path@
    }

    /// Whether each key stands for one group, and each path for one file.
    pub open spec fn index_wf(self) -> bool {
        &&& forall|k: u64| #[trigger]
            self.keys().contains_key(k) ==> self.keys()[k] < self.groups@.len()
        &&& forall|k: u64, l: u64| #![trigger self.keys()[k], self.keys()[l]]
            self.keys().contains_key(k) && self.keys().contains_key(l) && self.keys()[k]
                == self.keys()[l] ==> k == l
        &&& forall|f: int| #![trigger self.files@[f]]
            0 <= f < self.files@.len() ==> {
                let key = paths::joined(paths::components(self.files@[f].path@));
                self.path_index().contains_key(key) && self.path_index()[key] == f
            }
        &&& forall|key: Seq<char>| #[trigger]
            self.path_index().contains_key(key) ==> {
                let f = self.path_index()[key];
                f < self.files@.len() && key == paths::joined(
                    paths::components(self.files@[f as int].path@),
                )
            }
    }

    /// What every operation keeps.
    pub open spec fn wf(self) -> bool {
        &&& self.groups_wf()
        &&& self.nodes_wf()
        &&& self.index_wf()
    }

    /// Whether nothing but the marks of files and the need for a recount differs.
    pub open spec fn same_but_files(self, other: Model) -> bool {
        &&& self.files@.len() == other.files@.len()
        &&& self.groups == other.groups
        &&& self.nodes == other.nodes
        &&& self.roots == other.roots
        &&& self.totals == other.totals
        &&& self.visible_groups == other.visible_groups
        &&& self.wasted_bytes == other.wasted_bytes
        &&& self.generation == other.generation
        &&& self.keys() == other.keys()
        &&& self.path_index() == other.path_index()
        &&& forall|f: int| #![trigger self.files@[f]]
            0 <= f < self.files@.len() ==> {
                &&& self.files@[f].path == other.files@[f].path
                &&& self.files@[f].group == other.files@[f].group
                &&& self.files@[f].node == other.files@[f].node
            }
    }
}

/// A file with its mark set by hand or by a rule.
pub open spec fn with_mark(file: DupFile, marked: bool) -> DupFile {
    DupFile { marked, rule_pending: false, ..file }
}

impl Model {
    pub proof fn lemma_wf_kept(self, before: Model)
        requires
            before.wf(),
            self.same_but_files(before),
        ensures
            self.wf(),
    {
        assert forall|f: int| #![trigger self.files@[f]] 0 <= f < self.files@.len() implies {
            &&& self.files@[f].path == before.files@[f].path
            &&& self.files@[f].group == before.files@[f].group
            &&& self.files@[f].node == before.files@[f].node
        } by {}
        assert(self.groups_wf()) by {
            assert forall|g: int, i: int| #![trigger self.groups@[g].files@[i]]
                0 <= g < self.groups@.len() && 0 <= i < self.groups@[g].files@.len() implies {
                &&& self.groups@[g].files@[i] < self.files@.len()
                &&& self.files@[self.groups@[g].files@[i] as int].group == g
            } by {
                assert(before.groups@[g].files@[i] < before.files@.len());
            }
        }
    }

    /// The status of a file.
    pub fn status(&self, file: FileId) -> (status: Status)
        requires
            self.wf(),
            file < self.files@.len(),
        ensures
            status == self.status_of(file as int),
    {
        let g = self.files[file].group;
        let mut others: usize = 0;
        let mut others_marked: usize = 0;
        let members = &self.groups[g].files;
        for i in 0..members.len()
            invariant
                self.wf(),
                file < self.files@.len(),
                members == self.groups@[g as int].files,
                g == self.files@[file as int].group,
                g < self.groups@.len(),
                others_marked <= others <= i,
                others > 0 ==> exists|o: int| self.other(file as int, o),
                others == 0 ==> forall|j: int|
                    0 <= j < i ==> !self.other(
                        file as int,
                        #[trigger] self.groups@[g as int].files@[j] as int,
                    ),
                others_marked < others ==> exists|o: int| #[trigger]
                    self.other(file as int, o) && !self.files@[o].marked,
                others_marked == others ==> forall|j: int|
                    0 <= j < i && self.other(
                        file as int,
                        #[trigger] self.groups@[g as int].files@[j] as int,
                    ) ==> self.files@[self.groups@[g as int].files@[j] as int].marked,
        {
            let o = members[i];
            assert(self.groups@[g as int].files@[i as int] == o);
            if o != file && !self.files[o].removed && !self.files[o].excluded {
                assert(self.other(file as int, o as int));
                others = others + 1;
                if self.files[o].marked {
                    others_marked = others_marked + 1;
                }
            }
        }
        proof {
            assert forall|o: int| #[trigger] self.other(file as int, o) implies exists|j: int|
                0 <= j < self.groups@[g as int].files@.len()
                    && #[trigger] self.groups@[g as int].files@[j] == o by {
                assert(self.groups@[self.files@[o].group as int].files@.contains(o as usize));
            }
        }
        let all_others_marked = others > 0 && others == others_marked;
        match (self.files[file].marked, all_others_marked) {
            (true, true) => Status::Conflict,
            (true, false) => Status::Delete,
            (false, true) => Status::Keep,
            (false, false) => Status::Pending,
        }
    }

    /// Whether a file is shown: it is present, and so is another copy.
    pub fn is_visible(&self, file: FileId) -> (visible: bool)
        requires
            self.wf(),
            file < self.files@.len(),
        ensures
            visible == self.visible(file as int),
    {
        if self.files[file].removed || self.files[file].excluded {
            return false;
        }
        let g = self.files[file].group;
        let members = &self.groups[g].files;
        for i in 0..members.len()
            invariant
                self.wf(),
                file < self.files@.len(),
                self.alive(file as int),
                members == self.groups@[g as int].files,
                g == self.files@[file as int].group,
                g < self.groups@.len(),
                forall|j: int|
                    0 <= j < i ==> !self.other(
                        file as int,
                        #[trigger] self.groups@[g as int].files@[j] as int,
                    ),
        {
            let o = members[i];
            assert(self.groups@[g as int].files@[i as int] == o);
            if o != file && !self.files[o].removed && !self.files[o].excluded {
                assert(self.other(file as int, o as int));
                return true;
            }
        }
        proof {
            assert forall|o: int| !self.other(file as int, o) by {
                if self.other(file as int, o) {
                    assert(self.groups@[self.files@[o].group as int].files@.contains(o as usize));
                    let j = choose|j: int|
                        0 <= j < members@.len() && #[trigger] self.groups@[g as int].files@[j] == o;
                    assert(self.groups@[g as int].files@[j] == o);
                }
            }
        }
        false
    }

    /// The files that would really be deleted: marked, with an unmarked copy left
    /// in their group.
    pub fn deletable_files(&self) -> (files: Vec<FileId>)
        requires
            self.wf(),
        ensures
            files@ == Seq::new(self.files@.len(), |i: int| i as usize).filter(
                |f: FileId| self.visible(f as int) && self.status_of(f as int) == Status::Delete,
            ),
    {
        let ghost pred = |f: FileId|
            self.visible(f as int) && self.status_of(f as int) == Status::Delete;
        let ghost all = Seq::new(self.files@.len(), |i: int| i as usize);
        let mut files: Vec<FileId> = Vec::new();
        proof {
            reveal(Seq::filter);
            assert(all.take(0).filter(pred) =~= Seq::<FileId>::empty());
        }
        for f in 0..self.files.len()
            invariant
                self.wf(),
                all == Seq::new(self.files@.len(), |i: int| i as usize),
                pred == (|f: FileId|
                    self.visible(f as int) && self.status_of(f as int) == Status::Delete),
                files@ == all.take(f as int).filter(pred),
        {
            proof {
                reveal(Seq::filter);
                assert(all.take(f as int + 1).drop_last() =~= all.take(f as int));
                assert(all.take(f as int + 1).last() == f);
            }
            if self.is_visible(f) && self.status(f) == Status::Delete {
                files.push(f);
            }
        }
        assert(all.take(all.len() as int) =~= all);
        files
    }

    /// The file that a path names.
    pub fn find(&self, path: &str) -> (file: Option<FileId>)
        requires
            self.wf(),
        ensures
            match file {
                Some(f) => f < self.files@.len() && paths::same_path(
                    self.files@[f as int].path@,
                    path@,
                ),
                None => forall|f: int|
                    0 <= f < self.files@.len() ==> !paths::same_path(
                        (#[trigger] self.files@[f]).path@,
                        path@,
                    ),
            },
    {
        let key = paths::canonical(path);
        proof {
            assert forall|f: int| #![trigger self.files@[f]] 0 <= f < self.files@.len() implies (
            paths::same_path(self.files@[f].path@, path@) <==> paths::joined(
                paths::components(self.files@[f].path@),
            ) == key@) by {
                paths::lemma_canonical(self.files@[f].path@, path@);
            }
        }
        match self.file_by_path.get(key.as_str()) {
            Some(f) => {
                assert(self.path_index().contains_key(key@));
                assert(paths::same_path(self.files@[*f as int].path@, path@));
                Some(*f)
            },
            None => None,
        }
    }

    /// The path of a folder.
    pub fn node_path(&self, node: NodeId) -> (path: String)
        requires
            self.wf(),
            node < self.nodes@.len(),
        ensures
            path@ == paths::joined(self.parts(node as int)),
            paths::components(path@) == self.parts(node as int),
    {
        reveal(tree_wf);
        let mut names: Vec<String> = Vec::new();
        let mut current: Option<NodeId> = Some(node);
        let ghost whole = self.parts(node as int);
        assert(text::texts(names@).reverse() =~= Seq::<Seq<char>>::empty());
        assert(whole =~= self.parts(node as int) + text::texts(names@).reverse());
        while current.is_some()
            invariant
                self.wf(),
                match current {
                    Some(n) => n < self.nodes@.len() && whole == self.parts(n as int)
                        + text::texts(names@).reverse(),
                    None => whole == text::texts(names@).reverse(),
                },
            decreases
                (match current {
                    Some(n) => n + 1,
                    None => 0,
                }),
        {
            reveal(tree_wf);
            let n: NodeId = current.unwrap();
            let ghost before = names@;
            names.push(self.nodes[n].name.clone());
            assert(text::texts(names@) =~= text::texts(before).push(self.nodes@[n as int].name@));
            assert(text::texts(names@).reverse() =~= seq![self.nodes@[n as int].name@]
                + text::texts(before).reverse());
            current = self.nodes[n].parent;
            assert(match current {
                Some(p) => whole =~= self.parts(p as int) + text::texts(names@).reverse(),
                None => whole =~= text::texts(names@).reverse(),
            });
        }
        let mut parts: Vec<String> = Vec::new();
        let mut i: usize = names.len();
        while i > 0
            invariant
                i <= names@.len(),
                text::texts(parts@) == text::texts(names@).skip(i as int).reverse(),
            decreases i,
        {
            let ghost before = parts@;
            i = i - 1;
            parts.push(names[i].clone());
            assert(text::texts(parts@) =~= text::texts(before).push(names@[i as int]@));
            assert(text::texts(names@).skip(i as int).reverse() =~= text::texts(names@).skip(
                i as int + 1,
            ).reverse().push(names@[i as int]@));
        }
        assert(text::texts(names@).skip(0) =~= text::texts(names@));
        proof {
            assert(paths::are_components(node_parts(self.nodes@, node as int)));
            assert(whole.len() > 0);
            paths::lemma_components_joined(whole);
        }
        paths::join_parts(&parts)
    }

    /// The status in which a folder is shown, from what it holds.
    pub open spec fn folder_status(self, n: int) -> Status {
        let c = self.nodes@[n].counts@;
        if c.total == 0 {
            Status::Pending
        } else if c.conflict > 0 {
            Status::Conflict
        } else if c.delete == c.total {
            Status::Delete
        } else if c.keep == c.total {
            Status::Keep
        } else {
            Status::Pending
        }
    }

    /// The status in which a folder is shown.
    pub fn node_status(&self, node: NodeId) -> (status: Status)
        requires
            node < self.nodes@.len(),
        ensures
            status == self.folder_status(node as int),
    {
        let c = self.nodes[node].counts;
        if c.total == 0 {
            Status::Pending
        } else if c.conflict > 0 {
            Status::Conflict
        } else if c.delete == c.total {
            Status::Delete
        } else if c.keep == c.total {
            Status::Keep
        } else {
            Status::Pending
        }
    }
}

} // verus!
