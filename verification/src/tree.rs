//! Adding files to the results, with their groups and folders.
use std::collections::HashMap;

use vstd::hash_map::StringHashMap;
use vstd::prelude::*;

use crate::model::{self, Counts, DupFile, FileId, Group, GroupId, Model, Node, NodeId, Tally};
use crate::names::NameMap;
use crate::paths;
use crate::text;

verus! {

broadcast use vstd::std_specs::hash::group_hash_axioms;

/// Whether the names that lead to a folder are the first of a list of names.
pub open spec fn leads_to(nodes: Seq<Node>, n: int, parts: Seq<Seq<char>>) -> bool {
    let own = model::node_parts(nodes, n);
    own.len() <= parts.len() && own == parts.take(own.len() as int)
}

/// Whether folders were added only where a list of names leads, all others being
/// as before but for the sub-folders that they hold.
pub open spec fn grown(before: Seq<Node>, after: Seq<Node>, parts: Seq<Seq<char>>) -> bool {
    &&& before.len() <= after.len()
    &&& forall|n: int| #![trigger after[n]] #![trigger before[n]]
        0 <= n < before.len() ==> {
            &&& after[n].name == before[n].name
            &&& after[n].parent == before[n].parent
            &&& after[n].files == before[n].files
            &&& after[n].counts == before[n].counts
        }
    &&& forall|n: int| #![trigger after[n]]
        before.len() <= n < after.len() ==> {
            &&& leads_to(after, n, parts)
            &&& after[n].files@ == Seq::<FileId>::empty()
            &&& after[n].counts@ == Tally::zero()
        }
}

/// The names that lead to a folder rest on the folders up to it alone.
pub proof fn lemma_parts_kept(before: Seq<Node>, after: Seq<Node>, n: int)
    requires
        0 <= n < before.len() <= after.len(),
        forall|m: int| #![trigger after[m]]
            0 <= m <= n ==> after[m].name@ == before[m].name@ && after[m].parent == before[m].parent,
    ensures
        model::node_parts(after, n) == model::node_parts(before, n),
    decreases n,
{
    assert(after[n].name@ == before[n].name@);
    match before[n].parent {
        None => {},
        Some(p) => {
            if 0 <= p < n {
                lemma_parts_kept(before, after, p as int);
            }
        },
    }
}

/// What lies below a folder rests on which folder holds which alone.
pub proof fn lemma_under_kept(before: Seq<Node>, after: Seq<Node>, n: int, top: int)
    requires
        0 <= n < before.len() <= after.len(),
        forall|m: int| #![trigger after[m]] 0 <= m <= n ==> after[m].parent == before[m].parent,
    ensures
        model::under(after, n, top) == model::under(before, n, top),
    decreases n,
{
    assert(after[n].parent == before[n].parent);
    match before[n].parent {
        None => {},
        Some(p) => {
            if 0 <= p < n {
                lemma_under_kept(before, after, p as int, top);
            }
        },
    }
}

/// The folder that `holder` stands for, or the place of the roots.
spec fn holder_parts(nodes: Seq<Node>, holder: Option<NodeId>) -> Seq<Seq<char>> {
    match holder {
        None => Seq::empty(),
        Some(p) => model::node_parts(nodes, p as int),
    }
}

/// A new folder, entered in the one that holds it, leaves the tree in order.
proof fn lemma_new_folder(
    before: Seq<Node>,
    roots: NameMap,
    after: Seq<Node>,
    new_roots: NameMap,
    holder: Option<NodeId>,
)
    requires
        model::tree_wf(before, roots),
        before.len() + 1 == after.len() <= usize::MAX,
        holder matches Some(p) ==> p < before.len(),
        after.last().parent == holder,
        after.last().children@.len() == 0,
        paths::are_components(holder_parts(before, holder).push(after.last().name@)),
        forall|m: int| #![trigger after[m]]
            0 <= m < before.len() ==> after[m].name == before[m].name && after[m].parent
                == before[m].parent && (holder != Some(m as usize) ==> after[m].children
                == before[m].children),
        match holder {
            None => new_roots.wf() && forall|e: (Seq<char>, usize)| #[trigger]
                new_roots@.contains(e) <==> roots@.contains(e) || e == (
                    after.last().name@,
                    before.len() as usize,
                ),
            Some(p) => new_roots == roots && after[p as int].children.wf() && forall|
                e: (Seq<char>, usize),
            | #[trigger]
                after[p as int].children@.contains(e) <==> before[p as int].children@.contains(e)
                    || e == (after.last().name@, before.len() as usize),
        },
    ensures
        model::tree_wf(after, new_roots),
        forall|m: int|
            0 <= m < before.len() ==> #[trigger] model::node_parts(after, m) == model::node_parts(
                before,
                m,
            ),
        model::node_parts(after, before.len() as int) == holder_parts(before, holder).push(
            after.last().name@,
        ),
{
    reveal(model::tree_wf);
    let id = before.len() as int;
    assert(after[id] == after.last());
    assert forall|m: int| 0 <= m < before.len() implies #[trigger] model::node_parts(after, m)
        == model::node_parts(before, m) by {
        lemma_parts_kept(before, after, m);
    }
    match holder {
        None => {
            assert(model::node_parts(after, id) =~= holder_parts(before, holder).push(
                after[id].name@,
            ));
        },
        Some(p) => {
            assert(model::node_parts(after, p as int) == model::node_parts(before, p as int));
        },
    }
    assert forall|n: int| #![trigger after[n]] 0 <= n < after.len() implies {
        &&& after[n].children.wf()
        &&& paths::are_components(model::node_parts(after, n))
        &&& match after[n].parent {
            None => new_roots@.contains((after[n].name@, n as usize)),
            Some(p) => p < n && after[p as int].children@.contains((after[n].name@, n as usize)),
        }
    } by {
        if n < id {
            assert(before[n].children.wf());
            assert(model::node_parts(after, n) == model::node_parts(before, n));
            match after[n].parent {
                None => {
                    assert(roots@.contains((before[n].name@, n as usize)));
                },
                Some(p) => {
                    assert(before[p as int].children@.contains((before[n].name@, n as usize)));
                    assert(after[p as int].name == before[p as int].name);
                },
            }
        }
    }
    assert forall|e: (Seq<char>, usize)| #[trigger] new_roots@.contains(e) implies e.1
        < after.len() && after[e.1 as int].parent is None && after[e.1 as int].name@ == e.0 by {
        if roots@.contains(e) {
            assert(before[e.1 as int].parent is None);
        }
    }
    assert forall|n: int, e: (Seq<char>, usize)|
        0 <= n < after.len() && #[trigger] after[n].children@.contains(e) implies e.1 < after.len()
        && after[e.1 as int].parent == Some(n as usize) && after[e.1 as int].name@ == e.0 by {
        if n < id {
            assert(after[n].name == before[n].name);
            if before[n].children@.contains(e) {
                assert(before[e.1 as int].parent == Some(n as usize));
                assert(after[e.1 as int].name == before[e.1 as int].name);
            }
        }
    }
}

/// Whether there is a folder to which some names lead.
pub open spec fn has_folder(nodes: Seq<Node>, parts: Seq<Seq<char>>) -> bool {
    exists|n: int| 0 <= n < nodes.len() && #[trigger] model::node_parts(nodes, n) == parts
}

/// On how many of the first steps of a way there is no folder yet.
pub open spec fn missing(nodes: Seq<Node>, parts: Seq<Seq<char>>, count: nat) -> nat
    decreases count,
{
    if count == 0 {
        0
    } else {
        missing(nodes, parts, (count - 1) as nat) + if has_folder(nodes, parts.take(count as int)) {
            0nat
        } else {
            1nat
        }
    }
}

/// Names lead to one folder at most.
pub proof fn lemma_one_folder(nodes: Seq<Node>, roots: NameMap, n: int, m: int)
    requires
        model::tree_wf(nodes, roots),
        0 <= n < nodes.len() <= usize::MAX,
        0 <= m < nodes.len(),
        model::node_parts(nodes, n) == model::node_parts(nodes, m),
    ensures
        n == m,
    decreases n,
{
    reveal(model::tree_wf);
    let a = model::node_parts(nodes, n);
    let b = model::node_parts(nodes, m);
    assert(nodes[n].children.wf() && nodes[m].children.wf());
    assert(a.last() == nodes[n].name@);
    assert(b.last() == nodes[m].name@);
    match (nodes[n].parent, nodes[m].parent) {
        (None, None) => {
            lemma_one_entry(roots, nodes[n].name@, n as usize, m as usize);
        },
        (Some(p), Some(q)) => {
            assert(a.drop_last() =~= model::node_parts(nodes, p as int));
            assert(b.drop_last() =~= model::node_parts(nodes, q as int));
            lemma_one_folder(nodes, roots, p as int, q as int);
            assert(nodes[p as int].children.wf());
            lemma_one_entry(nodes[p as int].children, nodes[n].name@, n as usize, m as usize);
        },
        (None, Some(q)) => {
            lemma_parts_some(nodes, roots, q as int);
        },
        (Some(p), None) => {
            lemma_parts_some(nodes, roots, p as int);
        },
    }
}

proof fn lemma_parts_some(nodes: Seq<Node>, roots: NameMap, n: int)
    requires
        model::tree_wf(nodes, roots),
        0 <= n < nodes.len(),
    ensures
        model::node_parts(nodes, n).len() > 0,
{
    reveal(model::tree_wf);
    assert(nodes[n].children.wf());
}

proof fn lemma_one_entry(map: NameMap, name: Seq<char>, a: usize, b: usize)
    requires
        map.wf(),
        map@.contains((name, a)),
        map@.contains((name, b)),
    ensures
        a == b,
{
    let i = map@.index_of((name, a));
    let j = map@.index_of((name, b));
    text::lemma_text_less_irreflexive(name);
    if i < j {
        assert(text::text_less(map@[i].0, map@[j].0));
    } else if j < i {
        assert(text::text_less(map@[j].0, map@[i].0));
    }
}

/// Where there is a folder, there are those that hold it.
proof fn lemma_way_there(nodes: Seq<Node>, roots: NameMap, n: int, count: nat)
    requires
        model::tree_wf(nodes, roots),
        0 <= n < nodes.len(),
        count <= model::node_parts(nodes, n).len(),
    ensures
        missing(nodes, model::node_parts(nodes, n), count) == 0,
    decreases count,
{
    if count > 0 {
        lemma_way_there(nodes, roots, n, (count - 1) as nat);
        lemma_ancestor(nodes, roots, n, count as int);
    }
}

proof fn lemma_ancestor(nodes: Seq<Node>, roots: NameMap, n: int, count: int)
    requires
        model::tree_wf(nodes, roots),
        0 <= n < nodes.len(),
        0 < count <= model::node_parts(nodes, n).len(),
    ensures
        has_folder(nodes, model::node_parts(nodes, n).take(count)),
    decreases n,
{
    reveal(model::tree_wf);
    let parts = model::node_parts(nodes, n);
    assert(nodes[n].children.wf());
    if count == parts.len() {
        assert(parts.take(count) =~= parts);
    } else {
        let p = nodes[n].parent->0 as int;
        assert(parts.drop_last() =~= model::node_parts(nodes, p));
        lemma_ancestor(nodes, roots, p, count);
        assert(parts.take(count) =~= model::node_parts(nodes, p).take(count));
    }
}

impl Model {
    /// Whether files, groups and counts are as before.
    pub open spec fn same_but_tree(self, before: Model) -> bool {
        &&& self.files == before.files
        &&& self.groups == before.groups
        &&& self.group_by_key == before.group_by_key
        &&& self.file_by_path == before.file_by_path
        &&& self.dirty == before.dirty
        &&& self.totals == before.totals
        &&& self.visible_groups == before.visible_groups
        &&& self.wasted_bytes == before.wasted_bytes
        &&& self.generation == before.generation
    }

    /// A folder is listed where it is held.
    proof fn lemma_folder_listed(self, holder: Option<NodeId>, name: Seq<char>)
        requires
            model::tree_wf(self.nodes@, self.roots),
            holder matches Some(p) ==> p < self.nodes@.len(),
            has_folder(self.nodes@, holder_parts(self.nodes@, holder).push(name)),
        ensures
            match holder {
                None => self.roots.has(name),
                Some(p) => self.nodes@[p as int].children.has(name),
            },
    {
        reveal(model::tree_wf);
        let nodes = self.nodes@;
        let parts = holder_parts(nodes, holder).push(name);
        assert(nodes.len() == self.nodes.len());
        let m = choose|m: int| 0 <= m < nodes.len() && #[trigger] model::node_parts(nodes, m) == parts;
        assert(nodes[m].children.wf());
        assert(parts.last() == name);
        assert(parts.drop_last() =~= holder_parts(nodes, holder));
        let entry = (name, m as usize);
        match nodes[m].parent {
            None => {
                if let Some(p) = holder {
                    lemma_parts_some(nodes, self.roots, p as int);
                }
                let i = self.roots@.index_of(entry);
                assert(self.roots@[i].0 == name);
            },
            Some(q) => {
                assert(parts.drop_last() =~= model::node_parts(nodes, q as int));
                lemma_parts_some(nodes, self.roots, q as int);
                let p = holder->0;
                lemma_one_folder(nodes, self.roots, p as int, q as int);
                let i = nodes[q as int].children@.index_of(entry);
                assert(nodes[q as int].children@[i].0 == name);
            },
        }
    }

    /// The sub-folder of that name, where there is one.
    fn find_folder(&self, holder: Option<NodeId>, name: &str) -> (node: Option<NodeId>)
        requires
            model::tree_wf(self.nodes@, self.roots),
            holder matches Some(p) ==> p < self.nodes@.len(),
        ensures
            match node {
                Some(id) => id < self.nodes@.len() && model::node_parts(self.nodes@, id as int)
                    == holder_parts(self.nodes@, holder).push(name@),
                None => {
                    &&& match holder {
                        None => !self.roots.has(name@),
                        Some(p) => !self.nodes@[p as int].children.has(name@),
                    }
                    &&& !has_folder(
                        self.nodes@,
                        holder_parts(self.nodes@, holder).push(name@),
                    )
                },
            },
    {
        reveal(model::tree_wf);
        proof {
            assert(self.nodes@.len() == self.nodes.len());
            if has_folder(self.nodes@, holder_parts(self.nodes@, holder).push(name@)) {
                self.lemma_folder_listed(holder, name@);
            }
        }
        match holder {
            None => {
                let node = self.roots.get(name);
                proof {
                    if let Some(id) = node {
                        assert(self.roots@.contains((name@, id)));
                        assert(model::node_parts(self.nodes@, id as int) =~= holder_parts(
                            self.nodes@,
                            holder,
                        ).push(name@));
                    }
                }
                node
            },
            Some(p) => {
                let node = self.nodes[p].children.get(name);
                proof {
                    if let Some(id) = node {
                        assert(self.nodes@[p as int].children@.contains((name@, id)));
                        assert(self.nodes@[id as int].parent == Some(p));
                        assert(p < id);
                    }
                }
                node
            },
        }
    }

    /// Adds a folder to the one that is to hold it.
    fn add_folder(&mut self, holder: Option<NodeId>, name: String) -> (node: NodeId)
        requires
            model::tree_wf(old(self).nodes@, old(self).roots),
            holder matches Some(p) ==> p < old(self).nodes@.len(),
            match holder {
                None => !old(self).roots.has(name@),
                Some(p) => !old(self).nodes@[p as int].children.has(name@),
            },
            paths::are_components(holder_parts(old(self).nodes@, holder).push(name@)),
        ensures
            model::tree_wf(final(self).nodes@, final(self).roots),
            final(self).same_but_tree(*old(self)),
            node == old(self).nodes@.len(),
            final(self).nodes@.len() == old(self).nodes@.len() + 1,
            model::node_parts(final(self).nodes@, node as int) == holder_parts(
                old(self).nodes@,
                holder,
            ).push(name@),
            final(self).nodes@[node as int].files@ == Seq::<FileId>::empty(),
            final(self).nodes@[node as int].counts@ == Tally::zero(),
            forall|m: int| #![trigger final(self).nodes@[m]] #![trigger old(self).nodes@[m]]
                0 <= m < old(self).nodes@.len() ==> {
                    &&& final(self).nodes@[m].name == old(self).nodes@[m].name
                    &&& final(self).nodes@[m].parent == old(self).nodes@[m].parent
                    &&& final(self).nodes@[m].files == old(self).nodes@[m].files
                    &&& final(self).nodes@[m].counts == old(self).nodes@[m].counts
                    &&& model::node_parts(final(self).nodes@, m) == model::node_parts(
                        old(self).nodes@,
                        m,
                    )
                },
    {
        reveal(model::tree_wf);
        let ghost before = *self;
        let ghost name_text = name@;
        let id: NodeId = self.nodes.len();
        let node = Node {
            name: name.clone(),
            parent: holder,
            children: NameMap::new(),
            files: Vec::new(),
            counts: Counts::default(),
        };
        self.nodes.push(node);
        match holder {
            None => {
                self.roots.insert(name, id);
            },
            Some(p) => {
                self.nodes[p].children.insert(name, id);
            },
        }
        proof {
            assert(self.nodes@.len() == self.nodes.len());
            assert(self.nodes@.last().name@ == name_text);
            lemma_new_folder(before.nodes@, before.roots, self.nodes@, self.roots, holder);
        }
        id
    }

    /// Whether this is a model in which a folder, to which some names lead, is sure
    /// to be: the other one, with a folder for each step of the way on which there
    /// was none.
    pub open spec fn with_folder(self, before: Model, parts: Seq<Seq<char>>, node: NodeId) -> bool {
        &&& model::tree_wf(self.nodes@, self.roots)
        &&& self.same_but_tree(before)
        &&& node < self.nodes@.len()
        &&& self.parts(node as int) == parts
        &&& grown(before.nodes@, self.nodes@, parts)
        &&& self.nodes@.len() == before.nodes@.len() + missing(before.nodes@, parts, parts.len())
        &&& has_folder(before.nodes@, parts) ==> self == before
    }

    /// The folder to which some names lead, added where it is not there yet.
    fn ensure_folder(&mut self, parts: &Vec<String>, count: usize) -> (node: NodeId)
        requires
            model::tree_wf(old(self).nodes@, old(self).roots),
            0 < count <= parts@.len(),
            paths::are_components(text::texts(parts@).take(count as int)),
        ensures
            final(self).with_folder(*old(self), text::texts(parts@).take(count as int), node),
    {
        let ghost before = *self;
        let ghost wanted = text::texts(parts@).take(count as int);
        let mut current: Option<NodeId> = None;
        for i in 0..count
            invariant
                0 < count <= parts@.len(),
                wanted == text::texts(parts@).take(count as int),
                paths::are_components(wanted),
                model::tree_wf(before.nodes@, before.roots),
                model::tree_wf(self.nodes@, self.roots),
                self.same_but_tree(before),
                grown(before.nodes@, self.nodes@, wanted),
                current matches Some(p) ==> p < self.nodes@.len(),
                holder_parts(self.nodes@, current) == wanted.take(i as int),
                i > 0 ==> current is Some,
                self.nodes@.len() == before.nodes@.len() + missing(
                    before.nodes@,
                    text::texts(parts@),
                    i as nat,
                ),
                self.nodes@.len() == before.nodes@.len() ==> *self == before,
                forall|n: int| #![trigger self.nodes@[n]]
                    before.nodes@.len() <= n < self.nodes@.len() ==> model::node_parts(
                        self.nodes@,
                        n,
                    ).len() <= i,
        {
            let ghost now = *self;
            let ghost next = text::texts(parts@).take(i + 1);
            let name = parts[i].clone();
            proof {
                assert(wanted[i as int] == name@);
                assert(wanted.take(i as int + 1) =~= wanted.take(i as int).push(name@));
                assert(next =~= wanted.take(i as int + 1));
                assert forall|n: int| 0 <= n < before.nodes@.len() implies #[trigger] model::node_parts(
                    before.nodes@,
                    n,
                ) == model::node_parts(now.nodes@, n) by {
                    assert forall|m: int| #![trigger now.nodes@[m]] 0 <= m <= n implies now.nodes@[m].name@
                        == before.nodes@[m].name@ && now.nodes@[m].parent
                        == before.nodes@[m].parent by {
                        assert(before.nodes@[m].name == now.nodes@[m].name);
                    }
                    lemma_parts_kept(before.nodes@, now.nodes@, n);
                }
                lemma_first_components(wanted, i as int + 1);
            }
            match self.find_folder(current, name.as_str()) {
                Some(id) => {
                    proof {
                        assert(now.nodes@[id as int].name == now.nodes@[id as int].name);
                        assert(model::node_parts(now.nodes@, id as int).len() == i + 1);
                        assert(model::node_parts(before.nodes@, id as int) == next);
                        assert(has_folder(before.nodes@, next));
                    }
                    current = Some(id);
                },
                None => {
                    let id = self.add_folder(current, name);
                    proof {
                        if has_folder(before.nodes@, next) {
                            let n = choose|n: int|
                                0 <= n < before.nodes@.len() && #[trigger] model::node_parts(
                                    before.nodes@,
                                    n,
                                ) == next;
                            assert(model::node_parts(now.nodes@, n) == next);
                        }
                        assert forall|n: int| #![trigger self.nodes@[n]]
                            before.nodes@.len() <= n < self.nodes@.len() implies model::node_parts(
                            self.nodes@,
                            n,
                        ).len() <= i + 1 by {
                            if n < now.nodes@.len() {
                                assert(now.nodes@[n].name == self.nodes@[n].name);
                            }
                        }
                        lemma_grown_step(before.nodes@, now.nodes@, self.nodes@, wanted);
                    }
                    current = Some(id);
                },
            }
        }
        assert(wanted.take(count as int) =~= wanted);
        proof {
            lemma_missing_same(before.nodes@, wanted, text::texts(parts@), count as nat);
            if has_folder(before.nodes@, wanted) {
                let n = choose|n: int|
                    0 <= n < before.nodes@.len() && #[trigger] model::node_parts(before.nodes@, n)
                        == wanted;
                lemma_way_there(before.nodes@, before.roots, n, count as nat);
            }
        }
        current.unwrap()
    }
}

proof fn lemma_missing_same(nodes: Seq<Node>, a: Seq<Seq<char>>, b: Seq<Seq<char>>, count: nat)
    requires
        count <= a.len(),
        count <= b.len(),
        a.take(count as int) == b.take(count as int),
    ensures
        missing(nodes, a, count) == missing(nodes, b, count),
    decreases count,
{
    if count > 0 {
        let k = (count - 1) as int;
        assert(a.take(k) =~= a.take(count as int).take(k));
        assert(b.take(k) =~= b.take(count as int).take(k));
        lemma_missing_same(nodes, a, b, k as nat);
    }
}

proof fn lemma_first_components(parts: Seq<Seq<char>>, count: int)
    requires
        paths::are_components(parts),
        0 <= count <= parts.len(),
    ensures
        paths::are_components(parts.take(count)),
{
    let first = parts.take(count);
    assert forall|k: int| #![trigger first[k]] 0 <= k < first.len() implies paths::is_name(first[k])
        || (k == 0 && (first[k] == paths::root_part() || first[k] == paths::here_part())) by {
        assert(first[k] == parts[k]);
    }
}

proof fn lemma_grown_step(
    before: Seq<Node>,
    middle: Seq<Node>,
    after: Seq<Node>,
    parts: Seq<Seq<char>>,
)
    requires
        grown(before, middle, parts),
        after.len() == middle.len() + 1,
        leads_to(after, middle.len() as int, parts),
        after.last().files@ == Seq::<FileId>::empty(),
        after.last().counts@ == Tally::zero(),
        forall|m: int| #![trigger after[m]] #![trigger middle[m]]
            0 <= m < middle.len() ==> {
                &&& after[m].name == middle[m].name
                &&& after[m].parent == middle[m].parent
                &&& after[m].files == middle[m].files
                &&& after[m].counts == middle[m].counts
                &&& model::node_parts(after, m) == model::node_parts(middle, m)
            },
    ensures
        grown(before, after, parts),
{
    assert forall|n: int| #![trigger after[n]] before.len() <= n < after.len() implies {
        &&& leads_to(after, n, parts)
        &&& after[n].files@ == Seq::<FileId>::empty()
        &&& after[n].counts@ == Tally::zero()
    } by {
        if n < middle.len() {
            assert(leads_to(middle, n, parts));
        }
    }
    assert forall|n: int| #![trigger after[n]] #![trigger before[n]]
        0 <= n < before.len() implies {
        &&& after[n].name == before[n].name
        &&& after[n].parent == before[n].parent
        &&& after[n].files == before[n].files
        &&& after[n].counts == before[n].counts
    } by {
        assert(middle[n].name == before[n].name);
    }
}

impl Model {
    /// The size and the files of each group.
    pub open spec fn group_lists(self) -> Seq<(u64, Seq<FileId>)> {
        self.groups@.map_values(|g: Group| (g.size, g.files@))
    }

    /// Whether there is nothing in the results.
    pub open spec fn is_new(self) -> bool {
        &&& self.files@.len() == 0
        &&& self.groups@.len() == 0
        &&& self.nodes@.len() == 0
        &&& self.roots@.len() == 0
        &&& self.keys() == Map::<u64, GroupId>::empty()
        &&& self.path_index() == Map::<Seq<char>, FileId>::empty()
        &&& !self.dirty
        &&& self.totals@ == Tally::zero()
        &&& self.visible_groups == 0
        &&& self.wasted_bytes == 0
    }

    /// Forgets all results.
    pub fn clear(&mut self)
        requires
            old(self).generation < u64::MAX,
        ensures
            final(self).wf(),
            final(self).is_new(),
            final(self).generation == old(self).generation + 1,
    {
        let generation = self.generation + 1;
        *self = Model::default();
        self.generation = generation;
    }

    /// Whether a path is known.
    pub open spec fn knows(self, path: Seq<char>) -> bool {
        exists|f: int|
            0 <= f < self.files@.len() && paths::same_path((#[trigger] self.files@[f]).path@, path)
    }

    /// The group that a key stands for, or the one that it will stand for.
    pub open spec fn group_for(self, key: u64) -> GroupId {
        if self.keys().contains_key(key) {
            self.keys()[key]
        } else {
            self.groups@.len() as usize
        }
    }

    /// The sizes and files of the groups once a file has joined that of a key.
    pub open spec fn lists_with(self, key: u64, size: u64, id: FileId) -> Seq<
        (u64, Seq<FileId>),
    > {
        let lists = self.group_lists();
        if self.keys().contains_key(key) {
            let g = self.keys()[key] as int;
            lists.update(g, (lists[g].0, lists[g].1.push(id)))
        } else {
            lists.push((size, seq![id]))
        }
    }

    /// What adding a file at a path leaves: the file at the end of the list, in
    /// the group of its key and in the folder that its path names.
    pub open spec fn with_file(self, before: Model, key: u64, size: u64, path: Seq<char>) -> bool {
        let id = before.files@.len();
        let folder = paths::components(path).drop_last();
        &&& self.files@.len() == id + 1
        &&& self.files@.drop_last() == before.files@
        &&& {
            let file = self.files@.last();
            &&& file.path@ == path
            &&& file.group == before.group_for(key)
            &&& self.parts(file.node as int) == folder
            &&& !file.marked && !file.removed && !file.excluded && !file.rule_pending
            &&& file.node < self.nodes@.len()
            &&& self.nodes@.len() == before.nodes@.len() + missing(
                before.nodes@,
                folder,
                folder.len(),
            )
            &&& forall|n: int| #![trigger self.nodes@[n]]
                0 <= n < self.nodes@.len() ==> {
                    &&& n < before.nodes@.len() ==> self.nodes@[n].name == before.nodes@[n].name
                        && self.nodes@[n].parent == before.nodes@[n].parent
                        && self.nodes@[n].counts == before.nodes@[n].counts
                        && self.parts(n) == before.parts(n)
                    &&& n >= before.nodes@.len() ==> leads_to(self.nodes@, n, folder)
                        && self.nodes@[n].counts@ == Tally::zero()
                    &&& self.nodes@[n].files@ == {
                        let earlier = if n < before.nodes@.len() {
                            before.nodes@[n].files@
                        } else {
                            Seq::<FileId>::empty()
                        };
                        if n == file.node {
                            earlier.push(id as usize)
                        } else {
                            earlier
                        }
                    }
                }
        }
        &&& self.group_lists() == before.lists_with(key, size, id as usize)
        &&& self.keys() == before.keys().insert(key, before.group_for(key))
        &&& self.dirty
        &&& self.totals == before.totals
        &&& self.visible_groups == before.visible_groups
        &&& self.wasted_bytes == before.wasted_bytes
        &&& self.generation == before.generation
    }

    /// Adds a file to the group of a key, which is made where there is none yet.
    /// Gives the number of the file, or `None` where its path is known already.
    pub fn add_file(&mut self, key: u64, size: u64, path: String) -> (file: Option<FileId>)
        requires
            old(self).wf(),
            paths::components(path@).len() >= 2,
        ensures
            final(self).wf(),
            match file {
                None => old(self).knows(path@) && *final(self) == *old(self),
                Some(id) => !old(self).knows(path@) && id == old(self).files@.len() && final(self).with_file(*old(self), key, size, path@),
            },
    {
        let ghost before = *self;
        let ghost path_text = path@;
        if self.find(path.as_str()).is_some() {
            return None;
        }
        let known = match self.group_by_key.get(&key) {
            Some(g) => Some(*g),
            None => None,
        };
        let group: GroupId = match known {
            Some(g) => g,
            None => {
                self.groups.push(Group { size, files: Vec::new() });
                let g: GroupId = self.groups.len() - 1;
                self.group_by_key.insert(key, g);
                g
            },
        };
        assert(before.groups@.len() == before.groups.len());
        assert(group == before.group_for(key));
        let parts = paths::path_parts(path.as_str());
        let count: usize = parts.len() - 1;
        let ghost folder = paths::components(path@).drop_last();
        proof {
            assert(text::texts(parts@).take(count as int) =~= folder);
            paths::lemma_components_valid(path@);
            lemma_first_components(paths::components(path@), count as int);
        }
        let ghost middle = *self;
        let node = self.ensure_folder(&parts, count);
        let ghost shaped = *self;
        let id: FileId = self.files.len();
        let index = paths::canonical(path.as_str());
        self.files.push(
            DupFile {
                path: path,
                group,
                node,
                marked: false,
                removed: false,
                excluded: false,
                rule_pending: false,
            },
        );
        self.groups[group].files.push(id);
        self.nodes[node].files.push(id);
        self.file_by_path.insert(index, id);
        self.dirty = true;
        proof {
            assert(self.files@.len() == self.files.len());
            assert(self.groups@.len() == self.groups.len());
            assert(self.files@.drop_last() =~= before.files@);
            let g = group as int;
            if !before.keys().contains_key(key) {
                assert(self.groups@[g].files@ =~= seq![id]);
            }
            lemma_file_groups(before, *self, key, size);
            lemma_file_nodes(before, shaped.nodes@, *self, folder);
            assert(self.keys() =~= before.keys().insert(key, before.group_for(key)));
            lemma_file_index(before, *self, key);
            assert forall|n: int| #![trigger self.nodes@[n]] 0 <= n < self.nodes@.len() implies {
                &&& n < before.nodes@.len() ==> self.nodes@[n].name == before.nodes@[n].name
                    && self.nodes@[n].parent == before.nodes@[n].parent && self.nodes@[n].counts
                    == before.nodes@[n].counts && self.parts(n) == before.parts(n)
                &&& n >= before.nodes@.len() ==> leads_to(self.nodes@, n, folder)
                    && self.nodes@[n].counts@ == Tally::zero()
                &&& self.nodes@[n].files@ == {
                    let earlier = if n < before.nodes@.len() {
                        before.nodes@[n].files@
                    } else {
                        Seq::<FileId>::empty()
                    };
                    if n == node {
                        earlier.push(id)
                    } else {
                        earlier
                    }
                }
            } by {
                assert(self.nodes@[n].name == shaped.nodes@[n].name);
                assert(self.parts(n) == model::node_parts(shaped.nodes@, n));
                if n >= before.nodes@.len() {
                    assert(leads_to(shaped.nodes@, n, folder));
                }
            }
            assert(self.with_file(before, key, size, path_text));
        }
        Some(id)
    }
}

/// Making sure of a folder twice gives the same folder and changes nothing the
/// second time; making sure of two folders gives two.
pub proof fn lemma_folders_apart(
    start: Model,
    first: Model,
    second: Model,
    one: Seq<Seq<char>>,
    other: Seq<Seq<char>>,
    a: NodeId,
    b: NodeId,
)
    requires
        first.with_folder(start, one, a),
        second.with_folder(first, other, b),
    ensures
        a == b <==> one == other,
        one == other ==> second == first,
        second.parts(a as int) == one,
{
    assert(second.nodes@.len() == second.nodes.len());
    assert forall|m: int| #![trigger second.nodes@[m]] 0 <= m <= a implies second.nodes@[m].name@
        == first.nodes@[m].name@ && second.nodes@[m].parent == first.nodes@[m].parent by {
        assert(first.nodes@[m].name == second.nodes@[m].name);
    }
    lemma_parts_kept(first.nodes@, second.nodes@, a as int);
    if one == other {
        assert(model::node_parts(first.nodes@, a as int) == one);
        lemma_one_folder(second.nodes@, second.roots, a as int, b as int);
    }
}

/// Two files lie in the same folder exactly where their paths name the same one.
pub proof fn lemma_same_folder(model: Model, f: int, g: int)
    requires
        model.wf(),
        0 <= f < model.files@.len(),
        0 <= g < model.files@.len(),
    ensures
        model.files@[f].node == model.files@[g].node <==> paths::components(
            model.files@[f].path@,
        ).drop_last() == paths::components(model.files@[g].path@).drop_last(),
{
    let n = model.files@[f].node as int;
    let m = model.files@[g].node as int;
    assert(model.nodes@.len() == model.nodes.len());
    if model.parts(n) == model.parts(m) {
        lemma_one_folder(model.nodes@, model.roots, n, m);
    }
}

/// A file is added to the folder that its path names where there is one, and no
/// folder is made then.
pub proof fn lemma_folder_reused(
    before: Model,
    after: Model,
    key: u64,
    size: u64,
    path: Seq<char>,
    n: int,
)
    requires
        before.wf(),
        after.wf(),
        after.with_file(before, key, size, path),
        0 <= n < before.nodes@.len(),
        before.parts(n) == paths::components(path).drop_last(),
    ensures
        after.nodes@.len() == before.nodes@.len(),
        after.files@.last().node == n,
{
    let folder = before.parts(n);
    lemma_way_there(before.nodes@, before.roots, n, folder.len());
    assert(after.nodes@[n].name == before.nodes@[n].name);
    assert(after.parts(n) == folder);
    assert(after.nodes@.len() == after.nodes.len());
    lemma_one_folder(after.nodes@, after.roots, n, after.files@.last().node as int);
}

proof fn lemma_file_groups(before: Model, after: Model, key: u64, size: u64)
    requires
        before.wf(),
        before.files@.len() + 1 == after.files@.len() <= usize::MAX,
        after.files@.drop_last() == before.files@,
        after.files@.last().group == before.group_for(key),
        ({
            let g = before.group_for(key) as int;
            let id = before.files@.len() as usize;
            if before.keys().contains_key(key) {
                &&& after.groups@.len() == before.groups@.len()
                &&& after.groups@[g].size == before.groups@[g].size
                &&& after.groups@[g].files@ == before.groups@[g].files@.push(id)
            } else {
                &&& after.groups@.len() == before.groups@.len() + 1 <= usize::MAX
                &&& after.groups@[g].size == size
                &&& after.groups@[g].files@ == seq![id]
            }
        }),
        forall|h: int| #![trigger after.groups@[h]]
            0 <= h < before.groups@.len() && h != before.group_for(key) ==> after.groups@[h]
                == before.groups@[h],
    ensures
        after.groups_wf(),
        after.group_lists() == before.lists_with(key, size, before.files@.len() as usize),
{
    let g = before.group_for(key) as int;
    let id = before.files@.len() as usize;
    if before.keys().contains_key(key) {
        assert(g < before.groups@.len());
    }
    assert forall|f: int| 0 <= f < before.files@.len() implies #[trigger] after.files@[f]
        == before.files@[f] by {
        assert(after.files@[f] == after.files@.drop_last()[f]);
    }
    assert(after.group_lists() =~= before.lists_with(key, size, id));
    assert forall|f: int| #![trigger after.files@[f]] 0 <= f < after.files@.len() implies after.files@[f].group
        < after.groups@.len() && after.groups@[after.files@[f].group as int].files@.contains(
        f as usize,
    ) by {
        let list = after.groups@[after.files@[f].group as int].files@;
        if f == id {
            assert(list.last() == id);
            assert(list[list.len() - 1] == id);
        } else {
            let own = before.groups@[before.files@[f].group as int].files@;
            assert(own.contains(f as usize));
            let k = choose|k: int| 0 <= k < own.len() && own[k] == f as usize;
            assert(list[k] == f as usize);
        }
    }
    assert forall|h: int, i: int| #![trigger after.groups@[h].files@[i]]
        0 <= h < after.groups@.len() && 0 <= i < after.groups@[h].files@.len() implies {
        &&& after.groups@[h].files@[i] < after.files@.len()
        &&& after.files@[after.groups@[h].files@[i] as int].group == h
    } by {
        if h < before.groups@.len() && i < before.groups@[h].files@.len() {
            assert(after.groups@[h].files@[i] == before.groups@[h].files@[i]);
        }
    }
    assert forall|h: int, i: int, j: int|
        #![trigger after.groups@[h].files@[i], after.groups@[h].files@[j]]
        0 <= h < after.groups@.len() && 0 <= i < j < after.groups@[h].files@.len() implies after.groups@[h].files@[i]
        < after.groups@[h].files@[j] by {
        if h < before.groups@.len() {
            assert(after.groups@[h].files@[i] == before.groups@[h].files@[i]);
            if j < before.groups@[h].files@.len() {
                assert(after.groups@[h].files@[j] == before.groups@[h].files@[j]);
            }
        }
    }
}

proof fn lemma_file_nodes(before: Model, shaped: Seq<Node>, after: Model, folder: Seq<Seq<char>>)
    requires
        before.wf(),
        before.files@.len() + 1 == after.files@.len() <= usize::MAX,
        after.files@.drop_last() == before.files@,
        model::tree_wf(shaped, after.roots),
        grown(before.nodes@, shaped, folder),
        folder == paths::components(after.files@.last().path@).drop_last(),
        paths::components(after.files@.last().path@).len() >= 2,
        after.files@.last().node < shaped.len(),
        model::node_parts(shaped, after.files@.last().node as int) == folder,
        after.nodes@.len() == shaped.len(),
        forall|n: int| #![trigger after.nodes@[n]]
            0 <= n < shaped.len() ==> {
                &&& after.nodes@[n].name == shaped[n].name
                &&& after.nodes@[n].parent == shaped[n].parent
                &&& after.nodes@[n].children == shaped[n].children
                &&& after.nodes@[n].counts == shaped[n].counts
                &&& after.nodes@[n].files@ == (if n == after.files@.last().node {
                    shaped[n].files@.push(before.files@.len() as usize)
                } else {
                    shaped[n].files@
                })
            },
    ensures
        after.nodes_wf(),
        forall|n: int|
            0 <= n < before.nodes@.len() ==> #[trigger] after.parts(n) == before.parts(n),
        forall|n: int| 0 <= n < shaped.len() ==> #[trigger] after.parts(n) == model::node_parts(
            shaped,
            n,
        ),
{
    let id = before.files@.len() as usize;
    assert forall|f: int| 0 <= f < before.files@.len() implies #[trigger] after.files@[f]
        == before.files@[f] by {
        assert(after.files@[f] == after.files@.drop_last()[f]);
    }
    assert forall|n: int| 0 <= n < shaped.len() implies #[trigger] after.parts(n)
        == model::node_parts(shaped, n) by {
        lemma_parts_kept(shaped, after.nodes@, n);
    }
    assert forall|n: int| 0 <= n < before.nodes@.len() implies #[trigger] after.parts(n)
        == before.parts(n) by {
        lemma_parts_kept(before.nodes@, shaped, n);
    }
    assert(model::tree_wf(after.nodes@, after.roots)) by {
        reveal(model::tree_wf);
        let nodes = after.nodes@;
        let roots = after.roots;
        assert forall|n: int| #![trigger nodes[n]] 0 <= n < nodes.len() implies {
            &&& nodes[n].children.wf()
            &&& paths::are_components(model::node_parts(nodes, n))
            &&& match nodes[n].parent {
                None => roots@.contains((nodes[n].name@, n as usize)),
                Some(p) => p < n && nodes[p as int].children@.contains((nodes[n].name@, n as usize)),
            }
        } by {
            assert(shaped[n].children.wf());
            assert(after.parts(n) == model::node_parts(shaped, n));
        }
        assert forall|e: (Seq<char>, usize)| #[trigger] roots@.contains(e) implies e.1
            < nodes.len() && nodes[e.1 as int].parent is None && nodes[e.1 as int].name@ == e.0 by {
            assert(shaped[e.1 as int].parent is None);
        }
        assert forall|n: int, e: (Seq<char>, usize)|
            0 <= n < nodes.len() && #[trigger] nodes[n].children@.contains(e) implies e.1
            < nodes.len() && nodes[e.1 as int].parent == Some(n as usize) && nodes[e.1 as int].name@
            == e.0 by {
            assert(shaped[n].children@.contains(e));
        }
    }
    assert forall|f: int| #![trigger after.files@[f]] 0 <= f < after.files@.len() implies {
        &&& after.files@[f].node < after.nodes@.len()
        &&& after.nodes@[after.files@[f].node as int].files@.contains(f as usize)
        &&& after.parts(after.files@[f].node as int) == paths::components(
            after.files@[f].path@,
        ).drop_last()
        &&& paths::components(after.files@[f].path@).len() >= 2
    } by {
        let n = after.files@[f].node as int;
        let list = after.nodes@[n].files@;
        if f == id {
            assert(list[list.len() - 1] == id);
        } else {
            let own = before.nodes@[n].files@;
            assert(own.contains(f as usize));
            assert(after.parts(n) == before.parts(n));
            assert(shaped[n].files == before.nodes@[n].files);
            let k = choose|k: int| 0 <= k < own.len() && own[k] == f as usize;
            assert(list[k] == f as usize);
        }
    }
    assert forall|n: int, i: int| #![trigger after.nodes@[n].files@[i]]
        0 <= n < after.nodes@.len() && 0 <= i < after.nodes@[n].files@.len() implies {
        &&& after.nodes@[n].files@[i] < after.files@.len()
        &&& after.files@[after.nodes@[n].files@[i] as int].node == n
    } by {
        if n < before.nodes@.len() && i < before.nodes@[n].files@.len() {
            assert(shaped[n].files == before.nodes@[n].files);
            assert(after.nodes@[n].files@[i] == before.nodes@[n].files@[i]);
        } else {
            assert(n >= before.nodes@.len() ==> shaped[n].files@ == Seq::<FileId>::empty());
            assert(n < before.nodes@.len() ==> shaped[n].files == before.nodes@[n].files);
        }
    }
    assert forall|n: int, i: int, j: int|
        #![trigger after.nodes@[n].files@[i], after.nodes@[n].files@[j]]
        0 <= n < after.nodes@.len() && 0 <= i < j < after.nodes@[n].files@.len() implies after.nodes@[n].files@[i]
        < after.nodes@[n].files@[j] by {
        if n < before.nodes@.len() {
            assert(shaped[n].files == before.nodes@[n].files);
            assert(after.nodes@[n].files@[i] == before.nodes@[n].files@[i]);
            if j < before.nodes@[n].files@.len() {
                assert(after.nodes@[n].files@[j] == before.nodes@[n].files@[j]);
            }
        } else {
            assert(shaped[n].files@ == Seq::<FileId>::empty());
        }
    }
}

proof fn lemma_file_index(before: Model, after: Model, key: u64)
    requires
        before.wf(),
        before.files@.len() + 1 == after.files@.len() <= usize::MAX,
        after.files@.drop_last() == before.files@,
        !before.knows(after.files@.last().path@),
        before.groups@.len() <= usize::MAX,
        before.group_for(key) < after.groups@.len(),
        before.groups@.len() <= after.groups@.len(),
        after.keys() == before.keys().insert(key, before.group_for(key)),
        after.path_index() == before.path_index().insert(
            paths::joined(paths::components(after.files@.last().path@)),
            before.files@.len() as usize,
        ),
    ensures
        after.index_wf(),
{
    let id = before.files@.len() as usize;
    let path = after.files@.last().path@;
    assert forall|f: int| 0 <= f < before.files@.len() implies #[trigger] after.files@[f]
        == before.files@[f] by {
        assert(after.files@[f] == after.files@.drop_last()[f]);
    }
    assert forall|k: u64| #[trigger] after.keys().contains_key(k) implies after.keys()[k]
        < after.groups@.len() by {
        if k != key {
            assert(before.keys().contains_key(k));
        }
    }
    assert forall|k: u64, l: u64| #![trigger after.keys()[k], after.keys()[l]]
        after.keys().contains_key(k) && after.keys().contains_key(l) && after.keys()[k]
            == after.keys()[l] implies k == l by {
        assert(k != key ==> before.keys().contains_key(k) && after.keys()[k] == before.keys()[k]);
        assert(l != key ==> before.keys().contains_key(l) && after.keys()[l] == before.keys()[l]);
        if k != l && !(k != key && l != key) {
            assert(before.keys().contains_key(key) ==> before.keys()[key] == before.group_for(key));
        }
    }
    assert forall|f: int| #![trigger after.files@[f]] 0 <= f < after.files@.len() implies {
        let text = paths::joined(paths::components(after.files@[f].path@));
        after.path_index().contains_key(text) && after.path_index()[text] == f
    } by {
        if f < id {
            assert(!paths::same_path(before.files@[f].path@, path));
            paths::lemma_canonical(before.files@[f].path@, path);
        }
    }
    assert forall|text: Seq<char>| #[trigger] after.path_index().contains_key(text) implies {
        let f = after.path_index()[text];
        f < after.files@.len() && text == paths::joined(
            paths::components(after.files@[f as int].path@),
        )
    } by {
        if text != paths::joined(paths::components(path)) {
            assert(before.path_index().contains_key(text));
        }
    }
}

impl Default for Model {
    fn default() -> (model: Model)
        ensures
            model.wf(),
            model.is_new(),
            model.generation == 0,
    {
        let model = Model {
            files: Vec::new(),
            groups: Vec::new(),
            nodes: Vec::new(),
            roots: NameMap::new(),
            group_by_key: HashMap::new(),
            file_by_path: StringHashMap::new(),
            dirty: false,
            totals: Counts::default(),
            visible_groups: 0,
            wasted_bytes: 0,
            generation: 0,
        };
        reveal(model::tree_wf);
        model
    }
}

} // verus!
