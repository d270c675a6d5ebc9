//! What is shown of the results.
use vstd::prelude::*;

use crate::counting;
use crate::deletion::{self, DeleteGroup, GroupPaths};
use crate::model::{self, Counts, DupFile, FileId, GroupId, Model, NodeId, Status};
use crate::paths;
use crate::removal;
use crate::rules::ApplyResult;
use crate::scanner::ScanProgress;
use crate::text;

verus! {

// ---------------------------------------------------------------------- texts

/// A size in bytes, kilobytes and so on.
pub uninterp spec fn size_words(size: u64) -> Seq<char>;

/// `humansize::format_size` with its `DECIMAL` options: a size with the largest
/// unit of a power of a thousand that it reaches, with two decimal places where
/// it is no whole number of them. What the text is, is not stated further.
#[verifier::external_body]
pub(crate) fn size_text(size: u64) -> (words: String)
    ensures
        words@ == size_words(size),
{
    humansize::format_size(size, humansize::DECIMAL)
}

/// A size as it is shown.
pub fn size_label(size: u64) -> (words: String)
    ensures
        words@ == size_words(size),
{
    size_text(size)
}

/// A number in decimal digits.
pub open spec fn number(n: int) -> Seq<char> {
    text::decimal(n as nat)
}

/// Numbers are shown in decimal digits.
pub proof fn lemma_number(n: nat)
    ensures
        number(n as int) == text::decimal(n),
{
}

/// The name under which a file is shown.
pub open spec fn shown_name(path: Seq<char>) -> Seq<char> {
    match paths::file_name_of(path) {
        Some(name) => name,
        None => path,
    }
}

/// The name under which a file is shown.
pub fn file_name(path: &str) -> (name: String)
    ensures
        name@ == shown_name(path@),
        name@ == match paths::file_name_of(path@) {
            Some(n) => n,
            None => path@,
        },
{
    match paths::path_file_name(path) {
        Some(name) => name,
        None => {
            let mut name = String::new();
            name.append(path);
            assert(name@ =~= path@);
            name
        },
    }
}

/// What a status is called.
pub open spec fn status_words(status: Status) -> Seq<char> {
    match status {
        Status::Pending => "À traiter"@,
        Status::Delete => "À supprimer"@,
        Status::Keep => "Conservé (tous ses doublons sont marqués)"@,
        Status::Conflict => "Tous les exemplaires sont marqués !"@,
    }
}

/// What a status is called.
pub fn status_text(status: Status) -> (words: &'static str)
    ensures
        words@ == status_words(status),
        words@ == match status {
            Status::Pending => "À traiter"@,
            Status::Delete => "À supprimer"@,
            Status::Keep => "Conservé (tous ses doublons sont marqués)"@,
            Status::Conflict => "Tous les exemplaires sont marqués !"@,
        },
{
    match status {
        Status::Pending => "À traiter",
        Status::Delete => "À supprimer",
        Status::Keep => "Conservé (tous ses doublons sont marqués)",
        Status::Conflict => "Tous les exemplaires sont marqués !",
    }
}

/// What a status is called where there is little room.
pub fn legend_text(status: Status) -> (words: &'static str)
    ensures
        words@ == match status {
            Status::Pending => "à traiter"@,
            Status::Delete => "à supprimer"@,
            Status::Keep => "conservé"@,
            Status::Conflict => "tous marqués"@,
        },
{
    match status {
        Status::Pending => "à traiter",
        Status::Delete => "à supprimer",
        Status::Keep => "conservé",
        Status::Conflict => "tous marqués",
    }
}

/// What applying a rule did, in words.
pub open spec fn summary_words(marked: int, protected: int) -> Seq<char> {
    let start = number(marked) + " fichier(s) marqué(s)"@;
    if protected > 0 {
        start + ", "@ + number(protected) + " protégé(s) (dernier exemplaire)"@
    } else {
        start
    }
}

/// What applying a rule did, in words.
pub fn apply_summary(result: &ApplyResult) -> (words: String)
    ensures
        words@ == summary_words(result.marked as int, result.protected as int),
        result.protected == 0 ==> words@ == text::decimal(result.marked as nat)
            + " fichier(s) marqué(s)"@,
        result.protected > 0 ==> words@ == text::decimal(result.marked as nat)
            + " fichier(s) marqué(s)"@ + ", "@ + text::decimal(result.protected as nat)
            + " protégé(s) (dernier exemplaire)"@,
{
    let mut words = text::decimal_text(result.marked as u64);
    words.append(" fichier(s) marqué(s)");
    if result.protected > 0 {
        words.append(", ");
        text::push_decimal(&mut words, result.protected as u64);
        words.append(" protégé(s) (dernier exemplaire)");
    }
    assert(words@ =~= summary_words(result.marked as int, result.protected as int));
    words
}

/// How far a search has come, in words.
pub open spec fn progress_words(p: ScanProgress) -> Seq<char> {
    (if p.walking {
        "Parcours :"@
    } else {
        "Parcourus :"@
    }) + " "@ + number(p.files_seen as int) + " fichiers ("@ + size_words(p.bytes_seen)
        + ") · hachés : "@ + number(p.files_hashed as int) + " ("@ + size_words(p.bytes_hashed)
        + ") · en attente : "@ + number(p.pending_jobs as int)
}

/// How far a search has come, in words.
pub fn progress_text(p: &ScanProgress) -> (words: String)
    ensures
        words@ == progress_words(*p),
        words@ == (if p.walking {
            "Parcours :"@
        } else {
            "Parcourus :"@
        }) + " "@ + text::decimal(p.files_seen as nat) + " fichiers ("@ + size_words(p.bytes_seen)
            + ") · hachés : "@ + text::decimal(p.files_hashed as nat) + " ("@ + size_words(
            p.bytes_hashed,
        ) + ") · en attente : "@ + text::decimal(p.pending_jobs as nat),
{
    let mut words = String::new();
    if p.walking {
        words.append("Parcours :");
    } else {
        words.append("Parcourus :");
    }
    words.append(" ");
    text::push_decimal(&mut words, p.files_seen);
    words.append(" fichiers (");
    words.append(size_text(p.bytes_seen).as_str());
    words.append(") · hachés : ");
    text::push_decimal(&mut words, p.files_hashed);
    words.append(" (");
    words.append(size_text(p.bytes_hashed).as_str());
    words.append(") · en attente : ");
    text::push_decimal(&mut words, p.pending_jobs);
    assert(words@ =~= progress_words(*p));
    words
}

/// What is shown beside a folder.
pub open spec fn folder_words(counts: Counts) -> Seq<char> {
    let start = number(counts.total as int) + " fichier(s)"@;
    if counts.delete > 0 {
        start + " · "@ + number(counts.delete as int) + " marqué(s), "@ + size_words(
            counts.delete_bytes,
        )
    } else {
        start
    }
}

/// What is shown beside a folder.
pub fn folder_text(counts: &Counts) -> (words: String)
    ensures
        words@ == folder_words(*counts),
        counts.delete == 0 ==> words@ == text::decimal(counts.total as nat) + " fichier(s)"@,
        counts.delete > 0 ==> words@ == text::decimal(counts.total as nat) + " fichier(s)"@
            + " · "@ + text::decimal(counts.delete as nat) + " marqué(s), "@ + size_words(
            counts.delete_bytes,
        ),
{
    let mut words = text::decimal_text(counts.total as u64);
    words.append(" fichier(s)");
    if counts.delete > 0 {
        words.append(" · ");
        text::push_decimal(&mut words, counts.delete as u64);
        words.append(" marqué(s), ");
        words.append(size_text(counts.delete_bytes).as_str());
    }
    assert(words@ =~= folder_words(*counts));
    words
}

/// Whether the box of a folder is ticked, and whether it is half ticked.
pub fn folder_ticks(counts: &Counts) -> (ticks: (bool, bool))
    ensures
        ticks.0 == (counts.delete == counts.total),
        ticks.1 == (counts.delete > 0 && counts.delete != counts.total),
{
    let all = counts.delete == counts.total;
    (all, counts.delete > 0 && !all)
}

/// What is shown beside a file.
pub fn file_text(size: u64, copies: usize) -> (words: String)
    ensures
        words@ == size_words(size) + " · "@ + number(copies as int) + " exemplaires"@,
{
    let mut words = size_text(size);
    words.append(" · ");
    text::push_decimal(&mut words, copies as u64);
    words.append(" exemplaires");
    assert(words@ =~= size_words(size) + " · "@ + number(copies as int) + " exemplaires"@);
    words
}

/// What is shown of all results.
pub fn totals_text(groups: usize, files: usize, wasted: u64) -> (words: String)
    ensures
        words@ == number(groups as int) + " groupes · "@ + number(files as int) + " fichiers · "@
            + size_words(wasted) + " récupérables"@,
{
    let mut words = text::decimal_text(groups as u64);
    words.append(" groupes · ");
    text::push_decimal(&mut words, files as u64);
    words.append(" fichiers · ");
    words.append(size_text(wasted).as_str());
    words.append(" récupérables");
    assert(words@ =~= number(groups as int) + " groupes · "@ + number(files as int)
        + " fichiers · "@ + size_words(wasted) + " récupérables"@);
    words
}

/// How many files would be deleted.
pub fn deletable_count(totals: &Counts) -> (count: usize)
    requires
        totals.conflict <= totals.delete,
    ensures
        count == totals.delete - totals.conflict,
{
    totals.delete - totals.conflict
}

/// What is shown of the files to delete.
pub fn deletable_text(count: usize, bytes: u64) -> (words: String)
    ensures
        words@ == "À supprimer : "@ + number(count as int) + " ("@ + size_words(bytes) + ")"@,
{
    let mut words = String::new();
    words.append("À supprimer : ");
    text::push_decimal(&mut words, count as u64);
    words.append(" (");
    words.append(size_text(bytes).as_str());
    words.append(")");
    assert(words@ =~= "À supprimer : "@ + number(count as int) + " ("@ + size_words(bytes)
        + ")"@);
    words
}

impl Model {
    proof fn lemma_conflicts_deleted(self, count: nat)
        ensures
            self.tally(count, None).conflict <= self.tally(count, None).delete,
            self.tally(count, None).delete - self.tally(count, None).conflict == counting::count(
                count,
                |f: int| self.visible(f) && self.status_of(f) == Status::Delete,
            ),
        decreases count,
    {
        if count > 0 {
            self.lemma_conflicts_deleted((count - 1) as nat);
            assert(self.counted(count - 1, None));
        }
    }

    /// What is shown as the number of files to delete is the number of files that
    /// would be deleted.
    pub proof fn lemma_deletable_count(self)
        requires
            self.counts_right(),
        ensures
            self.totals.conflict <= self.totals.delete,
            self.totals.delete - self.totals.conflict == counting::count(
                self.files@.len(),
                |f: int| self.visible(f) && self.status_of(f) == Status::Delete,
            ),
    {
        self.lemma_conflicts_deleted(self.files@.len());
        assert(self.totals@.conflict == self.totals.conflict);
        assert(self.totals@.delete == self.totals.delete);
    }
}

// --------------------------------------------------------------------- folders

impl Model {
    /// Whether a folder is shown together with the one folder in it: no file is
    /// shown in the folder itself, and files are shown in one sub-folder alone.
    pub open spec fn merges(self, n: int) -> bool {
        &&& counting::count(self.files@.len(), self.shown_directly(n)) == 0
        &&& self.shown_children(n).len() == 1
    }

    /// The sub-folders of a folder in which files are shown.
    pub open spec fn shown_children(self, n: int) -> Seq<NodeId> {
        self.nodes@[n].children.ids().filter(|c: NodeId| self.nodes@[c as int].counts.total > 0)
    }

    /// The last of the folders that are shown together, and the names of all of
    /// them.
    pub open spec fn merged(self, n: int, label: Seq<char>, separator: char) -> (int, Seq<char>)
        decreases self.nodes@.len() - n,
    {
        if 0 <= n < self.nodes@.len() && self.merges(n) {
            let c = self.shown_children(n)[0] as int;
            if n < c < self.nodes@.len() {
                let start = if label.len() > 0 && (label.last() == '/' || label.last() == '\\') {
                    label
                } else {
                    label.push(separator)
                };
                self.merged(c, start + self.nodes@[c].name@, separator)
            } else {
                (n, label)
            }
        } else {
            (n, label)
        }
    }

    proof fn lemma_shown_child(self, n: int, i: int)
        requires
            self.wf(),
            0 <= n < self.nodes@.len(),
            0 <= i < self.shown_children(n).len(),
        ensures
            n < self.shown_children(n)[i] < self.nodes@.len(),
    {
        let ids = self.nodes@[n].children.ids();
        let pred = |c: NodeId| self.nodes@[c as int].counts.total > 0;
        self.lemma_children(n);
        let c = self.shown_children(n)[i];
        assert(ids.filter(pred).contains(c));
        ids.lemma_filter_contains_rev(pred, c);
        let k = ids.index_of(c);
        assert(ids[k] == c);
        assert(self.parents().len() == self.nodes@.len());
    }

    /// The folder that stands for a chain of folders with nothing else in them,
    /// and the label under which it is shown.
    pub fn tree_label(&self, node: NodeId, separator: char) -> (shown: (NodeId, String))
        requires
            self.wf(),
            self.totals_right(),
            node < self.nodes@.len(),
        ensures
            (shown.0 as int, shown.1@) == self.merged(
                node as int,
                self.nodes@[node as int].name@,
                separator,
            ),
            shown.0 < self.nodes@.len(),
    {
        let mut label = self.nodes[node].name.clone();
        let mut n = node;
        let ghost goal = self.merged(node as int, label@, separator);
        loop
            invariant
                self.wf(),
                self.totals_right(),
                n < self.nodes@.len(),
                goal == self.merged(n as int, label@, separator),
            ensures
                goal == (n as int, label@),
                n < self.nodes@.len(),
            decreases self.nodes@.len() - n,
        {
            let children = self.visible_children(n);
            let direct = self.direct_file_count(n);
            assert(children@ == self.shown_children(n as int));
            if direct != 0 || children.len() != 1 {
                assert(!self.merges(n as int));
                break ;
            }
            assert(self.merges(n as int));
            let c = children[0];
            proof {
                self.lemma_shown_child(n as int, 0);
            }
            let ghost before = label@;
            let chars = text::chars_of(label.as_str());
            if chars.len() == 0 || (chars[chars.len() - 1] != '/' && chars[chars.len() - 1]
                != '\\') {
                label.push(separator);
            }
            label.append(self.nodes[c].name.as_str());
            n = c;
        }
        (n, label)
    }
}

// ---------------------------------------------------------------------- groups

/// Whether a pair of numbers stands before another or is the same.
pub open spec fn pair_le(a: (u64, usize), b: (u64, usize)) -> bool {
    a.0 < b.0 || (a.0 == b.0 && a.1 <= b.1)
}

/// `slice::sort_unstable` on pairs of numbers: puts them in ascending order,
/// the first numbers deciding before the second.
#[verifier::external_body]
fn sort_pairs(pairs: &mut Vec<(u64, usize)>)
    ensures
        final(pairs)@.to_multiset() == old(pairs)@.to_multiset(),
        forall|i: int, j: int|
            0 <= i < j < final(pairs)@.len() ==> #[trigger] pair_le(
                final(pairs)@[i],
                final(pairs)@[j],
            ),
{
    pairs.sort_unstable();
}

impl Model {
    /// Whether a group is listed before another: it wastes more, or as much and
    /// was found later.
    pub open spec fn listed_before(self, a: int, b: int) -> bool {
        self.group_waste(a) > self.group_waste(b) || (self.group_waste(a) == self.group_waste(b)
            && a > b)
    }

    /// The groups that are shown, those first that waste most.
    pub fn sorted_groups(&self) -> (groups: Vec<GroupId>)
        requires
            self.wf(),
            self.waste(self.groups@.len()) <= u64::MAX,
        ensures
            forall|g: GroupId| #[trigger]
                groups@.contains(g) <==> g < self.groups@.len() && self.alive_count(g as int) >= 2,
            forall|i: int, j: int|
                0 <= i < j < groups@.len() ==> #[trigger] self.listed_before(
                    groups@[i] as int,
                    groups@[j] as int,
                ),
    {
        let mut pairs: Vec<(u64, usize)> = Vec::new();
        for g in 0..self.groups.len()
            invariant
                self.wf(),
                self.waste(self.groups@.len()) <= u64::MAX,
                forall|i: int| #![trigger pairs@[i]]
                    0 <= i < pairs@.len() ==> pairs@[i].1 < g && self.alive_count(
                        pairs@[i].1 as int,
                    ) >= 2 && pairs@[i].0 == self.group_waste(pairs@[i].1 as int),
                forall|i: int, j: int| #![trigger pairs@[i], pairs@[j]]
                    0 <= i < j < pairs@.len() ==> pairs@[i].1 < pairs@[j].1,
                forall|h: int| #![trigger self.alive_count(h)]
                    0 <= h < g && self.alive_count(h) >= 2 ==> pairs@.contains(
                        (self.group_waste(h) as u64, h as usize),
                    ),
        {
            proof {
                assert forall|i: int| 0 <= i < self.groups@[g as int].files@.len() implies (
                #[trigger] self.groups@[g as int].files@[i]) < self.files@.len() by {}
                self.lemma_waste_part(g as int, self.groups@.len());
            }
            let ghost before = pairs@;
            let alive = self.groups[g].alive(self.files.as_slice()).len();
            if alive >= 2 {
                let copies: u64 = (alive - 1) as u64;
                let size = self.groups[g].size;
                assert(self.group_waste(g as int) == size as nat * copies as nat);
                pairs.push((size * copies, g));
                proof {
                    assert forall|h: int| #![trigger self.alive_count(h)]
                        0 <= h < g + 1 && self.alive_count(h) >= 2 implies pairs@.contains(
                        (self.group_waste(h) as u64, h as usize),
                    ) by {
                        if h < g {
                            let pair = (self.group_waste(h) as u64, h as usize);
                            let i = before.index_of(pair);
                            assert(pairs@[i] == pair);
                        } else {
                            assert(pairs@[before.len() as int] == (
                                self.group_waste(h) as u64,
                                h as usize,
                            ));
                        }
                    }
                }
            }
        }
        let ghost listed = pairs@;
        sort_pairs(&mut pairs);
        let ghost ordered = pairs@;
        proof {
            broadcast use vstd::seq_lib::group_to_multiset_ensures;

            assert(listed.no_duplicates());
            listed.lemma_multiset_has_no_duplicates();
            assert forall|p: (u64, usize)| ordered.to_multiset().contains(p) implies
                ordered.to_multiset().count(p) == 1 by {}
            ordered.lemma_multiset_has_no_duplicates_conv();
            assert forall|p: (u64, usize)| #[trigger] ordered.contains(p) == listed.contains(p) by {
                assert(ordered.to_multiset().count(p) == listed.to_multiset().count(p));
            }
        }
        let mut groups: Vec<GroupId> = Vec::new();
        let mut i: usize = pairs.len();
        while i > 0
            invariant
                i <= ordered.len(),
                pairs@ == ordered,
                groups@.len() == ordered.len() - i,
                forall|k: int| #![trigger groups@[k]]
                    0 <= k < groups@.len() ==> groups@[k] == ordered[ordered.len() - 1 - k].1,
            decreases i,
        {
            i = i - 1;
            groups.push(pairs[i].1);
        }
        proof {
            assert forall|k: int| #![trigger ordered[k]] 0 <= k < ordered.len() implies listed.contains(
                ordered[k],
            ) by {
                assert(ordered.contains(ordered[k]));
            }
            assert forall|g: GroupId| #[trigger] groups@.contains(g) <==> g < self.groups@.len()
                && self.alive_count(g as int) >= 2 by {
                if groups@.contains(g) {
                    let k = groups@.index_of(g);
                    let pair = ordered[ordered.len() - 1 - k];
                    assert(listed.contains(pair));
                    let i = listed.index_of(pair);
                    assert(listed[i] == pair);
                }
                if g < self.groups@.len() && self.alive_count(g as int) >= 2 {
                    let pair = (self.group_waste(g as int) as u64, g);
                    assert(listed.contains(pair));
                    assert(ordered.contains(pair));
                    let k = ordered.index_of(pair);
                    assert(groups@[ordered.len() - 1 - k] == g);
                }
            }
            assert forall|i: int, j: int|
                0 <= i < j < groups@.len() implies #[trigger] self.listed_before(
                groups@[i] as int,
                groups@[j] as int,
            ) by {
                let a = ordered.len() - 1 - i;
                let b = ordered.len() - 1 - j;
                assert(pair_le(ordered[b], ordered[a]));
                assert(listed.contains(ordered[a]));
                assert(listed.contains(ordered[b]));
                let x = listed.index_of(ordered[a]);
                let y = listed.index_of(ordered[b]);
                assert(listed[x] == ordered[a] && listed[y] == ordered[b]);
                assert(ordered[a] != ordered[b]);
                assert(x != y);
                assert(listed[x].1 != listed[y].1) by {
                    if x < y {
                        assert(listed[x].1 < listed[y].1);
                    } else {
                        assert(listed[y].1 < listed[x].1);
                    }
                }
            }
        }
        groups
    }

    /// What one group wastes is no more than what all waste.
    proof fn lemma_waste_part(self, g: int, count: nat)
        requires
            0 <= g < count,
        ensures
            self.group_waste(g) <= self.waste(count),
        decreases count,
    {
        if g < count - 1 {
            self.lemma_waste_part(g, (count - 1) as nat);
        }
    }

    /// Whether a file of a group that is present has a status.
    pub open spec fn any_in_group(self, g: int, status: Status) -> bool {
        exists|f: int|
            0 <= f < self.files@.len() && self.files@[f].group == g && #[trigger] self.alive(f)
                && self.status_of(f) == status
    }

    /// The status in which a group is shown.
    pub open spec fn group_status_of(self, g: int) -> Status {
        if self.any_in_group(g, Status::Conflict) {
            Status::Conflict
        } else if self.any_in_group(g, Status::Keep) {
            Status::Keep
        } else if self.any_in_group(g, Status::Delete) {
            Status::Delete
        } else {
            Status::Pending
        }
    }

    /// The status in which a group is shown.
    pub fn group_status(&self, g: GroupId) -> (status: Status)
        requires
            self.wf(),
            g < self.groups@.len(),
        ensures
            status == self.group_status_of(g as int),
    {
        let members = &self.groups[g].files;
        let mut conflict = false;
        let mut keep = false;
        let mut delete = false;
        for i in 0..members.len()
            invariant
                self.wf(),
                g < self.groups@.len(),
                members == self.groups@[g as int].files,
                conflict ==> self.any_in_group(g as int, Status::Conflict),
                keep ==> self.any_in_group(g as int, Status::Keep),
                delete ==> self.any_in_group(g as int, Status::Delete),
                forall|j: int|
                    0 <= j < i && self.alive(#[trigger] self.groups@[g as int].files@[j] as int)
                        ==> match self.status_of(self.groups@[g as int].files@[j] as int) {
                        Status::Conflict => conflict,
                        Status::Keep => keep,
                        Status::Delete => delete,
                        Status::Pending => true,
                    },
        {
            let f = members[i];
            assert(self.groups@[g as int].files@[i as int] == f);
            if !self.files[f].removed && !self.files[f].excluded {
                assert(self.alive(f as int));
                match self.status(f) {
                    Status::Conflict => {
                        conflict = true;
                    },
                    Status::Keep => {
                        keep = true;
                    },
                    Status::Delete => {
                        delete = true;
                    },
                    Status::Pending => {},
                }
            }
        }
        proof {
            assert forall|status: Status| #[trigger] self.any_in_group(g as int, status) implies (
            match status {
                Status::Conflict => conflict,
                Status::Keep => keep,
                Status::Delete => delete,
                Status::Pending => true,
            }) by {
                let f = choose|f: int|
                    0 <= f < self.files@.len() && self.files@[f].group == g && #[trigger] self.alive(
                        f,
                    ) && self.status_of(f) == status;
                assert(self.groups@[self.files@[f].group as int].files@.contains(f as usize));
                let j = self.groups@[g as int].files@.index_of(f as usize);
                assert(self.groups@[g as int].files@[j] == f);
            }
        }
        if conflict {
            Status::Conflict
        } else if keep {
            Status::Keep
        } else if delete {
            Status::Delete
        } else {
            Status::Pending
        }
    }

    /// What is shown of a group, and the file that stands for it: its first that
    /// is present.
    pub fn group_row(&self, g: GroupId) -> (row: (String, FileId))
        requires
            self.wf(),
            g < self.groups@.len(),
            self.alive_count(g as int) > 0,
        ensures
            row.1 == model::alive_among(self.groups@[g as int].files@, self.files@)[0],
            row.1 < self.files@.len(),
            row.0@ == size_words(self.groups@[g as int].size) + " × "@ + number(
                self.alive_count(g as int) as int,
            ) + "   "@ + shown_name(self.files@[row.1 as int].path@),
    {
        proof {
            assert forall|i: int| 0 <= i < self.groups@[g as int].files@.len() implies (
            #[trigger] self.groups@[g as int].files@[i]) < self.files@.len() by {}
        }
        let alive = self.groups[g].alive(self.files.as_slice());
        let first = alive[0];
        proof {
            let members = self.groups@[g as int].files@;
            let pred = |f: FileId| !self.files@[f as int].removed && !self.files@[f as int].excluded;
            assert(alive@.contains(first)) by {
                assert(alive@[0] == first);
            }
            members.lemma_filter_contains_rev(pred, first);
            let k = members.index_of(first);
            assert(self.groups@[g as int].files@[k] == first);
        }
        let mut words = size_text(self.groups[g].size);
        words.append(" × ");
        text::push_decimal(&mut words, alive.len() as u64);
        words.append("   ");
        words.append(file_name(self.files[first].path.as_str()).as_str());
        assert(words@ =~= size_words(self.groups@[g as int].size) + " × "@ + number(
            self.alive_count(g as int) as int,
        ) + "   "@ + shown_name(self.files@[first as int].path@));
        (words, first)
    }
}

// -------------------------------------------------------------- files to delete

/// The paths of those of some files that are marked, or of those that are not.
pub open spec fn paths_marked(ids: Seq<FileId>, files: Seq<DupFile>, marked: bool) -> Seq<Seq<char>>
    decreases ids.len(),
{
    if ids.len() == 0 {
        Seq::empty()
    } else {
        let earlier = paths_marked(ids.drop_last(), files, marked);
        if files[ids.last() as int].marked == marked {
            earlier.push(files[ids.last() as int].path@)
        } else {
            earlier
        }
    }
}

impl Model {
    /// The copies that stay and those to delete of a group.
    pub open spec fn split_group(self, g: int) -> GroupPaths {
        let alive = model::alive_among(self.groups@[g].files@, self.files@);
        (paths_marked(alive, self.files@, false), paths_marked(alive, self.files@, true))
    }

    /// What is to be deleted of the first groups. Groups of which no copy is
    /// marked, or all are, have no part in it.
    pub open spec fn marked_paths(self, count: nat) -> Seq<GroupPaths>
        decreases count,
    {
        if count == 0 {
            Seq::empty()
        } else {
            let earlier = self.marked_paths((count - 1) as nat);
            let group = self.split_group(count - 1);
            if group.0.len() > 0 && group.1.len() > 0 {
                earlier.push(group)
            } else {
                earlier
            }
        }
    }

    /// The marked files with the copies that stay, group by group.
    pub fn marked_groups(&self) -> (groups: Vec<DeleteGroup>)
        requires
            self.wf(),
        ensures
            deletion::group_paths(groups@) == self.marked_paths(self.groups@.len()),
    {
        let mut groups: Vec<DeleteGroup> = Vec::new();
        assert(deletion::group_paths(groups@) =~= self.marked_paths(0));
        for g in 0..self.groups.len()
            invariant
                self.wf(),
                deletion::group_paths(groups@) == self.marked_paths(g as nat),
        {
            let ghost before = groups@;
            let group = self.group_to_delete(g);
            if group.keepers.len() > 0 && group.targets.len() > 0 {
                groups.push(group);
                assert(deletion::group_paths(groups@) =~= deletion::group_paths(before).push(
                    group@,
                ));
            }
            assert(group@.0.len() == group.keepers@.len());
            assert(group@.1.len() == group.targets@.len());
        }
        groups
    }

    /// The copies that stay and those to delete of a group.
    fn group_to_delete(&self, g: GroupId) -> (group: DeleteGroup)
        requires
            self.wf(),
            g < self.groups@.len(),
        ensures
            group@ == self.split_group(g as int),
    {
        proof {
            assert forall|i: int| 0 <= i < self.groups@[g as int].files@.len() implies (
            #[trigger] self.groups@[g as int].files@[i]) < self.files@.len() by {}
        }
        let alive = self.groups[g].alive(self.files.as_slice());
        let ghost members = self.groups@[g as int].files@;
        let ghost pred = |f: FileId|
            !self.files@[f as int].removed && !self.files@[f as int].excluded;
        let mut keepers: Vec<String> = Vec::new();
        let mut targets: Vec<String> = Vec::new();
        assert(alive@.take(0) =~= Seq::<FileId>::empty());
        assert(text::texts(keepers@) =~= Seq::<Seq<char>>::empty());
        assert(text::texts(targets@) =~= Seq::<Seq<char>>::empty());
        for i in 0..alive.len()
            invariant
                self.wf(),
                g < self.groups@.len(),
                members == self.groups@[g as int].files@,
                pred == (|f: FileId|
                    !self.files@[f as int].removed && !self.files@[f as int].excluded),
                alive@ == members.filter(pred),
                text::texts(keepers@) == paths_marked(alive@.take(i as int), self.files@, false),
                text::texts(targets@) == paths_marked(alive@.take(i as int), self.files@, true),
        {
            let f = alive[i];
            let ghost kept = keepers@;
            let ghost gone = targets@;
            proof {
                assert(alive@.contains(f)) by {
                    assert(alive@[i as int] == f);
                }
                members.lemma_filter_contains_rev(pred, f);
                let k = members.index_of(f);
                assert(self.groups@[g as int].files@[k] == f);
                assert(alive@.take(i + 1).drop_last() =~= alive@.take(i as int));
                assert(alive@.take(i + 1).last() == f);
            }
            let path = self.files[f].path.clone();
            if self.files[f].marked {
                targets.push(path);
                assert(text::texts(targets@) =~= text::texts(gone).push(path@));
            } else {
                keepers.push(path);
                assert(text::texts(keepers@) =~= text::texts(kept).push(path@));
            }
        }
        assert(alive@.take(alive@.len() as int) =~= alive@);
        DeleteGroup { keepers, targets }
    }

    /// A marked file is handed over for deletion exactly where it would really
    /// be deleted: an unmarked copy is left.
    pub proof fn lemma_handed_over(self, f: int)
        requires
            self.wf(),
            0 <= f < self.files@.len(),
            self.alive(f),
            self.files@[f].marked,
        ensures
            (self.visible(f) && self.status_of(f) == Status::Delete) == (self.split_group(
                self.files@[f].group as int,
            ).0.len() > 0),
    {
        let g = self.files@[f].group as int;
        let members = self.groups@[g].files@;
        let alive = model::alive_among(members, self.files@);
        let pred = |o: FileId| !self.files@[o as int].removed && !self.files@[o as int].excluded;
        assert(self.files@.len() == self.files.len());
        lemma_paths_marked(alive, self.files@, false);
        if self.split_group(g).0.len() > 0 {
            let i = choose|i: int|
                0 <= i < alive.len() && !self.files@[#[trigger] alive[i] as int].marked;
            let o = alive[i];
            assert(alive.contains(o));
            members.lemma_filter_contains_rev(pred, o);
            members.lemma_filter_pred(pred, i);
            let k = members.index_of(o);
            assert(self.groups@[g].files@[k] == o);
            assert(self.other(f, o as int));
        }
        if self.visible(f) && self.status_of(f) == Status::Delete {
            let o = choose|o: int| #[trigger] self.other(f, o) && !self.files@[o].marked;
            assert(self.other(f, o) && !self.files@[o].marked);
            assert(members.contains(o as usize));
            members.lemma_filter_contains(pred, members.index_of(o as usize));
            let i = alive.index_of(o as usize);
            assert(!self.files@[alive[i] as int].marked);
        }
    }
}

proof fn lemma_paths_marked(ids: Seq<FileId>, files: Seq<DupFile>, marked: bool)
    ensures
        paths_marked(ids, files, marked).len() > 0 <==> exists|i: int|
            0 <= i < ids.len() && files[#[trigger] ids[i] as int].marked == marked,
    decreases ids.len(),
{
    if ids.len() > 0 {
        let rest = ids.drop_last();
        lemma_paths_marked(rest, files, marked);
        if exists|i: int| 0 <= i < rest.len() && files[#[trigger] rest[i] as int].marked == marked {
            let i = choose|i: int|
                0 <= i < rest.len() && files[#[trigger] rest[i] as int].marked == marked;
            assert(files[ids[i] as int].marked == marked);
        }
        if files[ids.last() as int].marked == marked {
            assert(files[ids[ids.len() - 1] as int].marked == marked);
        }
        if exists|i: int| 0 <= i < ids.len() && files[#[trigger] ids[i] as int].marked == marked {
            let i = choose|i: int|
                0 <= i < ids.len() && files[#[trigger] ids[i] as int].marked == marked;
            if i < rest.len() {
                assert(files[rest[i] as int].marked == marked);
            }
        }
    }
}

// The files that are handed over for deletion, all together.

impl Model {
    /// The files of the first groups that are handed over for deletion.
    pub open spec fn handed_over(self, count: nat) -> Seq<FileId>
        decreases count,
    {
        if count == 0 {
            Seq::empty()
        } else {
            let earlier = self.handed_over((count - 1) as nat);
            let group = self.split_group(count - 1);
            if group.0.len() > 0 && group.1.len() > 0 {
                earlier + self.marked_members(count - 1)
            } else {
                earlier
            }
        }
    }

    /// The files of a group that are present and marked.
    pub open spec fn marked_members(self, g: int) -> Seq<FileId> {
        model::alive_among(self.groups@[g].files@, self.files@).filter(
            |f: FileId| self.files@[f as int].marked,
        )
    }

    /// The paths of some files.
    pub open spec fn paths_of(self, ids: Seq<FileId>) -> Seq<Seq<char>> {
        ids.map_values(|f: FileId| self.files@[f as int].path@)
    }

    proof fn lemma_marked_paths_of(self, ids: Seq<FileId>)
        ensures
            paths_marked(ids, self.files@, true) == self.paths_of(
                ids.filter(|f: FileId| self.files@[f as int].marked),
            ),
        decreases ids.len(),
    {
        reveal(Seq::filter);
        let pred = |f: FileId| self.files@[f as int].marked;
        if ids.len() > 0 {
            self.lemma_marked_paths_of(ids.drop_last());
        }
        assert(paths_marked(ids, self.files@, true) =~= self.paths_of(ids.filter(pred)));
    }

    proof fn lemma_handed_paths(self, count: nat)
        ensures
            removal::all_targets(self.marked_paths(count)) == self.paths_of(
                self.handed_over(count),
            ),
        decreases count,
    {
        if count > 0 {
            let g = count - 1;
            self.lemma_handed_paths(g as nat);
            let group = self.split_group(g);
            let earlier = self.handed_over(g as nat);
            self.lemma_marked_paths_of(model::alive_among(self.groups@[g].files@, self.files@));
            if group.0.len() > 0 && group.1.len() > 0 {
                assert(self.marked_paths(count).drop_last() =~= self.marked_paths(g as nat));
                assert(self.paths_of(earlier + self.marked_members(g)) =~= self.paths_of(earlier)
                    + self.paths_of(self.marked_members(g)));
            }
        } else {
            assert(self.paths_of(Seq::<FileId>::empty()) =~= Seq::<Seq<char>>::empty());
        }
    }

    /// Which files of a group are present and marked, each once.
    proof fn lemma_marked_members(self, g: int)
        requires
            self.wf(),
            0 <= g < self.groups@.len(),
        ensures
            self.marked_members(g).no_duplicates(),
            forall|f: FileId| #[trigger]
                self.marked_members(g).contains(f) <==> f < self.files@.len()
                    && self.files@[f as int].group == g && self.alive(f as int)
                    && self.files@[f as int].marked,
    {
        let members = self.groups@[g].files@;
        let present = |f: FileId| !self.files@[f as int].removed && !self.files@[f as int].excluded;
        let marked = |f: FileId| self.files@[f as int].marked;
        let alive = members.filter(present);
        assert(members.no_duplicates()) by {
            assert forall|i: int, j: int| 0 <= i < j < members.len() implies members[i]
                != members[j] by {
                assert(self.groups@[g].files@[i] < self.groups@[g].files@[j]);
            }
        }
        lemma_filter_once(members, present);
        lemma_filter_once(alive, marked);
        assert forall|f: FileId| #[trigger] self.marked_members(g).contains(f) <==> f
            < self.files@.len() && self.files@[f as int].group == g && self.alive(f as int)
            && self.files@[f as int].marked by {
            if alive.filter(marked).contains(f) {
                alive.lemma_filter_contains_rev(marked, f);
                let i = alive.filter(marked).index_of(f);
                alive.lemma_filter_pred(marked, i);
                members.lemma_filter_contains_rev(present, f);
                let j = alive.index_of(f);
                members.lemma_filter_pred(present, j);
                let k = members.index_of(f);
                assert(self.groups@[g].files@[k] == f);
            }
            if f < self.files@.len() && self.files@[f as int].group == g && self.alive(f as int)
                && self.files@[f as int].marked {
                assert(members.contains(f));
                members.lemma_filter_contains(present, members.index_of(f));
                alive.lemma_filter_contains(marked, alive.index_of(f));
            }
        }
    }

    proof fn lemma_handed_files(self, count: nat)
        requires
            self.wf(),
            count <= self.groups@.len(),
        ensures
            self.handed_over(count).no_duplicates(),
            forall|f: FileId| #[trigger]
                self.handed_over(count).contains(f) <==> f < self.files@.len()
                    && self.files@[f as int].group < count && self.visible(f as int)
                    && self.status_of(f as int) == Status::Delete,
        decreases count,
    {
        if count > 0 {
            let g = count - 1;
            let earlier = self.handed_over(g as nat);
            let more = self.marked_members(g);
            let group = self.split_group(g);
            let all = self.handed_over(count);
            self.lemma_handed_files(g as nat);
            self.lemma_marked_members(g);
            self.lemma_marked_paths_of(model::alive_among(self.groups@[g].files@, self.files@));
            assert(group.1.len() == more.len());
            assert forall|f: FileId| f < self.files@.len() && self.files@[f as int].group
                == g implies (#[trigger] self.visible(f as int) && self.status_of(f as int)
                == Status::Delete) == (group.0.len() > 0 && more.contains(f)) by {
                if self.alive(f as int) && self.files@[f as int].marked {
                    self.lemma_handed_over(f as int);
                }
            }
            assert(all == if group.0.len() > 0 && more.len() > 0 {
                earlier + more
            } else {
                earlier
            });
            assert forall|f: FileId| #[trigger] all.contains(f) <==> f < self.files@.len()
                && self.files@[f as int].group < count && self.visible(f as int)
                && self.status_of(f as int) == Status::Delete by {
                if group.0.len() > 0 && more.len() > 0 {
                    if all.contains(f) {
                        let i = all.index_of(f);
                        if i < earlier.len() {
                            assert(earlier[i] == f);
                            assert(earlier.contains(f));
                        } else {
                            assert(more[i - earlier.len()] == f);
                            assert(more.contains(f));
                        }
                    }
                    if earlier.contains(f) {
                        assert(all[earlier.index_of(f)] == f);
                    }
                    if more.contains(f) {
                        assert(all[earlier.len() + more.index_of(f)] == f);
                    }
                }
                assert(earlier.contains(f) <==> f < self.files@.len()
                    && self.files@[f as int].group < g && self.visible(f as int)
                    && self.status_of(f as int) == Status::Delete);
                if f < self.files@.len() && self.files@[f as int].group == g && self.visible(
                    f as int,
                ) && self.status_of(f as int) == Status::Delete {
                    assert(more.contains(f));
                }
            }
            assert forall|i: int, j: int| 0 <= i < j < all.len() implies all[i] != all[j] by {
                if group.0.len() > 0 && more.len() > 0 {
                    if j < earlier.len() {
                        assert(all[i] == earlier[i] && all[j] == earlier[j]);
                    } else if i >= earlier.len() {
                        assert(all[i] == more[i - earlier.len()] && all[j] == more[j
                            - earlier.len()]);
                    } else {
                        assert(earlier.contains(earlier[i]));
                        assert(more.contains(more[j - earlier.len()]));
                    }
                }
            }
        }
    }

    /// All files that are handed over for deletion, group by group, are the files
    /// that would be deleted, each once.
    pub proof fn lemma_handed_over_all(self)
        requires
            self.wf(),
        ensures
            ({
                let ids = self.handed_over(self.groups@.len());
                &&& removal::all_targets(self.marked_paths(self.groups@.len())) == self.paths_of(ids)
                &&& ids.no_duplicates()
                &&& forall|f: FileId| #[trigger]
                    ids.contains(f) <==> f < self.files@.len() && self.visible(f as int)
                        && self.status_of(f as int) == Status::Delete
                &&& self.paths_of(ids).no_duplicates()
            }),
    {
        let count = self.groups@.len();
        let ids = self.handed_over(count);
        let names = self.paths_of(ids);
        self.lemma_handed_paths(count);
        self.lemma_handed_files(count);
        assert forall|f: FileId| f < self.files@.len() implies #[trigger] self.files@[f as int].group
            < count by {}
        assert forall|i: int, j: int| 0 <= i < j < names.len() implies names[i] != names[j] by {
            assert(ids.contains(ids[i]) && ids.contains(ids[j]));
            if names[i] == names[j] {
                self.lemma_paths_unique(ids[i] as int, ids[j] as int);
            }
        }
    }
}

/// What is picked from a list without doubles has none.
pub proof fn lemma_filter_once(ids: Seq<FileId>, pred: spec_fn(FileId) -> bool)
    requires
        ids.no_duplicates(),
    ensures
        ids.filter(pred).no_duplicates(),
    decreases ids.len(),
{
    reveal(Seq::filter);
    if ids.len() > 0 {
        let rest = ids.drop_last();
        lemma_filter_once(rest, pred);
        if pred(ids.last()) && rest.filter(pred).contains(ids.last()) {
            rest.lemma_filter_contains_rev(pred, ids.last());
            let i = rest.index_of(ids.last());
            assert(ids[i] == ids[ids.len() - 1]);
        }
        let found = ids.filter(pred);
        assert forall|i: int, j: int| 0 <= i < j < found.len() implies found[i] != found[j] by {
            let earlier = rest.filter(pred);
            if j >= earlier.len() {
                assert(earlier.contains(earlier[i]));
            }
        }
    }
}

} // verus!
