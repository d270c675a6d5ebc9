//! What is to be deleted, and the text file in which it can be kept for later.
//!
//! The file holds one path on each line:
//!
//! ```text
//! # any comment
//! # conserver : /photos/img.jpg
//! /backup/img.jpg
//! /backup/old/img.jpg
//!
//! # conserver : /docs/a.pdf
//! /docs/a (1).pdf
//! ```
//!
//! Each block names the copies that stay, then the files to delete. It ends with
//! an empty line after these, or where the next copy that stays is named. Other
//! lines that begin with `#` and other empty lines say nothing.
use vstd::prelude::*;

use crate::text;

verus! {

/// Files to delete and the copies that have to stay.
#[derive(Debug, PartialEq)]
pub struct DeleteGroup {
    pub keepers: Vec<String>,
    pub targets: Vec<String>,
}

/// The paths of a group: of those that stay, and of those to delete.
pub type GroupPaths = (Seq<Seq<char>>, Seq<Seq<char>>);

impl View for DeleteGroup {
    type V = (Seq<Seq<char>>, Seq<Seq<char>>);

    open spec fn view(&self) -> (Seq<Seq<char>>, Seq<Seq<char>>) {
        (text::texts(self.keepers@), text::texts(self.targets@))
    }
}

impl Clone for DeleteGroup {
    fn clone(&self) -> (copy: DeleteGroup)
        ensures
            copy@ == self@,
    {
        DeleteGroup {
            keepers: text::clone_texts(&self.keepers),
            targets: text::clone_texts(&self.targets),
        }
    }
}

/// The paths of some groups.
pub open spec fn group_paths(groups: Seq<DeleteGroup>) -> Seq<GroupPaths> {
    groups.map_values(|g: DeleteGroup| g@)
}

/// How many files there are to delete.
pub open spec fn targets_in(groups: Seq<GroupPaths>) -> nat
    decreases groups.len(),
{
    if groups.len() == 0 {
        0
    } else {
        targets_in(groups.drop_last()) + groups.last().1.len()
    }
}

proof fn lemma_targets_grow(groups: Seq<GroupPaths>, count: int)
    requires
        0 <= count <= groups.len(),
    ensures
        targets_in(groups.take(count)) <= targets_in(groups),
    decreases groups.len(),
{
    if count == groups.len() {
        assert(groups.take(count) =~= groups);
    } else {
        lemma_targets_grow(groups.drop_last(), count);
        assert(groups.drop_last().take(count) =~= groups.take(count));
    }
}

/// How many files there are to delete.
pub fn target_count(groups: &[DeleteGroup]) -> (count: usize)
    requires
        targets_in(group_paths(groups@)) <= usize::MAX,
    ensures
        count == targets_in(group_paths(groups@)),
{
    let ghost all = group_paths(groups@);
    let mut count: usize = 0;
    assert(all.take(0) =~= Seq::<GroupPaths>::empty());
    for i in 0..groups.len()
        invariant
            all == group_paths(groups@),
            targets_in(all) <= usize::MAX,
            count == targets_in(all.take(i as int)),
    {
        proof {
            lemma_targets_grow(all, i + 1);
            assert(all.take(i + 1).drop_last() =~= all.take(i as int));
            assert(all[i as int].1.len() == groups@[i as int].targets@.len());
        }
        count = count + groups[i].targets.len();
    }
    assert(all.take(all.len() as int) =~= all);
    count
}

// --------------------------------------------------------------------- writing

/// What stands before the path of a copy that stays.
pub open spec fn keep_prefix() -> Seq<char> {
    "# conserver : "@
}

/// The lines at the head of a list.
pub open spec fn head_lines(count: nat) -> Seq<Seq<char>> {
    seq![
        "# Liste de suppression générée par Duplicate Finder"@,
        "# "@ + text::decimal(count) + " fichier(s) à supprimer."@,
        "# Blocs : lignes « # conserver : » = exemplaire gardé, puis fichiers à supprimer."@,
        "# Exécution : Duplicate Finder > « Exécuter une liste… », qui revérifie chaque fichier."@,
        "# (Linux, sans vérification : grep -v -e '^#' -e '^$' liste.txt | xargs -d '\\n' rm --)"@,
    ]
}

/// The lines of the copies that stay.
pub open spec fn keep_lines(keepers: Seq<Seq<char>>) -> Seq<Seq<char>> {
    Seq::new(keepers.len(), |i: int| keep_prefix() + keepers[i])
}

/// The lines of a block, an empty one first.
pub open spec fn block_lines(group: GroupPaths) -> Seq<Seq<char>> {
    seq![Seq::<char>::empty()] + keep_lines(group.0) + group.1
}

/// The lines of some blocks.
pub open spec fn blocks_lines(groups: Seq<GroupPaths>) -> Seq<Seq<char>>
    decreases groups.len(),
{
    if groups.len() == 0 {
        Seq::empty()
    } else {
        blocks_lines(groups.drop_last()) + block_lines(groups.last())
    }
}

/// The lines of a list.
pub open spec fn list_lines(groups: Seq<GroupPaths>) -> Seq<Seq<char>> {
    head_lines(targets_in(groups)) + blocks_lines(groups)
}

/// A text made of lines, each followed by the same ending.
pub open spec fn ended(lines: Seq<Seq<char>>, ending: Seq<char>) -> Seq<char>
    decreases lines.len(),
{
    if lines.len() == 0 {
        Seq::empty()
    } else {
        ended(lines.drop_last(), ending) + lines.last() + ending
    }
}

/// What ends a line.
pub open spec fn line_end() -> Seq<char> {
    seq!['\n']
}

/// Appends a line.
fn push_line(out: &mut String, line: &str, Ghost(lines): Ghost<Seq<Seq<char>>>)
    requires
        old(out)@ == ended(lines, line_end()),
    ensures
        final(out)@ == ended(lines.push(line@), line_end()),
{
    out.append(line);
    out.push('\n');
    assert(lines.push(line@).drop_last() =~= lines);
    assert(out@ =~= ended(lines, line_end()) + line@ + line_end());
}

/// The text of a list.
pub fn write_list(groups: &[DeleteGroup]) -> (out: String)
    requires
        targets_in(group_paths(groups@)) <= usize::MAX,
    ensures
        out@ == ended(list_lines(group_paths(groups@)), line_end()),
{
    let ghost all = group_paths(groups@);
    let ghost mut lines: Seq<Seq<char>> = Seq::empty();
    let mut out = String::new();
    let count = target_count(groups);
    let mut second = String::new();
    second.append("# ");
    text::push_decimal(&mut second, count as u64);
    second.append(" fichier(s) à supprimer.");
    push_line(&mut out, "# Liste de suppression générée par Duplicate Finder", Ghost(lines));
    proof {
        lines = lines.push("# Liste de suppression générée par Duplicate Finder"@);
    }
    push_line(&mut out, second.as_str(), Ghost(lines));
    proof {
        lines = lines.push(second@);
    }
    push_line(
        &mut out,
        "# Blocs : lignes « # conserver : » = exemplaire gardé, puis fichiers à supprimer.",
        Ghost(lines),
    );
    proof {
        lines =
        lines.push(
            "# Blocs : lignes « # conserver : » = exemplaire gardé, puis fichiers à supprimer."@,
        );
    }
    push_line(
        &mut out,
        "# Exécution : Duplicate Finder > « Exécuter une liste… », qui revérifie chaque fichier.",
        Ghost(lines),
    );
    proof {
        lines =
        lines.push(
            "# Exécution : Duplicate Finder > « Exécuter une liste… », qui revérifie chaque fichier."@,
        );
    }
    push_line(
        &mut out,
        "# (Linux, sans vérification : grep -v -e '^#' -e '^$' liste.txt | xargs -d '\\n' rm --)",
        Ghost(lines),
    );
    proof {
        lines =
        lines.push(
            "# (Linux, sans vérification : grep -v -e '^#' -e '^$' liste.txt | xargs -d '\\n' rm --)"@,
        );
        assert(second@ =~= "# "@ + text::decimal(count as nat) + " fichier(s) à supprimer."@);
        assert(lines =~= head_lines(count as nat));
        assert(all.take(0) =~= Seq::<GroupPaths>::empty());
        assert(lines =~= head_lines(count as nat) + blocks_lines(all.take(0)));
    }
    for i in 0..groups.len()
        invariant
            all == group_paths(groups@),
            lines == head_lines(count as nat) + blocks_lines(all.take(i as int)),
            out@ == ended(lines, line_end()),
    {
        write_block(&mut out, &groups[i], Ghost(lines));
        proof {
            lines = lines + block_lines(all[i as int]);
            assert(all.take(i + 1).drop_last() =~= all.take(i as int));
            assert(lines =~= head_lines(count as nat) + blocks_lines(all.take(i + 1)));
        }
    }
    assert(all.take(all.len() as int) =~= all);
    out
}

/// Appends the lines of a block.
fn write_block(out: &mut String, group: &DeleteGroup, Ghost(lines): Ghost<Seq<Seq<char>>>)
    requires
        old(out)@ == ended(lines, line_end()),
    ensures
        final(out)@ == ended(lines + block_lines(group@), line_end()),
{
    let ghost mut now = lines.push(Seq::<char>::empty());
    push_line(out, "", Ghost(lines));
    proof {
        reveal_strlit("");
        assert(""@ =~= Seq::<char>::empty());
        assert(now =~= lines + seq![Seq::<char>::empty()] + keep_lines(group@.0).take(0));
    }
    for k in 0..group.keepers.len()
        invariant
            now == lines + seq![Seq::<char>::empty()] + keep_lines(group@.0).take(k as int),
            out@ == ended(now, line_end()),
    {
        let mut line = String::new();
        line.append("# conserver : ");
        line.append(group.keepers[k].as_str());
        push_line(out, line.as_str(), Ghost(now));
        proof {
            assert(line@ =~= keep_lines(group@.0)[k as int]);
            now = now.push(line@);
            assert(now =~= lines + seq![Seq::<char>::empty()] + keep_lines(group@.0).take(k + 1));
        }
    }
    assert(now =~= lines + seq![Seq::<char>::empty()] + keep_lines(group@.0) + group@.1.take(0));
    for t in 0..group.targets.len()
        invariant
            now == lines + seq![Seq::<char>::empty()] + keep_lines(group@.0) + group@.1.take(
                t as int,
            ),
            out@ == ended(now, line_end()),
    {
        push_line(out, group.targets[t].as_str(), Ghost(now));
        proof {
            now = now.push(group.targets@[t as int]@);
            assert(now =~= lines + seq![Seq::<char>::empty()] + keep_lines(group@.0)
                + group@.1.take(t + 1));
        }
    }
    assert(now =~= lines + block_lines(group@));
}

// --------------------------------------------------------------------- reading

/// A text without the carriage return at its end, if there is one.
pub open spec fn without_return(line: Seq<char>) -> Seq<char> {
    if line.len() > 0 && line.last() == '\r' {
        line.drop_last()
    } else {
        line
    }
}

/// The lines of a text. Up to two carriage returns before the end of a line are
/// left out, and one at the end of the text.
pub open spec fn lines_of(text: Seq<char>) -> Seq<Seq<char>> {
    let pieces = text::split_on(text, '\n');
    let lines = pieces.drop_last().map_values(
        |piece: Seq<char>| without_return(without_return(piece)),
    );
    if pieces.last().len() == 0 {
        lines
    } else {
        lines.push(without_return(pieces.last()))
    }
}

/// What was read of a list: the blocks that are complete, and the one that is
/// not.
#[verifier::ext_equal]
pub ghost struct Reading {
    pub done: Seq<GroupPaths>,
    pub keepers: Seq<Seq<char>>,
    pub targets: Seq<Seq<char>>,
}

impl Reading {
    /// Nothing yet.
    pub open spec fn none() -> Reading {
        Reading { done: Seq::empty(), keepers: Seq::empty(), targets: Seq::empty() }
    }

    /// At the end of a block. One without files to delete is dropped.
    pub open spec fn flushed(self) -> Reading {
        Reading {
            done: if self.targets.len() > 0 {
                self.done.push((self.keepers, self.targets))
            } else {
                self.done
            },
            keepers: Seq::empty(),
            targets: Seq::empty(),
        }
    }

    /// After one more line.
    pub open spec fn with_line(self, line: Seq<char>) -> Reading {
        if line.len() == 0 {
            if self.targets.len() > 0 {
                self.flushed()
            } else {
                self
            }
        } else if text::begins_with(line, keep_prefix()) {
            let open = if self.targets.len() > 0 {
                self.flushed()
            } else {
                self
            };
            Reading {
                keepers: open.keepers.push(line.skip(keep_prefix().len() as int)),
                ..open
            }
        } else if line[0] == '#' {
            self
        } else {
            Reading { targets: self.targets.push(line), ..self }
        }
    }

    /// After some more lines.
    pub open spec fn with_lines(self, lines: Seq<Seq<char>>) -> Reading
        decreases lines.len(),
    {
        if lines.len() == 0 {
            self
        } else {
            self.with_lines(lines.drop_last()).with_line(lines.last())
        }
    }
}

/// The groups that a list names.
pub open spec fn listed_groups(text: Seq<char>) -> Seq<GroupPaths> {
    Reading::none().with_lines(lines_of(text)).flushed().done
}

/// `std::str::from_utf8`: the text that some bytes encode, if they are valid.
#[verifier::external_body]
fn utf8_text(bytes: &[u8]) -> (decoded: Option<String>)
    ensures
        match decoded {
            Some(t) => vstd::utf8::valid_utf8(bytes@) && t@ == vstd::utf8::decode_utf8(bytes@),
            None => !vstd::utf8::valid_utf8(bytes@),
        },
{
    match std::str::from_utf8(bytes) {
        Ok(t) => Some(String::from(t)),
        Err(_) => None,
    }
}

/// A text without the carriage return at its end, if there is one.
fn strip_return(line: String) -> (stripped: String)
    ensures
        stripped@ == without_return(line@),
{
    let chars = text::chars_of(line.as_str());
    if chars.len() > 0 && chars[chars.len() - 1] == '\r' {
        let shorter = text::text_of(&chars[0..chars.len() - 1]);
        assert(shorter@ =~= line@.drop_last());
        shorter
    } else {
        line
    }
}

/// Whether a line begins with `#`.
fn is_comment(line: &str) -> (result: bool)
    ensures
        result == (line@.len() > 0 && line@[0] == '#'),
{
    let chars = text::chars_of(line);
    chars.len() > 0 && chars[0] == '#'
}

/// A list as far as it was read.
struct Reader {
    groups: Vec<DeleteGroup>,
    keepers: Vec<String>,
    targets: Vec<String>,
}

impl Reader {
    spec fn reading(self) -> Reading {
        Reading {
            done: group_paths(self.groups@),
            keepers: text::texts(self.keepers@),
            targets: text::texts(self.targets@),
        }
    }

    /// Ends a block.
    fn flush(&mut self)
        ensures
            final(self).reading() == old(self).reading().flushed(),
    {
        let mut keepers: Vec<String> = Vec::new();
        let mut targets: Vec<String> = Vec::new();
        let ghost before = self.groups@;
        let ghost k = text::texts(self.keepers@);
        let ghost t = text::texts(self.targets@);
        assert(text::texts(keepers@) =~= Seq::<Seq<char>>::empty());
        assert(text::texts(targets@) =~= Seq::<Seq<char>>::empty());
        if self.targets.len() > 0 {
            keepers.append(&mut self.keepers);
            targets.append(&mut self.targets);
            let group = DeleteGroup { keepers, targets };
            assert(group@.0 =~= k);
            assert(group@.1 =~= t);
            self.groups.push(group);
            assert(group_paths(self.groups@) =~= group_paths(before).push((k, t)));
        } else {
            self.keepers.clear();
        }
        assert(text::texts(self.keepers@) =~= Seq::<Seq<char>>::empty());
        assert(text::texts(self.targets@) =~= Seq::<Seq<char>>::empty());
    }

    /// Reads a line.
    fn read_line(&mut self, line: String)
        ensures
            final(self).reading() == old(self).reading().with_line(line@),
    {
        let ghost before = self.reading();
        if line.as_str().is_empty() {
            if self.targets.len() > 0 {
                self.flush();
            }
            return ;
        }
        match text::after_start(line.as_str(), "# conserver : ") {
            Some(keeper) => {
                if self.targets.len() > 0 {
                    self.flush();
                }
                let ghost open = self.keepers@;
                self.keepers.push(keeper);
                assert(text::texts(self.keepers@) =~= text::texts(open).push(keeper@));
            },
            None => {
                if !is_comment(line.as_str()) {
                    let ghost open = self.targets@;
                    self.targets.push(line);
                    assert(text::texts(self.targets@) =~= text::texts(open).push(line@));
                }
            },
        }
    }
}

/// Reads a list. Bytes that are no text are refused.
pub fn read_list(input: &[u8]) -> (result: Result<Vec<DeleteGroup>, String>)
    ensures
        match result {
            Ok(groups) => vstd::utf8::valid_utf8(input@) && group_paths(groups@) == listed_groups(
                vstd::utf8::decode_utf8(input@),
            ),
            Err(message) => !vstd::utf8::valid_utf8(input@) && message@
                == "stream did not contain valid UTF-8"@,
        },
{
    let decoded = match utf8_text(input) {
        Some(t) => t,
        None => {
            let mut message = String::new();
            message.append("stream did not contain valid UTF-8");
            assert(message@ =~= "stream did not contain valid UTF-8"@);
            return Err(message);
        },
    };
    let pieces = text::split(decoded.as_str(), '\n');
    let ghost all = text::split_on(decoded@, '\n');
    proof {
        text::lemma_split_pieces(decoded@, '\n');
    }
    let mut reader = Reader { groups: Vec::new(), keepers: Vec::new(), targets: Vec::new() };
    let ghost ended = all.drop_last().map_values(
        |piece: Seq<char>| without_return(without_return(piece)),
    );
    proof {
        assert(pieces@.len() == all.len()) by {
            assert(text::texts(pieces@).len() == all.len());
        }
        assert(reader.reading() =~= Reading::none());
        assert(ended.take(0) =~= Seq::<Seq<char>>::empty());
    }
    let count = pieces.len() - 1;
    for i in 0..count
        invariant
            count == pieces@.len() - 1,
            text::texts(pieces@) == all,
            ended == all.drop_last().map_values(
                |piece: Seq<char>| without_return(without_return(piece)),
            ),
            reader.reading() == Reading::none().with_lines(ended.take(i as int)),
    {
        let line = strip_return(strip_return(pieces[i].clone()));
        proof {
            assert(all[i as int] == pieces@[i as int]@);
            assert(line@ == ended[i as int]);
            assert(ended.take(i + 1).drop_last() =~= ended.take(i as int));
            assert(ended.take(i + 1).last() == line@);
        }
        reader.read_line(line);
    }
    assert(ended.take(ended.len() as int) =~= ended);
    let last = pieces[count].clone();
    assert(all.last() == last@);
    if !last.as_str().is_empty() {
        let line = strip_return(last);
        assert(ended.push(line@).drop_last() =~= ended);
        reader.read_line(line);
    }
    reader.flush();
    Ok(reader.groups)
}

impl Reading {
    /// Whether each block that is complete names something to delete.
    spec fn has_targets(self) -> bool {
        forall|i: int| 0 <= i < self.done.len() ==> (#[trigger] self.done[i]).1.len() > 0
    }

    proof fn lemma_has_targets(self, lines: Seq<Seq<char>>)
        requires
            self.has_targets(),
        ensures
            self.with_lines(lines).has_targets(),
            self.with_lines(lines).flushed().has_targets(),
        decreases lines.len(),
    {
        if lines.len() > 0 {
            self.lemma_has_targets(lines.drop_last());
        }
    }
}

/// Every group that a list names has something to delete.
pub proof fn lemma_listed_have_targets(text: Seq<char>, i: int)
    requires
        0 <= i < listed_groups(text).len(),
    ensures
        listed_groups(text)[i].1.len() > 0,
{
    Reading::none().lemma_has_targets(lines_of(text));
}

/// What becomes of a file to delete.
pub enum DeleteMsg {
    /// The path, and the size that was freed or what went wrong.
    Done(String, Result<u64, String>),
    Finished,
}

} // verus!
