//! How a list of files to delete is read, told by what its lines are made of.
use vstd::prelude::*;

use crate::counting;
use crate::deletion::{self, GroupPaths, Reading};
use crate::intake;
use crate::text;

verus! {

/// The groups that some lines name.
pub open spec fn blocks(lines: Seq<Seq<char>>) -> Seq<GroupPaths> {
    Reading::none().with_lines(lines).flushed().done
}

/// A list is read line by line.
pub proof fn lemma_read_by_lines(text: Seq<char>)
    ensures
        deletion::listed_groups(text) == blocks(deletion::lines_of(text)),
{
}

/// Whether a line names a file to delete.
pub open spec fn is_target(line: Seq<char>) -> bool {
    line.len() > 0 && line[0] != '#'
}

/// The line that names a copy to keep.
pub open spec fn keep_line(path: Seq<char>) -> Seq<char> {
    "# conserver : "@ + path
}

proof fn lemma_keep_line(path: Seq<char>)
    ensures
        text::begins_with(keep_line(path), deletion::keep_prefix()),
        keep_line(path).skip(deletion::keep_prefix().len() as int) == path,
        keep_line(path).len() > 0,
        keep_line(path)[0] == '#',
{
    reveal_strlit("# conserver : ");
    let line = keep_line(path);
    assert(line.take(deletion::keep_prefix().len() as int) =~= deletion::keep_prefix());
    assert(line.skip(deletion::keep_prefix().len() as int) =~= path);
}

proof fn lemma_target_line(line: Seq<char>)
    requires
        is_target(line),
    ensures
        !text::begins_with(line, deletion::keep_prefix()),
{
    reveal_strlit("# conserver : ");
    if text::begins_with(line, deletion::keep_prefix()) {
        assert(line.take(deletion::keep_prefix().len() as int)[0] == '#');
    }
}

proof fn lemma_lines_apart(from: Reading, a: Seq<Seq<char>>, b: Seq<Seq<char>>)
    ensures
        from.with_lines(a + b) == from.with_lines(a).with_lines(b),
    decreases b.len(),
{
    if b.len() == 0 {
        assert(a + b =~= a);
    } else {
        lemma_lines_apart(from, a, b.drop_last());
        assert((a + b).drop_last() =~= a + b.drop_last());
        assert((a + b).last() == b.last());
    }
}

proof fn lemma_one_line(from: Reading, line: Seq<char>)
    ensures
        from.with_lines(seq![line]) == from.with_line(line),
{
    assert(seq![line].drop_last() =~= Seq::<Seq<char>>::empty());
    assert(from.with_lines(Seq::<Seq<char>>::empty()) == from);
}

/// What was read before does not bear on what a block that begins is read as.
proof fn lemma_done_apart(from: Reading, more: Seq<GroupPaths>, lines: Seq<Seq<char>>)
    ensures
        ({
            let with = Reading { done: more + from.done, ..from };
            &&& with.with_lines(lines).done == more + from.with_lines(lines).done
            &&& with.with_lines(lines).keepers == from.with_lines(lines).keepers
            &&& with.with_lines(lines).targets == from.with_lines(lines).targets
            &&& with.with_lines(lines).flushed().done == more + from.with_lines(
                lines,
            ).flushed().done
        }),
    decreases lines.len(),
{
    let with = Reading { done: more + from.done, ..from };
    if lines.len() > 0 {
        lemma_done_apart(from, more, lines.drop_last());
        let x = from.with_lines(lines.drop_last());
        let y = with.with_lines(lines.drop_last());
        assert(y =~= Reading { done: more + x.done, ..x });
        assert((more + x.done).push((x.keepers, x.targets)) =~= more + x.done.push(
            (x.keepers, x.targets),
        ));
    }
    let x = from.with_lines(lines);
    let y = with.with_lines(lines);
    assert((more + x.done).push((x.keepers, x.targets)) =~= more + x.done.push(
        (x.keepers, x.targets),
    ));
}

proof fn lemma_open_targets(lines: Seq<Seq<char>>)
    requires
        lines.len() > 0,
        is_target(lines.last()),
    ensures
        Reading::none().with_lines(lines).targets.len() > 0,
{
    lemma_target_line(lines.last());
}

/// An empty line after a file to delete ends a block: what stands before it and what
/// stands after it are read by themselves.
pub proof fn lemma_empty_line_ends(a: Seq<Seq<char>>, b: Seq<Seq<char>>)
    requires
        a.len() > 0,
        is_target(a.last()),
    ensures
        blocks(a + seq![Seq::<char>::empty()] + b) == blocks(a) + blocks(b),
{
    let none = Reading::none();
    let gap = seq![Seq::<char>::empty()];
    let before = none.with_lines(a);
    lemma_open_targets(a);
    lemma_lines_apart(none, a + gap, b);
    lemma_lines_apart(none, a, gap);
    lemma_one_line(before, Seq::<char>::empty());
    let ended = before.flushed();
    assert(none.with_lines(a + gap) == ended);
    assert(ended.done + none.done =~= ended.done);
    assert(ended =~= Reading { done: ended.done + none.done, ..none });
    lemma_done_apart(none, ended.done, b);
}

/// A copy to keep that is named after a file to delete begins a block.
pub proof fn lemma_keeper_begins(a: Seq<Seq<char>>, path: Seq<char>, b: Seq<Seq<char>>)
    requires
        a.len() > 0,
        is_target(a.last()),
    ensures
        blocks(a + seq![keep_line(path)] + b) == blocks(a) + blocks(seq![keep_line(path)] + b),
{
    let none = Reading::none();
    let line = seq![keep_line(path)];
    let before = none.with_lines(a);
    lemma_keep_line(path);
    lemma_open_targets(a);
    lemma_lines_apart(none, a + line, b);
    lemma_lines_apart(none, a, line);
    lemma_lines_apart(none, line, b);
    lemma_one_line(before, keep_line(path));
    lemma_one_line(none, keep_line(path));
    let ended = before.flushed();
    let first = none.with_lines(line);
    assert(none.with_lines(a + line) =~= Reading { done: ended.done + first.done, ..first });
    lemma_done_apart(first, ended.done, b);
}

/// Whether each of some lines names a copy to keep, is a remark or is empty.
pub open spec fn no_target(lines: Seq<Seq<char>>) -> bool {
    forall|i: int| 0 <= i < lines.len() ==> !is_target(#[trigger] lines[i])
}

proof fn lemma_no_target(from: Reading, lines: Seq<Seq<char>>)
    requires
        from.targets.len() == 0,
        no_target(lines),
    ensures
        from.with_lines(lines).targets.len() == 0,
        from.with_lines(lines).done == from.done,
    decreases lines.len(),
{
    if lines.len() > 0 {
        let rest = lines.drop_last();
        assert forall|i: int| 0 <= i < rest.len() implies !is_target(#[trigger] rest[i]) by {
            assert(rest[i] == lines[i]);
        }
        lemma_no_target(from, rest);
        assert(!is_target(lines[lines.len() - 1]));
    }
}

/// An empty line before any file to delete says nothing.
pub proof fn lemma_empty_line_ignored(a: Seq<Seq<char>>, b: Seq<Seq<char>>)
    requires
        no_target(a),
    ensures
        blocks(a + seq![Seq::<char>::empty()] + b) == blocks(a + b),
{
    let none = Reading::none();
    let gap = seq![Seq::<char>::empty()];
    let before = none.with_lines(a);
    lemma_no_target(none, a);
    lemma_lines_apart(none, a + gap, b);
    lemma_lines_apart(none, a, gap);
    lemma_lines_apart(none, a, b);
    lemma_one_line(before, Seq::<char>::empty());
}

proof fn lemma_keepers_then(keepers: Seq<Seq<char>>)
    ensures
        Reading::none().with_lines(
            Seq::new(keepers.len(), |i: int| keep_line(keepers[i])),
        ) == (Reading { done: Seq::empty(), keepers, targets: Seq::empty() }),
    decreases keepers.len(),
{
    let lines = Seq::new(keepers.len(), |i: int| keep_line(keepers[i]));
    if keepers.len() == 0 {
        assert(Reading::none().with_lines(lines) =~= Reading {
            done: Seq::empty(),
            keepers,
            targets: Seq::empty(),
        });
    } else {
        let rest = keepers.drop_last();
        lemma_keepers_then(rest);
        lemma_keep_line(keepers.last());
        assert(lines.drop_last() =~= Seq::new(rest.len(), |i: int| keep_line(rest[i])));
        assert(rest.push(keepers.last()) =~= keepers);
    }
}

proof fn lemma_targets_then(from: Reading, targets: Seq<Seq<char>>)
    requires
        forall|i: int| 0 <= i < targets.len() ==> is_target(#[trigger] targets[i]),
    ensures
        from.with_lines(targets) == (Reading { targets: from.targets + targets, ..from }),
    decreases targets.len(),
{
    if targets.len() == 0 {
        assert(from.targets + targets =~= from.targets);
    } else {
        let rest = targets.drop_last();
        assert forall|i: int| 0 <= i < rest.len() implies is_target(#[trigger] rest[i]) by {
            assert(rest[i] == targets[i]);
        }
        lemma_targets_then(from, rest);
        assert(is_target(targets[targets.len() - 1]));
        lemma_target_line(targets.last());
        assert((from.targets + rest).push(targets.last()) =~= from.targets + targets);
    }
}

/// Copies to keep and then files to delete are read as one group, or as none where there
/// is nothing to delete.
pub proof fn lemma_one_block(keepers: Seq<Seq<char>>, targets: Seq<Seq<char>>)
    requires
        forall|i: int| 0 <= i < targets.len() ==> is_target(#[trigger] targets[i]),
    ensures
        blocks(Seq::new(keepers.len(), |i: int| keep_line(keepers[i])) + targets)
            == if targets.len() > 0 {
            seq![(keepers, targets)]
        } else {
            Seq::<GroupPaths>::empty()
        },
{
    let lines = Seq::new(keepers.len(), |i: int| keep_line(keepers[i]));
    let none = Reading::none();
    lemma_keepers_then(keepers);
    lemma_lines_apart(none, lines, targets);
    let open = none.with_lines(lines);
    lemma_targets_then(open, targets);
    assert(open.targets + targets =~= targets);
    assert(blocks(lines + targets) =~= if targets.len() > 0 {
        seq![(keepers, targets)]
    } else {
        Seq::<GroupPaths>::empty()
    });
}

/// How many files there are to delete is how many the groups have together; how many lack
/// a copy that stays is how many those groups have that name none.
pub proof fn lemma_counted(groups: Seq<GroupPaths>)
    ensures
        deletion::targets_in(groups) == counting::total(
            groups.len(),
            |i: int| groups[i].1.len(),
        ),
        intake::unsupported(groups) == counting::total(
            groups.len(),
            |i: int|
                if groups[i].0.len() == 0 {
                    groups[i].1.len()
                } else {
                    0
                },
        ),
    decreases groups.len(),
{
    if groups.len() > 0 {
        let rest = groups.drop_last();
        lemma_counted(rest);
        counting::lemma_total_same(
            rest.len(),
            |i: int| rest[i].1.len(),
            |i: int| groups[i].1.len(),
        );
        counting::lemma_total_same(
            rest.len(),
            |i: int|
                if rest[i].0.len() == 0 {
                    rest[i].1.len()
                } else {
                    0
                },
            |i: int|
                if groups[i].0.len() == 0 {
                    groups[i].1.len()
                } else {
                    0
                },
        );
    }
}

/// The lines of a text: one more line follows a line end and stands before another; what
/// stands after the last line end is a line too, if it is anything.
pub proof fn lemma_lines(text: Seq<char>, line: Seq<char>)
    requires
        !line.contains('\n'),
        !line.contains('\r'),
        text.len() == 0 || text[text.len() - 1] == '\n',
    ensures
        deletion::lines_of(Seq::<char>::empty()).len() == 0,
        deletion::lines_of(text + line + seq!['\n']) == deletion::lines_of(text).push(line),
        line.len() > 0 ==> deletion::lines_of(text + line) == deletion::lines_of(text).push(line),
{
    let closed = |piece: Seq<char>| deletion::without_return(deletion::without_return(piece));
    let none = Seq::<char>::empty();
    assert(text::split_on(none, '\n') =~= seq![none]);
    assert(deletion::lines_of(none) =~= Seq::<Seq<char>>::empty()) by {
        assert(seq![none].drop_last() =~= Seq::<Seq<char>>::empty());
    }
    text::lemma_split_pieces(text, '\n');
    let pieces = text::split_on(text, '\n');
    assert(pieces.last().len() == 0) by {
        if text.len() > 0 {
            assert(text.last() == '\n');
        } else {
            assert(text =~= none);
        }
    }
    assert(deletion::lines_of(text) == pieces.drop_last().map_values(closed));
    assert(deletion::without_return(line) == line && closed(line) == line) by {
        if line.len() > 0 {
            assert(line.contains(line.last()));
        }
    }
    let more = pieces.drop_last().push(line);
    assert(text::split_on(text + line, '\n') == more) by {
        if text.len() == 0 {
            assert(text + line =~= line);
            text::lemma_split_single(line, '\n');
            assert(pieces =~= seq![none]);
            assert(more =~= seq![line]);
        } else {
            let start = text.drop_last();
            assert(start.push('\n') =~= text);
            text::lemma_split_append(start, '\n', line);
            let before = text::split_on(start, '\n');
            assert(pieces =~= before.push(none));
            assert(more =~= before.push(line));
        }
    }
    assert(more.drop_last() =~= pieces.drop_last());
    if line.len() > 0 {
        assert(deletion::lines_of(text + line) =~= deletion::lines_of(text).push(line));
    }
    let whole = text + line + seq!['\n'];
    assert(whole.drop_last() =~= text + line);
    assert(text::split_on(whole, '\n') =~= more.push(none));
    assert(more.push(none).drop_last() =~= more);
    assert(more.map_values(closed) =~= pieces.drop_last().map_values(closed).push(line));
}

/// A carriage return before a line end is no part of the line.
pub proof fn lemma_returns(text: Seq<char>, line: Seq<char>)
    requires
        !line.contains('\n'),
        !line.contains('\r'),
        text.len() == 0 || text[text.len() - 1] == '\n',
    ensures
        deletion::lines_of(text + line + seq!['\r', '\n']) == deletion::lines_of(text).push(line),
{
    let closed = |piece: Seq<char>| deletion::without_return(deletion::without_return(piece));
    let none = Seq::<char>::empty();
    text::lemma_split_pieces(text, '\n');
    let pieces = text::split_on(text, '\n');
    assert(pieces.last().len() == 0) by {
        if text.len() > 0 {
            assert(text.last() == '\n');
        } else {
            assert(text =~= none);
        }
    }
    let full = line.push('\r');
    assert(!full.contains('\n')) by {
        if full.contains('\n') {
            let k = full.index_of('\n');
            assert(line[k] == '\n');
        }
    }
    assert(full.drop_last() =~= line);
    assert(closed(full) == line) by {
        if line.len() > 0 {
            assert(line.contains(line.last()));
        }
    }
    let more = pieces.drop_last().push(full);
    assert(text::split_on(text + full, '\n') == more) by {
        if text.len() == 0 {
            assert(text + full =~= full);
            text::lemma_split_single(full, '\n');
            assert(text =~= none);
            assert(text::split_on(none, '\n') =~= seq![none]);
            assert(more =~= seq![full]);
        } else {
            let start = text.drop_last();
            assert(start.push('\n') =~= text);
            text::lemma_split_append(start, '\n', full);
            let before = text::split_on(start, '\n');
            assert(pieces =~= before.push(none));
            assert(more =~= before.push(full));
        }
    }
    let whole = text + line + seq!['\r', '\n'];
    assert(whole.drop_last() =~= text + full);
    assert(whole.last() == '\n');
    assert(text::split_on(whole, '\n') =~= more.push(none));
    assert(more.push(none).drop_last() =~= more);
    assert(more.map_values(closed) =~= pieces.drop_last().map_values(closed).push(line));
}

/// A list is written as five remarks, the second of which says how many files there are to
/// delete, and then for each group an empty line, a line for each copy that stays and one
/// for each file to delete; every line is ended.
pub proof fn lemma_written(groups: Seq<GroupPaths>, group: GroupPaths)
    ensures
        deletion::blocks_lines(Seq::<GroupPaths>::empty()).len() == 0,
        deletion::blocks_lines(groups.push(group)) == deletion::blocks_lines(groups) + seq![
            Seq::<char>::empty(),
        ] + Seq::new(group.0.len(), |i: int| keep_line(group.0[i])) + group.1,
        deletion::list_lines(groups).len() == 5 + deletion::blocks_lines(groups).len(),
        deletion::list_lines(groups).skip(5) == deletion::blocks_lines(groups),
        deletion::list_lines(groups)[1] == "# "@ + text::decimal(deletion::targets_in(groups))
            + " fichier(s) à supprimer."@,
        deletion::line_end() == seq!['\n'],
        deletion::list_lines(groups)[0] == "# Liste de suppression générée par Duplicate Finder"@,
        deletion::list_lines(groups)[2]
            == "# Blocs : lignes « # conserver : » = exemplaire gardé, puis fichiers à supprimer."@,
        deletion::list_lines(groups)[3]
            == "# Exécution : Duplicate Finder > « Exécuter une liste… », qui revérifie chaque fichier."@,
        deletion::list_lines(groups)[4]
            == "# (Linux, sans vérification : grep -v -e '^#' -e '^$' liste.txt | xargs -d '\\n' rm --)"@,
{
    assert(groups.push(group).drop_last() =~= groups);
    assert(deletion::keep_lines(group.0) =~= Seq::new(
        group.0.len(),
        |i: int| keep_line(group.0[i]),
    ));
    assert(deletion::blocks_lines(groups.push(group)) =~= deletion::blocks_lines(groups) + seq![
        Seq::<char>::empty(),
    ] + Seq::new(group.0.len(), |i: int| keep_line(group.0[i])) + group.1);
    assert(deletion::list_lines(groups).skip(5) =~= deletion::blocks_lines(groups));
}

/// Each line of a text is followed by its ending.
pub proof fn lemma_ended(lines: Seq<Seq<char>>, line: Seq<char>, ending: Seq<char>)
    ensures
        deletion::ended(Seq::<Seq<char>>::empty(), ending).len() == 0,
        deletion::ended(lines.push(line), ending) == deletion::ended(lines, ending) + line + ending,
{
    assert(lines.push(line).drop_last() =~= lines);
}

} // verus!
