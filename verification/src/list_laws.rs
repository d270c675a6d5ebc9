//! What holds of lists of files to delete: how each line is read, and that a list
//! that was written is read back as it was.
use vstd::prelude::*;

use crate::deletion::{self, GroupPaths, Reading};
use crate::removal;
use crate::text;

verus! {

/// Whether a text fits on a line: no line ends within it, and no carriage return
/// ends it.
pub open spec fn fits_line(line: Seq<char>) -> bool {
    !line.contains('\n') && !(line.len() > 0 && line.last() == '\r')
}

/// Whether the paths of a group can be kept in a list: each fits on a line, and
/// no path to delete is empty or reads as a comment.
pub open spec fn writable(group: GroupPaths) -> bool {
    &&& forall|i: int| 0 <= i < group.0.len() ==> fits_line(#[trigger] group.0[i])
    &&& forall|i: int| #![trigger group.1[i]]
        0 <= i < group.1.len() ==> fits_line(group.1[i]) && group.1[i].len() > 0 && group.1[i][0]
            != '#'
}

/// Whether a group has something to delete.
pub open spec fn has_target(group: GroupPaths) -> bool {
    group.1.len() > 0
}

/// Whether a group names copies to keep but nothing to delete.
pub open spec fn keeps_only(group: GroupPaths) -> bool {
    group.1.len() == 0 && group.0.len() > 0
}

/// Whether some groups can be told apart in a list: where one names copies to keep
/// but nothing to delete, nothing is to be deleted after it.
pub open spec fn told_apart(groups: Seq<GroupPaths>) -> bool {
    forall|i: int, j: int|
        0 <= i < j < groups.len() && keeps_only(#[trigger] groups[i]) ==> !has_target(
            #[trigger] groups[j],
        )
}

/// Whether a text ends lines: with or without a carriage return.
pub open spec fn ends_lines(ending: Seq<char>) -> bool {
    ending == seq!['\n'] || ending == seq!['\r', '\n']
}

proof fn lemma_split_extend(text: Seq<char>, separator: char, piece: Seq<char>)
    requires
        !piece.contains(separator),
    ensures
        ({
            let before = text::split_on(text, separator);
            text::split_on(text + piece, separator) == before.drop_last().push(
                before.last() + piece,
            )
        }),
    decreases piece.len(),
{
    let before = text::split_on(text, separator);
    text::lemma_split_pieces(text, separator);
    if piece.len() == 0 {
        assert(text + piece =~= text);
        assert(before.last() + piece =~= before.last());
        assert(before.drop_last().push(before.last()) =~= before);
    } else {
        let shorter = piece.drop_last();
        assert(piece.last() != separator);
        assert(!shorter.contains(separator)) by {
            if shorter.contains(separator) {
                let k = choose|k: int| 0 <= k < shorter.len() && shorter[k] == separator;
                assert(piece[k] == separator);
            }
        }
        lemma_split_extend(text, separator, shorter);
        assert((text + piece).drop_last() =~= text + shorter);
        assert((text + piece).last() == piece.last());
        let middle = text::split_on(text + shorter, separator);
        assert(middle.drop_last() =~= before.drop_last());
        assert(middle.last().push(piece.last()) =~= before.last() + piece);
    }
}

/// The lines of a text that was made of lines.
proof fn lemma_lines_of_ended(lines: Seq<Seq<char>>, ending: Seq<char>)
    requires
        ends_lines(ending),
        forall|i: int| 0 <= i < lines.len() ==> fits_line(#[trigger] lines[i]),
    ensures
        text::split_on(deletion::ended(lines, ending), '\n') == lines.map_values(
            |line: Seq<char>| line + ending.drop_last(),
        ).push(Seq::empty()),
    decreases lines.len(),
{
    let tail = ending.drop_last();
    let closed = |line: Seq<char>| line + tail;
    if lines.len() == 0 {
        assert(lines.map_values(closed).push(Seq::empty()) =~= seq![Seq::<char>::empty()]);
    } else {
        let rest = lines.drop_last();
        assert forall|i: int| 0 <= i < rest.len() implies fits_line(#[trigger] rest[i]) by {
            assert(rest[i] == lines[i]);
        }
        lemma_lines_of_ended(rest, ending);
        let start = deletion::ended(rest, ending);
        let last = lines.last();
        assert(last == lines[lines.len() - 1]);
        let piece = last + tail;
        assert(!piece.contains('\n')) by {
            if piece.contains('\n') {
                let k = choose|k: int| 0 <= k < piece.len() && piece[k] == '\n';
                if k < last.len() {
                    assert(last[k] == '\n');
                }
            }
        }
        lemma_split_extend(start, '\n', piece);
        let whole = deletion::ended(lines, ending);
        assert(whole =~= (start + piece).push('\n'));
        assert(whole.drop_last() =~= start + piece);
        let before = text::split_on(start, '\n');
        assert(before.drop_last() =~= rest.map_values(closed));
        assert(before.last() + piece =~= piece);
        assert(lines.map_values(closed) =~= rest.map_values(closed).push(piece));
    }
}

/// A text made of lines is read as those lines.
pub proof fn lemma_lines_read_back(lines: Seq<Seq<char>>, ending: Seq<char>)
    requires
        ends_lines(ending),
        forall|i: int| 0 <= i < lines.len() ==> fits_line(#[trigger] lines[i]),
    ensures
        deletion::lines_of(deletion::ended(lines, ending)) == lines,
{
    lemma_lines_of_ended(lines, ending);
    let tail = ending.drop_last();
    let pieces = text::split_on(deletion::ended(lines, ending), '\n');
    let whole = pieces.drop_last().map_values(
        |piece: Seq<char>| deletion::without_return(deletion::without_return(piece)),
    );
    assert forall|i: int| 0 <= i < lines.len() implies whole[i] == lines[i] by {
        let piece = lines[i] + tail;
        assert(pieces[i] == piece);
        assert(fits_line(lines[i]));
        if tail.len() == 0 {
            assert(piece =~= lines[i]);
        } else {
            assert(piece.last() == '\r');
            assert(piece.drop_last() =~= lines[i]);
        }
        assert(deletion::without_return(lines[i]) == lines[i]);
    }
    assert(whole =~= lines);
}

proof fn lemma_with_lines(start: Reading, a: Seq<Seq<char>>, b: Seq<Seq<char>>)
    ensures
        start.with_lines(a + b) == start.with_lines(a).with_lines(b),
    decreases b.len(),
{
    if b.len() == 0 {
        assert(a + b =~= a);
    } else {
        lemma_with_lines(start, a, b.drop_last());
        assert((a + b).drop_last() =~= a + b.drop_last());
        assert((a + b).last() == b.last());
    }
}

proof fn lemma_decimal(n: nat)
    ensures
        text::decimal(n).len() >= 1,
        forall|i: int|
            0 <= i < text::decimal(n).len() ==> '0' <= #[trigger] text::decimal(n)[i] <= '9',
    decreases n,
{
    if n >= 10 {
        lemma_decimal(n / 10);
    }
}

/// Whether a line says nothing.
spec fn is_remark(line: Seq<char>) -> bool {
    line.len() > 2 && line[0] == '#' && line[2] != 'c'
}

proof fn lemma_head(count: nat)
    ensures
        Reading::none().with_lines(deletion::head_lines(count)) == Reading::none(),
        forall|i: int|
            0 <= i < deletion::head_lines(count).len() ==> fits_line(
                #[trigger] deletion::head_lines(count)[i],
            ),
{
    reveal_strlit("# Liste de suppression générée par Duplicate Finder");
    reveal_strlit("# ");
    reveal_strlit(" fichier(s) à supprimer.");
    reveal_strlit("# Blocs : lignes « # conserver : » = exemplaire gardé, puis fichiers à supprimer.");
    reveal_strlit(
        "# Exécution : Duplicate Finder > « Exécuter une liste… », qui revérifie chaque fichier.",
    );
    reveal_strlit(
        "# (Linux, sans vérification : grep -v -e '^#' -e '^$' liste.txt | xargs -d '\\n' rm --)",
    );
    reveal_strlit("# conserver : ");
    lemma_decimal(count);
    let lines = deletion::head_lines(count);
    assert forall|i: int| 0 <= i < lines.len() implies is_remark(#[trigger] lines[i]) && fits_line(
        lines[i],
    ) by {
        if i == 1 {
            let digits = text::decimal(count);
            assert(lines[1][2] == digits[0]);
            assert forall|k: int| 0 <= k < lines[1].len() implies lines[1][k] != '\n' by {
                if 2 <= k < 2 + digits.len() {
                    assert(lines[1][k] == digits[k - 2]);
                }
            }
        }
    }
    lemma_remarks(lines);
}

proof fn lemma_remarks(lines: Seq<Seq<char>>)
    requires
        forall|i: int| 0 <= i < lines.len() ==> is_remark(#[trigger] lines[i]),
    ensures
        Reading::none().with_lines(lines) == Reading::none(),
    decreases lines.len(),
{
    if lines.len() > 0 {
        let rest = lines.drop_last();
        assert forall|i: int| 0 <= i < rest.len() implies is_remark(#[trigger] rest[i]) by {
            assert(rest[i] == lines[i]);
        }
        lemma_remarks(rest);
        let line = lines.last();
        assert(is_remark(lines[lines.len() - 1]));
        reveal_strlit("# conserver : ");
        if text::begins_with(line, deletion::keep_prefix()) {
            assert(line.take(deletion::keep_prefix().len() as int)[2] == deletion::keep_prefix()[2]);
        }
    }
}

proof fn lemma_keepers(start: Reading, keepers: Seq<Seq<char>>)
    requires
        start.targets.len() == 0,
    ensures
        start.with_lines(deletion::keep_lines(keepers)) == (Reading {
            keepers: start.keepers + keepers,
            ..start
        }),
    decreases keepers.len(),
{
    reveal_strlit("# conserver : ");
    let lines = deletion::keep_lines(keepers);
    if keepers.len() == 0 {
        assert(start.keepers + keepers =~= start.keepers);
    } else {
        lemma_keepers(start, keepers.drop_last());
        assert(lines.drop_last() =~= deletion::keep_lines(keepers.drop_last()));
        let line = lines.last();
        let prefix = deletion::keep_prefix();
        assert(line == prefix + keepers.last());
        assert(line.take(prefix.len() as int) =~= prefix);
        assert(line.skip(prefix.len() as int) =~= keepers.last());
        assert((start.keepers + keepers.drop_last()).push(keepers.last()) =~= start.keepers
            + keepers);
    }
}

proof fn lemma_targets(start: Reading, targets: Seq<Seq<char>>)
    requires
        forall|i: int| #![trigger targets[i]]
            0 <= i < targets.len() ==> targets[i].len() > 0 && targets[i][0] != '#',
    ensures
        start.with_lines(targets) == (Reading { targets: start.targets + targets, ..start }),
    decreases targets.len(),
{
    if targets.len() == 0 {
        assert(start.targets + targets =~= start.targets);
    } else {
        let rest = targets.drop_last();
        assert forall|i: int| #![trigger rest[i]] 0 <= i < rest.len() implies rest[i].len() > 0
            && rest[i][0] != '#' by {
            assert(rest[i] == targets[i]);
        }
        lemma_targets(start, rest);
        let line = targets.last();
        assert(line == targets[targets.len() - 1]);
        reveal_strlit("# conserver : ");
        if text::begins_with(line, deletion::keep_prefix()) {
            assert(line.take(deletion::keep_prefix().len() as int)[0] == deletion::keep_prefix()[0]);
        }
        assert((start.targets + rest).push(line) =~= start.targets + targets);
    }
}

proof fn lemma_block(start: Reading, group: GroupPaths)
    requires
        writable(group),
    ensures
        ({
            let open = if start.targets.len() > 0 {
                start.flushed()
            } else {
                start
            };
            start.with_lines(deletion::block_lines(group)) == (Reading {
                done: open.done,
                keepers: open.keepers + group.0,
                targets: group.1,
            })
        }),
{
    let first = seq![Seq::<char>::empty()];
    let keepers = deletion::keep_lines(group.0);
    let open = if start.targets.len() > 0 {
        start.flushed()
    } else {
        start
    };
    lemma_with_lines(start, first + keepers, group.1);
    lemma_with_lines(start, first, keepers);
    assert(first.drop_last() =~= Seq::<Seq<char>>::empty());
    assert(start.with_lines(first.drop_last()) == start);
    assert(start.with_lines(first) == open);
    lemma_keepers(open, group.0);
    let kept = Reading { keepers: open.keepers + group.0, ..open };
    lemma_targets(kept, group.1);
    assert(kept.targets + group.1 =~= group.1);
}

proof fn lemma_blocks(groups: Seq<GroupPaths>)
    requires
        forall|i: int| 0 <= i < groups.len() ==> writable(#[trigger] groups[i]),
        told_apart(groups),
    ensures
        ({
            let read = Reading::none().with_lines(deletion::blocks_lines(groups));
            &&& read.flushed().done == groups.filter(|g: GroupPaths| has_target(g))
            &&& read.targets.len() == 0 && read.keepers.len() > 0 ==> exists|i: int|
                0 <= i < groups.len() && keeps_only(#[trigger] groups[i])
        }),
    decreases groups.len(),
{
    reveal(Seq::filter);
    let pred = |g: GroupPaths| has_target(g);
    if groups.len() == 0 {
        assert(Reading::none().flushed().done =~= groups.filter(pred));
    } else {
        let rest = groups.drop_last();
        let group = groups.last();
        assert forall|i: int| 0 <= i < rest.len() implies writable(#[trigger] rest[i]) by {
            assert(rest[i] == groups[i]);
        }
        assert forall|i: int, j: int|
            0 <= i < j < rest.len() && keeps_only(#[trigger] rest[i]) implies !has_target(
            #[trigger] rest[j],
        ) by {
            assert(rest[i] == groups[i] && rest[j] == groups[j]);
        }
        lemma_blocks(rest);
        assert(writable(groups[groups.len() - 1]));
        let lines = deletion::blocks_lines(rest);
        let before = Reading::none().with_lines(lines);
        lemma_with_lines(Reading::none(), lines, deletion::block_lines(group));
        lemma_block(before, group);
        let read = Reading::none().with_lines(deletion::blocks_lines(groups));
        if before.targets.len() == 0 && before.keepers.len() > 0 {
            let i = choose|i: int| 0 <= i < rest.len() && keeps_only(#[trigger] rest[i]);
            assert(keeps_only(groups[i]));
            assert(!has_target(groups[groups.len() - 1]));
        } else {
            assert(read.keepers =~= group.0);
            if read.targets.len() == 0 && read.keepers.len() > 0 {
                assert(keeps_only(groups[groups.len() - 1]));
            }
        }
        assert(read.flushed().done =~= groups.filter(pred));
    }
}

proof fn lemma_blocks_fit(groups: Seq<GroupPaths>)
    requires
        forall|i: int| 0 <= i < groups.len() ==> writable(#[trigger] groups[i]),
    ensures
        forall|i: int|
            0 <= i < deletion::blocks_lines(groups).len() ==> fits_line(
                #[trigger] deletion::blocks_lines(groups)[i],
            ),
    decreases groups.len(),
{
    if groups.len() > 0 {
        let rest = groups.drop_last();
        assert forall|i: int| 0 <= i < rest.len() implies writable(#[trigger] rest[i]) by {
            assert(rest[i] == groups[i]);
        }
        lemma_blocks_fit(rest);
        let group = groups.last();
        assert(writable(groups[groups.len() - 1]));
        let before = deletion::blocks_lines(rest);
        let lines = deletion::blocks_lines(groups);
        let prefix = deletion::keep_prefix();
        reveal_strlit("# conserver : ");
        assert forall|i: int| 0 <= i < lines.len() implies fits_line(#[trigger] lines[i]) by {
            let at = i - before.len();
            if at < 0 {
                assert(lines[i] == before[i]);
            } else if at == 0 {
                assert(lines[i] =~= Seq::<char>::empty());
            } else if at <= group.0.len() {
                let keeper = group.0[at - 1];
                assert(fits_line(keeper));
                assert(lines[i] == prefix + keeper);
                assert forall|k: int| 0 <= k < lines[i].len() implies lines[i][k] != '\n' by {
                    if k >= prefix.len() {
                        assert(keeper[k - prefix.len()] == lines[i][k]);
                    }
                }
            } else {
                assert(lines[i] == group.1[at - 1 - group.0.len()]);
            }
        }
    }
}

/// Reading back what was written gives the groups that have something to delete,
/// with the same copies to keep, also where each line end has since been given a
/// carriage return.
pub proof fn lemma_written_list_read(groups: Seq<GroupPaths>, ending: Seq<char>)
    requires
        ends_lines(ending),
        forall|i: int| 0 <= i < groups.len() ==> writable(#[trigger] groups[i]),
        told_apart(groups),
    ensures
        deletion::listed_groups(deletion::ended(deletion::list_lines(groups), ending))
            == groups.filter(|g: GroupPaths| has_target(g)),
{
    let head = deletion::head_lines(deletion::targets_in(groups));
    let blocks = deletion::blocks_lines(groups);
    let lines = deletion::list_lines(groups);
    lemma_head(deletion::targets_in(groups));
    lemma_blocks_fit(groups);
    assert forall|i: int| 0 <= i < lines.len() implies fits_line(#[trigger] lines[i]) by {
        if i < head.len() {
            assert(lines[i] == head[i]);
        } else {
            assert(lines[i] == blocks[i - head.len()]);
        }
    }
    lemma_lines_read_back(lines, ending);
    lemma_with_lines(Reading::none(), head, blocks);
    lemma_blocks(groups);
}

/// Reading back what was written gives the same groups, where each has something
/// to delete, also where each line end has since been given a carriage return.
pub proof fn lemma_list_round_trip(groups: Seq<GroupPaths>, ending: Seq<char>)
    requires
        ends_lines(ending),
        forall|i: int| 0 <= i < groups.len() ==> writable(#[trigger] groups[i]),
        forall|i: int| 0 <= i < groups.len() ==> has_target(#[trigger] groups[i]),
    ensures
        deletion::listed_groups(deletion::ended(deletion::list_lines(groups), ending)) == groups,
        vstd::utf8::valid_utf8(
            vstd::utf8::encode_utf8(deletion::ended(deletion::list_lines(groups), ending)),
        ),
        deletion::listed_groups(
            vstd::utf8::decode_utf8(
                vstd::utf8::encode_utf8(deletion::ended(deletion::list_lines(groups), ending)),
            ),
        ) == groups,
{
    lemma_written_list_read(groups, ending);
    lemma_all_have_target(groups);
    let text = deletion::ended(deletion::list_lines(groups), ending);
    vstd::utf8::encode_utf8_decode_utf8(text);
    vstd::utf8::encode_utf8_valid_utf8(text);
}

proof fn lemma_all_have_target(groups: Seq<GroupPaths>)
    requires
        forall|i: int| 0 <= i < groups.len() ==> has_target(#[trigger] groups[i]),
    ensures
        groups.filter(|g: GroupPaths| has_target(g)) == groups,
    decreases groups.len(),
{
    reveal(Seq::filter);
    if groups.len() > 0 {
        let rest = groups.drop_last();
        assert forall|i: int| 0 <= i < rest.len() implies has_target(#[trigger] rest[i]) by {
            assert(rest[i] == groups[i]);
        }
        lemma_all_have_target(rest);
        assert(has_target(groups[groups.len() - 1]));
        assert(rest.push(groups.last()) =~= groups);
    } else {
        assert(groups.filter(|g: GroupPaths| has_target(g)) =~= groups);
    }
}

// --------------------------------------------------------------- line by line

/// Whether a line names a file to delete.
pub open spec fn names_target(line: Seq<char>) -> bool {
    line.len() > 0 && line[0] != '#'
}

/// Whether a line is a remark: it begins with `#` and names no copy to keep.
pub open spec fn is_remark_line(line: Seq<char>) -> bool {
    line.len() > 0 && line[0] == '#' && !text::begins_with(line, deletion::keep_prefix())
}

/// Whether a copy to keep is named by one of some lines.
pub open spec fn named_by(keeper: Seq<char>, lines: Seq<Seq<char>>) -> bool {
    exists|i: int|
        0 <= i < lines.len() && #[trigger] text::begins_with(lines[i], deletion::keep_prefix())
            && keeper == lines[i].skip(deletion::keep_prefix().len() as int)
}

/// Whether all copies to keep of some groups are named by some lines.
pub open spec fn all_named_by(groups: Seq<GroupPaths>, lines: Seq<Seq<char>>) -> bool {
    forall|g: int, k: int|
        0 <= g < groups.len() && 0 <= k < groups[g].0.len() ==> #[trigger] named_by(
            groups[g].0[k],
            lines,
        )
}

proof fn lemma_prefix_is_remark(line: Seq<char>)
    ensures
        text::begins_with(line, deletion::keep_prefix()) ==> line.len() > 0 && line[0] == '#',
{
    reveal_strlit("# conserver : ");
    if text::begins_with(line, deletion::keep_prefix()) {
        assert(line.take(deletion::keep_prefix().len() as int)[0] == deletion::keep_prefix()[0]);
    }
}

proof fn lemma_flushed_targets(read: Reading)
    ensures
        removal::all_targets(read.flushed().done) == removal::all_targets(read.done) + read.targets,
{
    if read.targets.len() > 0 {
        assert(read.flushed().done.drop_last() =~= read.done);
    } else {
        assert(removal::all_targets(read.done) + read.targets =~= removal::all_targets(read.done));
    }
}

proof fn lemma_targets_read(lines: Seq<Seq<char>>)
    ensures
        ({
            let read = Reading::none().with_lines(lines);
            removal::all_targets(read.done) + read.targets == lines.filter(
                |line: Seq<char>| names_target(line),
            )
        }),
    decreases lines.len(),
{
    reveal(Seq::filter);
    let pred = |line: Seq<char>| names_target(line);
    if lines.len() == 0 {
        assert(removal::all_targets(Seq::<GroupPaths>::empty()) + Seq::<Seq<char>>::empty()
            =~= lines.filter(pred));
    } else {
        let line = lines.last();
        let before = Reading::none().with_lines(lines.drop_last());
        lemma_targets_read(lines.drop_last());
        lemma_flushed_targets(before);
        lemma_prefix_is_remark(line);
        let read = Reading::none().with_lines(lines);
        let earlier = removal::all_targets(before.done);
        if names_target(line) {
            assert(earlier + before.targets.push(line) =~= (earlier + before.targets).push(line));
        } else if before.targets.len() > 0 && (line.len() == 0 || text::begins_with(
            line,
            deletion::keep_prefix(),
        )) {
            assert(removal::all_targets(before.flushed().done) + Seq::<Seq<char>>::empty()
                =~= earlier + before.targets);
        }
    }
}

/// The files to delete that a list names, one after the other, are its lines that
/// are not empty and do not begin with `#`.
pub proof fn lemma_targets_are_lines(text: Seq<char>)
    ensures
        removal::all_targets(deletion::listed_groups(text)) == deletion::lines_of(text).filter(
            |line: Seq<char>| names_target(line),
        ),
{
    let lines = deletion::lines_of(text);
    lemma_targets_read(lines);
    lemma_flushed_targets(Reading::none().with_lines(lines));
}

proof fn lemma_keepers_read(lines: Seq<Seq<char>>)
    ensures
        ({
            let read = Reading::none().with_lines(lines);
            &&& all_named_by(read.done, lines)
            &&& all_named_by(read.flushed().done, lines)
            &&& forall|k: int|
                0 <= k < read.keepers.len() ==> #[trigger] named_by(read.keepers[k], lines)
        }),
    decreases lines.len(),
{
    let read = Reading::none().with_lines(lines);
    if lines.len() > 0 {
        let rest = lines.drop_last();
        let line = lines.last();
        let before = Reading::none().with_lines(rest);
        lemma_keepers_read(rest);
        lemma_prefix_is_remark(line);
        assert forall|keeper: Seq<char>| #[trigger] named_by(keeper, rest) implies named_by(
            keeper,
            lines,
        ) by {
            let i = choose|i: int|
                0 <= i < rest.len() && #[trigger] text::begins_with(
                    rest[i],
                    deletion::keep_prefix(),
                ) && keeper == rest[i].skip(deletion::keep_prefix().len() as int);
            assert(rest[i] == lines[i]);
            assert(text::begins_with(lines[i], deletion::keep_prefix()));
        }
        assert forall|g: int, k: int|
            0 <= g < read.done.len() && 0 <= k < read.done[g].0.len() implies #[trigger] named_by(
            read.done[g].0[k],
            lines,
        ) by {
            if g < before.done.len() {
                assert(named_by(before.done[g].0[k], rest));
            } else {
                assert(named_by(before.flushed().done[g].0[k], rest));
            }
        }
        assert forall|k: int| 0 <= k < read.keepers.len() implies #[trigger] named_by(
            read.keepers[k],
            lines,
        ) by {
            if text::begins_with(line, deletion::keep_prefix()) && k == read.keepers.len() - 1 {
                assert(text::begins_with(lines[lines.len() - 1], deletion::keep_prefix()));
            } else {
                assert(named_by(before.keepers[k], rest));
            }
        }
    }
    assert forall|g: int, k: int|
        0 <= g < read.flushed().done.len() && 0 <= k
            < read.flushed().done[g].0.len() implies #[trigger] named_by(
        read.flushed().done[g].0[k],
        lines,
    ) by {
        if g < read.done.len() {
            assert(named_by(read.done[g].0[k], lines));
        } else {
            assert(named_by(read.keepers[k], lines));
        }
    }
}

/// Every copy to keep that a list names is one of its lines without the prefix.
pub proof fn lemma_keepers_are_lines(text: Seq<char>)
    ensures
        all_named_by(deletion::listed_groups(text), deletion::lines_of(text)),
{
    lemma_keepers_read(deletion::lines_of(text));
}

/// A remark put in between any two lines changes nothing.
pub proof fn lemma_remark_ignored(
    before: Seq<Seq<char>>,
    remark: Seq<char>,
    after: Seq<Seq<char>>,
)
    requires
        is_remark_line(remark),
    ensures
        Reading::none().with_lines(before + seq![remark] + after) == Reading::none().with_lines(
            before + after,
        ),
{
    let line = seq![remark];
    lemma_with_lines(Reading::none(), before + line, after);
    lemma_with_lines(Reading::none(), before, line);
    lemma_with_lines(Reading::none(), before, after);
    let start = Reading::none().with_lines(before);
    assert(line.drop_last() =~= Seq::<Seq<char>>::empty());
    assert(start.with_lines(line.drop_last()) == start);
    assert(start.with_lines(line) == start);
}

/// A remark put in between any two lines of a list leaves the groups that it names
/// as they were.
pub proof fn lemma_remark_in_list(
    before: Seq<Seq<char>>,
    remark: Seq<char>,
    after: Seq<Seq<char>>,
    ending: Seq<char>,
)
    requires
        ends_lines(ending),
        is_remark_line(remark),
        fits_line(remark),
        forall|i: int| 0 <= i < before.len() ==> fits_line(#[trigger] before[i]),
        forall|i: int| 0 <= i < after.len() ==> fits_line(#[trigger] after[i]),
    ensures
        deletion::listed_groups(deletion::ended(before + seq![remark] + after, ending))
            == deletion::listed_groups(deletion::ended(before + after, ending)),
{
    let with = before + seq![remark] + after;
    let without = before + after;
    assert forall|i: int| 0 <= i < with.len() implies fits_line(#[trigger] with[i]) by {
        if i < before.len() {
            assert(with[i] == before[i]);
        } else if i > before.len() {
            assert(with[i] == after[i - before.len() - 1]);
        }
    }
    assert forall|i: int| 0 <= i < without.len() implies fits_line(#[trigger] without[i]) by {
        if i < before.len() {
            assert(without[i] == before[i]);
        } else {
            assert(without[i] == after[i - before.len()]);
        }
    }
    lemma_lines_read_back(with, ending);
    lemma_lines_read_back(without, ending);
    lemma_remark_ignored(before, remark, after);
}

} // verus!
