//! What texts and paths are made of, told by pieces and places.
use vstd::prelude::*;

use crate::paths;
use crate::roots;
use crate::text;

verus! {

// ----------------------------------------------------------------------- texts

/// Some pieces with a separator between each two.
pub open spec fn with_between(pieces: Seq<Seq<char>>, separator: char) -> Seq<char>
    decreases pieces.len(),
{
    if pieces.len() == 0 {
        Seq::empty()
    } else if pieces.len() == 1 {
        pieces[0]
    } else {
        with_between(pieces.drop_last(), separator) + seq![separator] + pieces.last()
    }
}

proof fn lemma_between_grown(pieces: Seq<Seq<char>>, separator: char, c: char)
    requires
        pieces.len() > 0,
    ensures
        with_between(pieces.drop_last().push(pieces.last().push(c)), separator) == with_between(
            pieces,
            separator,
        ).push(c),
{
    let grown = pieces.drop_last().push(pieces.last().push(c));
    assert(grown.drop_last() =~= pieces.drop_last());
    if pieces.len() > 1 {
        assert(with_between(grown, separator) =~= with_between(pieces, separator).push(c));
    }
}

/// Splitting a text takes nothing from it but the separators: the pieces, none of which
/// holds one, with the separators between them are the text.
pub proof fn lemma_split_whole(text: Seq<char>, separator: char)
    ensures
        with_between(text::split_on(text, separator), separator) == text,
        text::split_on(text, separator).len() >= 1,
        forall|i: int|
            0 <= i < text::split_on(text, separator).len() ==> !(#[trigger] text::split_on(
                text,
                separator,
            )[i]).contains(separator),
    decreases text.len(),
{
    text::lemma_split_pieces(text, separator);
    if text.len() == 0 {
        assert(with_between(text::split_on(text, separator), separator) =~= text);
    } else {
        let rest = text.drop_last();
        let before = text::split_on(rest, separator);
        text::lemma_split_pieces(rest, separator);
        lemma_split_whole(rest, separator);
        assert(rest.push(text.last()) =~= text);
        if text.last() == separator {
            let pieces = before.push(Seq::empty());
            assert(pieces.drop_last() =~= before);
            assert(with_between(pieces, separator) =~= rest.push(separator));
        } else {
            lemma_between_grown(before, separator, text.last());
        }
    }
}

/// Where two texts differ first: they agree before that place, and there one ends or
/// has another character.
pub open spec fn first_difference(a: Seq<char>, b: Seq<char>, k: int) -> bool {
    &&& 0 <= k <= a.len()
    &&& k <= b.len()
    &&& forall|i: int| #![trigger a[i]] #![trigger b[i]] 0 <= i < k ==> a[i] == b[i]
}

/// A text comes before another where, at the first place where they differ, it ends or
/// has the smaller character.
pub proof fn lemma_text_order(a: Seq<char>, b: Seq<char>)
    ensures
        text::text_less(a, b) <==> exists|k: int| #[trigger]
            first_difference(a, b, k) && k < b.len() && (k == a.len() || a[k] < b[k]),
    decreases a.len(),
{
    if b.len() == 0 {
    } else if a.len() == 0 {
        assert(first_difference(a, b, 0));
    } else if a[0] != b[0] {
        assert(first_difference(a, b, 0));
        assert forall|k: int| #[trigger] first_difference(a, b, k) implies k == 0 by {
            if k > 0 {
                assert(a[0] == b[0]);
            }
        }
    } else {
        let x = a.drop_first();
        let y = b.drop_first();
        lemma_text_order(x, y);
        if text::text_less(x, y) {
            let k = choose|k: int| #[trigger]
                first_difference(x, y, k) && k < y.len() && (k == x.len() || x[k] < y[k]);
            assert(first_difference(a, b, k + 1)) by {
                assert forall|i: int| #![trigger a[i]] #![trigger b[i]] 0 <= i < k + 1 implies a[i]
                    == b[i] by {
                    if i > 0 {
                        assert(x[i - 1] == y[i - 1]);
                    }
                }
            }
            assert(k < x.len() ==> x[k] == a[k + 1]);
            assert(y[k] == b[k + 1]);
        }
        if exists|k: int| #[trigger]
            first_difference(a, b, k) && k < b.len() && (k == a.len() || a[k] < b[k]) {
            let k = choose|k: int| #[trigger]
                first_difference(a, b, k) && k < b.len() && (k == a.len() || a[k] < b[k]);
            assert(k > 0);
            assert(first_difference(x, y, k - 1)) by {
                assert forall|i: int| #![trigger x[i]] #![trigger y[i]] 0 <= i < k - 1 implies x[i]
                    == y[i] by {
                    assert(a[i + 1] == b[i + 1]);
                }
            }
            assert(k - 1 < x.len() ==> x[k - 1] == a[k]);
            assert(y[k - 1] == b[k]);
        }
    }
}

proof fn lemma_start_gone(text: Seq<char>) -> (i: int)
    ensures
        0 <= i <= text.len(),
        text::trimmed_start(text) == text.skip(i),
        forall|k: int| 0 <= k < i ==> text::white_space(#[trigger] text[k]),
        i < text.len() ==> !text::white_space(text[i]),
    decreases text.len(),
{
    if text.len() > 0 && text::white_space(text[0]) {
        let rest = text.drop_first();
        let j = lemma_start_gone(rest);
        assert(rest.skip(j) =~= text.skip(j + 1));
        assert forall|k: int| 0 <= k < j + 1 implies text::white_space(#[trigger] text[k]) by {
            if k > 0 {
                assert(rest[k - 1] == text[k]);
            }
        }
        j + 1
    } else {
        assert(text.skip(0) =~= text);
        0
    }
}

proof fn lemma_end_gone(text: Seq<char>) -> (j: int)
    ensures
        0 <= j <= text.len(),
        text::trimmed_end(text) == text.take(j),
        forall|k: int| j <= k < text.len() ==> text::white_space(#[trigger] text[k]),
        j > 0 ==> !text::white_space(text[j - 1]),
    decreases text.len(),
{
    if text.len() > 0 && text::white_space(text.last()) {
        let rest = text.drop_last();
        let j = lemma_end_gone(rest);
        assert(rest.take(j) =~= text.take(j));
        assert forall|k: int| j <= k < text.len() implies text::white_space(#[trigger] text[k]) by {
            if k < rest.len() {
                assert(rest[k] == text[k]);
            }
        }
        j
    } else {
        assert(text.take(text.len() as int) =~= text);
        text.len() as int
    }
}

/// Whether a piece of a text is all but the white space around it: there is nothing but
/// white space before and after it, and it neither begins nor ends with any.
pub open spec fn is_core(text: Seq<char>, i: int, j: int) -> bool {
    &&& 0 <= i <= j <= text.len()
    &&& forall|k: int| #![trigger text[k]]
        (0 <= k < i || j <= k < text.len()) ==> text::white_space(text[k])
    &&& i < j ==> !text::white_space(text[i]) && !text::white_space(text[j - 1])
}

/// Trimming a text leaves the piece of it that has no white space around it.
pub proof fn lemma_trimmed(text: Seq<char>)
    ensures
        exists|i: int, j: int| #[trigger]
            is_core(text, i, j) && text::trimmed(text) == text.subrange(i, j),
{
    let i = lemma_start_gone(text);
    let rest = text.skip(i);
    let j = lemma_end_gone(rest);
    assert(rest.take(j) =~= text.subrange(i, i + j));
    assert forall|k: int| #![trigger text[k]]
        (0 <= k < i || i + j <= k < text.len()) implies text::white_space(text[k]) by {
        if k >= i {
            assert(rest[k - i] == text[k]);
        }
    }
    if j > 0 {
        assert(rest[0] == text[i]);
        assert(rest[j - 1] == text[i + j - 1]);
    }
    assert(is_core(text, i, i + j));
}

/// The number that some digits stand for.
pub open spec fn value_of(digits: Seq<char>) -> nat
    decreases digits.len(),
{
    if digits.len() == 0 {
        0
    } else {
        10 * value_of(digits.drop_last()) + (digits.last() as u32 - '0' as u32) as nat
    }
}

/// A number is written in digits that stand for it, without a zero in front.
pub proof fn lemma_decimal(n: nat)
    ensures
        value_of(text::decimal(n)) == n,
        text::decimal(n).len() > 0,
        forall|i: int| 0 <= i < text::decimal(n).len() ==> '0' <= #[trigger] text::decimal(n)[i] <= '9',
        text::decimal(n)[0] == '0' ==> n == 0,
    decreases n,
{
    let digits = text::decimal(n);
    if n < 10 {
        assert(digits.drop_last() =~= Seq::<char>::empty());
        assert(value_of(digits.drop_last()) == 0);
        assert(digits.last() == (48 + n) as char);
    } else {
        let before = text::decimal(n / 10);
        lemma_decimal(n / 10);
        assert(digits.drop_last() =~= before);
        assert(digits.last() == (48 + n % 10) as char);
        assert forall|i: int| 0 <= i < digits.len() implies '0' <= #[trigger] digits[i] <= '9' by {
            if i < before.len() {
                assert(digits[i] == before[i]);
            }
        }
    }
}

// ----------------------------------------------------------------------- paths

/// The parts of a path without separators: the text itself, or none where it is empty.
pub proof fn lemma_parts_of_name(name: Seq<char>)
    requires
        !name.contains('/'),
    ensures
        paths::components(name) == if name.len() == 0 {
            Seq::<Seq<char>>::empty()
        } else {
            seq![name]
        },
{
    text::lemma_split_single(name, '/');
    let none = Seq::<Seq<char>>::empty();
    assert(text::split_on(name, '/') =~= none.push(name));
    reveal(Seq::filter);
    assert(paths::named(none) =~= none);
    paths::lemma_named_more(none, name);
    if name.len() > 0 {
        assert(name[0] != '/') by {
            assert(name.contains(name[0]));
        }
    }
    if name == paths::here_part() {
        assert(paths::components(name) =~= seq![name]);
    } else {
        assert(text::split_on(name, '/')[0] == name);
        if name.len() == 0 {
            assert(paths::components(name) =~= none);
        } else {
            assert(paths::components(name) =~= seq![name]);
        }
    }
}

/// The parts of a path that a separator and a name follow are those of the path and the
/// name; a name that is empty or `.` adds none. Before a separator that begins a path,
/// the root counts as a part.
pub proof fn lemma_parts_of_more(path: Seq<char>, name: Seq<char>)
    requires
        !name.contains('/'),
    ensures
        ({
            let before = if path.len() == 0 {
                seq![seq!['/']]
            } else {
                paths::components(path)
            };
            paths::components(path + seq!['/'] + name) == if name.len() == 0 || name == seq!['.'] {
                before
            } else {
                before.push(name)
            }
        }),
{
    let whole = path.push('/') + name;
    assert(path + seq!['/'] + name =~= whole);
    let pieces = text::split_on(path, '/');
    text::lemma_split_append(path, '/', name);
    text::lemma_split_pieces(path, '/');
    paths::lemma_named_more(pieces, name);
    assert(text::split_on(whole, '/')[0] == pieces[0]);
    let root = seq![paths::root_part()];
    let here = seq![paths::here_part()];
    if path.len() == 0 {
        assert(whole[0] == '/');
        let none = Seq::<Seq<char>>::empty();
        assert(path =~= Seq::<char>::empty());
        assert(pieces =~= none.push(path));
        reveal(Seq::filter);
        assert(paths::named(none) =~= none);
        paths::lemma_named_more(none, path);
        assert(paths::named(pieces) =~= none);
        if name.len() == 0 || name == seq!['.'] {
            assert(paths::components(whole) =~= seq![seq!['/']]);
        } else {
            assert(paths::components(whole) =~= seq![seq!['/']].push(name));
        }
    } else {
        assert(whole[0] == path[0]);
        let before = paths::components(path);
        if name.len() == 0 || name == seq!['.'] {
            assert(paths::components(whole) =~= before);
        } else {
            let more = paths::named(pieces).push(name);
            if path[0] == '/' {
                assert(root + more =~= before.push(name));
            } else if pieces[0] == paths::here_part() {
                assert(here + more =~= before.push(name));
            }
            assert(paths::components(whole) =~= before.push(name));
        }
    }
}

/// A path made of parts is the one of all but the last, a separator unless there is one,
/// and the last. Of one part it is that part.
pub proof fn lemma_joined(parts: Seq<Seq<char>>, name: Seq<char>)
    requires
        !name.contains('/'),
    ensures
        paths::joined(Seq::<Seq<char>>::empty()).len() == 0,
        ({
            let before = paths::joined(parts);
            paths::joined(parts.push(name)) == if before.len() == 0 || before[before.len() - 1]
                == '/' {
                before + name
            } else {
                before + seq!['/'] + name
            }
        }),
{
    assert(parts.push(name).drop_last() =~= parts);
    let before = paths::joined(parts);
    if name.len() > 0 {
        assert(name[0] != '/') by {
            assert(name.contains(name[0]));
        }
    }
    assert(before.push('/') =~= before + seq!['/']);
}

/// A path lies in a folder exactly where the parts of the folder begin those of the
/// path; two paths are the same where their parts are.
pub proof fn lemma_within_by_parts(path: Seq<char>, base: Seq<char>)
    ensures
        paths::within(path, base) <==> paths::components(base).len() <= paths::components(path).len()
            && forall|i: int| #![trigger paths::components(base)[i]]
            0 <= i < paths::components(base).len() ==> paths::components(path)[i]
                == paths::components(base)[i],
        paths::same_path(path, base) <==> paths::components(path) == paths::components(base),
        paths::same_path(path, base) <==> paths::within(path, base) && paths::within(base, path),
{
    let a = paths::components(path);
    let b = paths::components(base);
    if paths::within(path, base) {
        assert forall|i: int| #![trigger b[i]] 0 <= i < b.len() implies a[i] == b[i] by {
            assert(a.take(b.len() as int)[i] == a[i]);
        }
    }
    if b.len() <= a.len() && forall|i: int| #![trigger b[i]] 0 <= i < b.len() ==> a[i] == b[i] {
        assert(a.take(b.len() as int) =~= b);
    }
    if a == b {
        assert(a.take(b.len() as int) =~= b);
        assert(b.take(a.len() as int) =~= a);
    }
    if paths::within(path, base) && paths::within(base, path) {
        assert(a.take(b.len() as int) =~= a);
    }
}

/// What kind of part comes first: the root, `.`, `..`, then names.
pub open spec fn kind_of(part: Seq<char>) -> int {
    if part == seq!['/'] {
        0
    } else if part == seq!['.'] {
        1
    } else if part == seq!['.', '.'] {
        2
    } else {
        3
    }
}

/// Whether two lists of parts agree up to a place.
pub open spec fn agree_to(a: Seq<Seq<char>>, b: Seq<Seq<char>>, k: int) -> bool {
    &&& 0 <= k <= a.len()
    &&& k <= b.len()
    &&& forall|i: int| #![trigger a[i]] #![trigger b[i]] 0 <= i < k ==> a[i] == b[i]
}

proof fn lemma_parts_order(a: Seq<Seq<char>>, b: Seq<Seq<char>>)
    ensures
        paths::parts_less(a, b) <==> exists|k: int| #[trigger]
            agree_to(a, b, k) && k < b.len() && (k == a.len() || kind_of(a[k]) < kind_of(b[k]) || (
            kind_of(a[k]) == kind_of(b[k]) && text::text_less(a[k], b[k]))),
    decreases a.len(),
{
    if b.len() == 0 {
    } else if a.len() == 0 {
        assert(agree_to(a, b, 0));
    } else if a[0] != b[0] {
        assert(agree_to(a, b, 0));
        assert forall|k: int| #[trigger] agree_to(a, b, k) implies k == 0 by {
            if k > 0 {
                assert(a[0] == b[0]);
            }
        }
    } else {
        let x = a.drop_first();
        let y = b.drop_first();
        lemma_parts_order(x, y);
        if paths::parts_less(x, y) {
            let k = choose|k: int| #[trigger]
                agree_to(x, y, k) && k < y.len() && (k == x.len() || kind_of(x[k]) < kind_of(y[k])
                    || (kind_of(x[k]) == kind_of(y[k]) && text::text_less(x[k], y[k])));
            assert(agree_to(a, b, k + 1)) by {
                assert forall|i: int| #![trigger a[i]] #![trigger b[i]] 0 <= i < k + 1 implies a[i]
                    == b[i] by {
                    if i > 0 {
                        assert(x[i - 1] == y[i - 1]);
                    }
                }
            }
            assert(k < x.len() ==> x[k] == a[k + 1]);
            assert(y[k] == b[k + 1]);
        }
        if exists|k: int| #[trigger]
            agree_to(a, b, k) && k < b.len() && (k == a.len() || kind_of(a[k]) < kind_of(b[k]) || (
            kind_of(a[k]) == kind_of(b[k]) && text::text_less(a[k], b[k]))) {
            let k = choose|k: int| #[trigger]
                agree_to(a, b, k) && k < b.len() && (k == a.len() || kind_of(a[k]) < kind_of(b[k])
                    || (kind_of(a[k]) == kind_of(b[k]) && text::text_less(a[k], b[k])));
            text::lemma_text_less_irreflexive(a[0]);
            assert(k > 0);
            assert(agree_to(x, y, k - 1)) by {
                assert forall|i: int| #![trigger x[i]] #![trigger y[i]] 0 <= i < k - 1 implies x[i]
                    == y[i] by {
                    assert(a[i + 1] == b[i + 1]);
                }
            }
            assert(k - 1 < x.len() ==> x[k - 1] == a[k]);
            assert(y[k - 1] == b[k]);
        }
    }
}

/// A path comes before another where, at the first part in which they differ, it ends,
/// or has a part of an earlier kind, or the earlier name.
pub proof fn lemma_path_order(a: Seq<char>, b: Seq<char>)
    ensures
        ({
            let x = paths::components(a);
            let y = paths::components(b);
            paths::path_less(a, b) <==> exists|k: int| #[trigger]
                agree_to(x, y, k) && k < y.len() && (k == x.len() || kind_of(x[k]) < kind_of(y[k])
                    || (kind_of(x[k]) == kind_of(y[k]) && text::text_less(x[k], y[k])))
        }),
{
    lemma_parts_order(paths::components(a), paths::components(b));
}

/// The name of a file is the last part of its path, unless that is the root, `.` or `..`.
pub proof fn lemma_file_name(path: Seq<char>)
    ensures
        ({
            let parts = paths::components(path);
            paths::file_name_of(path) == if parts.len() > 0 && kind_of(parts[parts.len() - 1]) == 3 {
                Some(parts[parts.len() - 1])
            } else {
                None
            }
        }),
{
}

/// The extension of a name is what follows its last dot, if that is not its first
/// character.
pub proof fn lemma_extension(stem: Seq<char>, end: Seq<char>, plain: Seq<char>)
    requires
        !end.contains('.'),
        !plain.contains('.'),
    ensures
        stem.len() > 0 ==> paths::name_extension(stem + seq!['.'] + end) == Some(end),
        stem.len() == 0 ==> paths::name_extension(stem + seq!['.'] + end) is None,
        paths::name_extension(plain) is None,
{
    let pieces = text::split_on(stem, '.');
    text::lemma_split_single(plain, '.');
    text::lemma_split_append(stem, '.', end);
    text::lemma_split_pieces(stem, '.');
    assert(stem + seq!['.'] + end =~= stem.push('.') + end);
    assert(pieces.push(end).last() == end);
    if stem.len() == 0 {
        assert(pieces =~= seq![Seq::<char>::empty()]);
    } else if pieces.len() == 1 {
        lemma_split_whole(stem, '.');
        assert(pieces[0] == stem);
    }
}

/// The extension of a file is that of its name.
pub proof fn lemma_file_extension(path: Seq<char>)
    ensures
        paths::extension_of(path) == match paths::file_name_of(path) {
            Some(name) => paths::name_extension(name),
            None => None,
        },
{
}

/// Each folder to search is one of the given ones, the first that is spelled so.
pub proof fn lemma_root_given(found: Seq<Seq<char>>, given: Seq<Seq<char>>, r: int) -> (i: int)
    requires
        roots::are_roots(found, given),
        0 <= r < found.len(),
    ensures
        0 <= i < given.len(),
        given[i] == found[r],
        forall|j: int|
            0 <= j < i ==> paths::components(#[trigger] given[j]) != paths::components(found[r]),
{
    assert(roots::given_first(given, found[r]));
    let i = choose|i: int| #[trigger] roots::first_spelling(given, i) && given[i] == found[r];
    assert forall|j: int| 0 <= j < i implies paths::components(#[trigger] given[j])
        != paths::components(found[r]) by {
        assert(!paths::same_path(given[j], given[i]));
    }
    i
}

/// Each given folder is one of those to search or lies in one.
pub proof fn lemma_given_inside(found: Seq<Seq<char>>, given: Seq<Seq<char>>, i: int) -> (r: int)
    requires
        roots::are_roots(found, given),
        0 <= i < given.len(),
    ensures
        0 <= r < found.len(),
        paths::within(given[i], found[r]),
{
    assert(roots::inside_one(given[i], found));
    choose|r: int| 0 <= r < found.len() && #[trigger] paths::within(given[i], found[r])
}

/// No folder to search lies in another, and they stand in order.
pub proof fn lemma_roots_apart(found: Seq<Seq<char>>, given: Seq<Seq<char>>, r: int, s: int)
    requires
        roots::are_roots(found, given),
        0 <= r < s < found.len(),
    ensures
        !paths::within(found[r], found[s]),
        !paths::within(found[s], found[r]),
        paths::path_less(found[r], found[s]),
{
}

} // verus!
