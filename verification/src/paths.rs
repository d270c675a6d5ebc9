//! Paths: texts whose components are separated by `/`.
//!
//! Two paths that differ only in doubled separators, in a separator at the end
//! or in `.` components past the first name the same file.
use vstd::prelude::*;

use crate::text;

verus! {

/// The component that stands for the root of the file system.
pub open spec fn root_part() -> Seq<char> {
    seq!['/']
}

/// The component that stands for the current folder.
pub open spec fn here_part() -> Seq<char> {
    seq!['.']
}

/// The component that stands for the folder above.
pub open spec fn above_part() -> Seq<char> {
    seq!['.', '.']
}

/// The pieces that name something: neither empty nor `.`.
pub open spec fn named(pieces: Seq<Seq<char>>) -> Seq<Seq<char>> {
    pieces.filter(|p: Seq<char>| p.len() > 0 && p != here_part())
}

/// The components of a path. The root is one, and so is a `.` at the start.
pub open spec fn components(path: Seq<char>) -> Seq<Seq<char>> {
    let pieces = text::split_on(path, '/');
    if path.len() > 0 && path[0] == '/' {
        seq![root_part()] + named(pieces)
    } else if pieces[0] == here_part() {
        seq![here_part()] + named(pieces)
    } else {
        named(pieces)
    }
}

/// Whether two paths have the same components.
pub open spec fn same_path(a: Seq<char>, b: Seq<char>) -> bool {
    components(a) == components(b)
}

/// Whether the components of a path begin with those of another.
pub open spec fn within(path: Seq<char>, base: Seq<char>) -> bool {
    &&& components(base).len() <= components(path).len()
    &&& components(path).take(components(base).len() as int) == components(base)
}

/// A path extended by one component.
pub open spec fn pushed(base: Seq<char>, part: Seq<char>) -> Seq<char> {
    if part.len() > 0 && part[0] == '/' {
        part
    } else if base.len() > 0 && base.last() != '/' {
        base.push('/') + part
    } else {
        base + part
    }
}

/// The path made of some components.
pub open spec fn joined(parts: Seq<Seq<char>>) -> Seq<char>
    decreases parts.len(),
{
    if parts.len() == 0 {
        Seq::empty()
    } else {
        pushed(joined(parts.drop_last()), parts.last())
    }
}

/// Whether a component can stand anywhere in a path.
pub open spec fn is_name(part: Seq<char>) -> bool {
    &&& part.len() > 0
    &&& part != here_part()
    &&& !part.contains('/')
}

/// Whether some texts are the components of a path.
pub open spec fn are_components(parts: Seq<Seq<char>>) -> bool {
    forall|i: int| #![trigger parts[i]]
        0 <= i < parts.len() ==> is_name(parts[i]) || (i == 0 && (parts[i] == root_part()
            || parts[i] == here_part()))
}

/// One piece more is one name more, unless it names nothing.
pub proof fn lemma_named_more(pieces: Seq<Seq<char>>, piece: Seq<char>)
    ensures
        named(pieces.push(piece)) == (if piece.len() > 0 && piece != here_part() {
            named(pieces).push(piece)
        } else {
            named(pieces)
        }),
{
    reveal(Seq::filter);
    assert(pieces.push(piece).drop_last() =~= pieces);
}

proof fn lemma_named(pieces: Seq<Seq<char>>)
    requires
        forall|i: int| 0 <= i < pieces.len() ==> !(#[trigger] pieces[i]).contains('/'),
    ensures
        forall|i: int| 0 <= i < named(pieces).len() ==> is_name(#[trigger] named(pieces)[i]),
{
    let pred = |p: Seq<char>| p.len() > 0 && p != here_part();
    assert forall|i: int| 0 <= i < named(pieces).len() implies is_name(
        #[trigger] named(pieces)[i],
    ) by {
        pieces.lemma_filter_pred(pred, i);
        pieces.lemma_filter_contains_rev(pred, named(pieces)[i]);
        assert(pieces.contains(named(pieces)[i]));
    }
}

/// What `components` gives is a list of components.
pub proof fn lemma_components_valid(path: Seq<char>)
    ensures
        are_components(components(path)),
{
    text::lemma_split_pieces(path, '/');
    let pieces = text::split_on(path, '/');
    lemma_named(pieces);
    let all = components(path);
    assert forall|i: int| #![trigger all[i]] 0 <= i < all.len() implies is_name(all[i]) || (i == 0
        && (all[i] == root_part() || all[i] == here_part())) by {
        if path.len() > 0 && path[0] == '/' || pieces[0] == here_part() {
            if i > 0 {
                assert(all[i] == named(pieces)[i - 1]);
            }
        } else {
            assert(all[i] == named(pieces)[i]);
        }
    }
}

proof fn lemma_root_components()
    ensures
        components(root_part()) == seq![root_part()],
{
    let path = root_part();
    text::lemma_split_single(Seq::empty(), '/');
    text::lemma_split_append(Seq::empty(), '/', Seq::empty());
    assert(Seq::<char>::empty().push('/') + Seq::<char>::empty() =~= path);
    let none = Seq::<Seq<char>>::empty();
    assert(text::split_on(path, '/') =~= none.push(Seq::empty()).push(Seq::empty()));
    lemma_named_more(none, Seq::empty());
    lemma_named_more(none.push(Seq::empty()), Seq::empty());
    reveal(Seq::filter);
    assert(named(none) =~= none);
    assert(components(path) =~= seq![root_part()]);
}

proof fn lemma_single_components(part: Seq<char>)
    requires
        is_name(part) || part == here_part(),
    ensures
        components(part) == seq![part],
{
    assert(!part.contains('/')) by {
        if part == here_part() && part.contains('/') {
            let k = choose|k: int| 0 <= k < part.len() && part[k] == '/';
            assert(k == 0);
        }
    }
    text::lemma_split_single(part, '/');
    let none = Seq::<Seq<char>>::empty();
    assert(seq![part] =~= none.push(part));
    lemma_named_more(none, part);
    reveal(Seq::filter);
    assert(named(none) =~= none);
    assert(part[0] != '/') by {
        if part[0] == '/' {
            assert(part.contains('/'));
        }
    }
    assert(components(part) =~= seq![part]);
}

proof fn lemma_split_first(path: Seq<char>, more: Seq<char>)
    requires
        path.len() > 0,
        !more.contains('/'),
    ensures
        text::split_on(path.push('/') + more, '/')[0] == text::split_on(path, '/')[0],
{
    text::lemma_split_append(path, '/', more);
    text::lemma_split_pieces(path, '/');
}

/// Joining some components gives a path that has just those.
pub proof fn lemma_components_joined(parts: Seq<Seq<char>>)
    requires
        are_components(parts),
        parts.len() > 0,
    ensures
        components(joined(parts)) == parts,
        joined(parts).len() > 0,
        joined(parts).last() == '/' <==> parts == seq![root_part()],
        joined(parts)[0] == '/' <==> parts[0] == root_part(),
    decreases parts.len(),
{
    let before = parts.drop_last();
    let part = parts.last();
    if parts.len() == 1 {
        assert(before =~= Seq::<Seq<char>>::empty());
        assert(joined(parts) =~= part);
        assert(parts =~= seq![part]);
        assert(parts[0] == part);
        if part == root_part() {
            lemma_root_components();
        } else {
            lemma_single_components(part);
            assert(part[0] != '/' && part.last() != '/') by {
                if part == here_part() {
                    assert(part[0] == '.');
                } else if part[0] == '/' || part.last() == '/' {
                    assert(part.contains('/'));
                }
            }
        }
    } else {
        assert(are_components(before)) by {
            assert forall|i: int| #![trigger before[i]] 0 <= i < before.len() implies is_name(
                before[i],
            ) || (i == 0 && (before[i] == root_part() || before[i] == here_part())) by {
                assert(before[i] == parts[i]);
            }
        }
        lemma_components_joined(before);
        assert(parts[parts.len() - 1] == part);
        assert(is_name(part));
        assert(part[0] != '/' && part.last() != '/') by {
            if part[0] == '/' || part.last() == '/' {
                assert(part.contains('/'));
            }
        }
        let base = joined(before);
        let path = joined(parts);
        assert(parts =~= before.push(part));
        assert(parts[0] == before[0]);
        if base.last() != '/' {
            assert(path =~= base.push('/') + part);
            text::lemma_split_append(base, '/', part);
            lemma_split_first(base, part);
            lemma_named_more(text::split_on(base, '/'), part);
            assert(path[0] == base[0]);
            assert(components(path) =~= components(base).push(part));
        } else {
            assert(base =~= root_part()) by {
                assert(before =~= seq![root_part()]);
                assert(before.drop_last() =~= Seq::<Seq<char>>::empty());
            }
            assert(path =~= Seq::<char>::empty().push('/') + part);
            text::lemma_split_append(Seq::empty(), '/', part);
            text::lemma_split_single(Seq::empty(), '/');
            let none = Seq::<Seq<char>>::empty();
            assert(text::split_on(path, '/') =~= none.push(Seq::empty()).push(part));
            lemma_named_more(none, Seq::empty());
            lemma_named_more(none.push(Seq::empty()), part);
            reveal(Seq::filter);
            assert(named(none) =~= none);
            assert(components(path) =~= seq![root_part()].push(part));
            assert(parts =~= seq![root_part()].push(part));
        }
        assert(path.last() == part.last());
        if parts == seq![root_part()] {
            assert(parts.len() == 1);
        }
    }
}

/// Joining the components of a path gives the same path, and the same text for
/// any two texts that name it.
pub proof fn lemma_canonical(a: Seq<char>, b: Seq<char>)
    ensures
        same_path(joined(components(a)), a),
        same_path(a, b) <==> joined(components(a)) == joined(components(b)),
{
    lemma_components_valid(a);
    lemma_components_valid(b);
    lemma_joined_any(components(a));
    lemma_joined_any(components(b));
}

proof fn lemma_joined_any(parts: Seq<Seq<char>>)
    requires
        are_components(parts),
    ensures
        components(joined(parts)) == parts,
{
    if parts.len() > 0 {
        lemma_components_joined(parts);
    } else {
        let path = Seq::<char>::empty();
        text::lemma_split_single(path, '/');
        let none = Seq::<Seq<char>>::empty();
        assert(text::split_on(path, '/') =~= none.push(path));
        lemma_named_more(none, path);
        reveal(Seq::filter);
        assert(named(none) =~= none);
        assert(path != here_part()) by {
            assert(path.len() != here_part().len());
        }
        assert(text::split_on(path, '/')[0] == path);
        assert(components(path) =~= none);
        assert(parts =~= none);
    }
}

// -------------------------------------------------------------------- order

/// Where a component stands among those of another kind: the root first, then
/// `.`, then `..`, then names.
pub open spec fn part_rank(part: Seq<char>) -> nat {
    if part == root_part() {
        0
    } else if part == here_part() {
        1
    } else if part == above_part() {
        2
    } else {
        3
    }
}

/// The order of components: by kind, then by name.
pub open spec fn part_less(a: Seq<char>, b: Seq<char>) -> bool {
    part_rank(a) < part_rank(b) || (part_rank(a) == part_rank(b) && text::text_less(a, b))
}

/// The order of lists of components: the first difference decides.
pub open spec fn parts_less(a: Seq<Seq<char>>, b: Seq<Seq<char>>) -> bool
    decreases a.len(),
{
    if b.len() == 0 {
        false
    } else if a.len() == 0 {
        true
    } else if a[0] != b[0] {
        part_less(a[0], b[0])
    } else {
        parts_less(a.drop_first(), b.drop_first())
    }
}

/// The order of paths: that of their components.
pub open spec fn path_less(a: Seq<char>, b: Seq<char>) -> bool {
    parts_less(components(a), components(b))
}

proof fn lemma_part_less_transitive(a: Seq<char>, b: Seq<char>, c: Seq<char>)
    requires
        part_less(a, b),
        part_less(b, c),
    ensures
        part_less(a, c),
{
    if part_rank(a) == part_rank(b) && part_rank(b) == part_rank(c) {
        text::lemma_text_less_transitive(a, b, c);
    }
}

/// The order of lists of components is transitive.
pub proof fn lemma_parts_less_transitive(
    a: Seq<Seq<char>>,
    b: Seq<Seq<char>>,
    c: Seq<Seq<char>>,
)
    requires
        parts_less(a, b),
        parts_less(b, c),
    ensures
        parts_less(a, c),
    decreases a.len(),
{
    if a.len() > 0 {
        if a[0] == b[0] && b[0] == c[0] {
            lemma_parts_less_transitive(a.drop_first(), b.drop_first(), c.drop_first());
        } else if a[0] != b[0] && b[0] != c[0] {
            lemma_part_less_transitive(a[0], b[0], c[0]);
            if a[0] == c[0] {
                text::lemma_text_less_irreflexive(a[0]);
            }
        }
    }
}

/// No list of components comes before itself.
pub proof fn lemma_parts_less_irreflexive(a: Seq<Seq<char>>)
    ensures
        !parts_less(a, a),
    decreases a.len(),
{
    if a.len() > 0 {
        lemma_parts_less_irreflexive(a.drop_first());
    }
}

/// Of two different lists of components one comes before the other.
pub proof fn lemma_parts_less_total(a: Seq<Seq<char>>, b: Seq<Seq<char>>)
    ensures
        parts_less(a, b) || parts_less(b, a) || a == b,
    decreases a.len(),
{
    if a.len() > 0 && b.len() > 0 {
        if a[0] == b[0] {
            lemma_parts_less_total(a.drop_first(), b.drop_first());
            if a.drop_first() == b.drop_first() {
                assert(a =~= seq![a[0]] + a.drop_first());
                assert(b =~= seq![b[0]] + b.drop_first());
            }
        } else {
            text::lemma_text_less_total(a[0], b[0]);
        }
    } else if a.len() == 0 && b.len() == 0 {
        assert(a =~= b);
    }
}

/// A list of components comes before the longer ones that begin with it.
pub proof fn lemma_parts_less_prefix(a: Seq<Seq<char>>, b: Seq<Seq<char>>)
    requires
        a.len() < b.len(),
        b.take(a.len() as int) == a,
    ensures
        parts_less(a, b),
    decreases a.len(),
{
    if a.len() > 0 {
        assert(a[0] == b.take(a.len() as int)[0]);
        assert(b.drop_first().take(a.len() - 1) =~= b.take(a.len() as int).drop_first());
        lemma_parts_less_prefix(a.drop_first(), b.drop_first());
    }
}

// ------------------------------------------------------------------- reading

/// The components of a path.
pub fn path_parts(path: &str) -> (parts: Vec<String>)
    ensures
        text::texts(parts@) == components(path@),
{
    let chars = text::chars_of(path);
    let pieces = text::split(path, '/');
    proof {
        text::lemma_split_pieces(path@, '/');
    }
    let ghost all = text::texts(pieces@);
    let mut parts: Vec<String> = Vec::new();
    if chars.len() > 0 && chars[0] == '/' {
        let mut root = String::new();
        root.push('/');
        assert(root@ =~= root_part());
        parts.push(root);
    } else if is_here(&pieces[0]) {
        parts.push(pieces[0].clone());
    }
    let ghost head = text::texts(parts@);
    assert(all[0] == pieces@[0]@);
    assert(head =~= (if path@.len() > 0 && path@[0] == '/' {
        seq![root_part()]
    } else if all[0] == here_part() {
        seq![here_part()]
    } else {
        Seq::<Seq<char>>::empty()
    }));
    proof {
        reveal(Seq::filter);
        assert(named(all.take(0)) =~= Seq::<Seq<char>>::empty());
        assert(head + named(all.take(0)) =~= head);
    }
    for i in 0..pieces.len()
        invariant
            all == text::texts(pieces@),
            text::texts(parts@) == head + named(all.take(i as int)),
    {
        let ghost before = parts@;
        proof {
            lemma_named_more(all.take(i as int), all[i as int]);
            assert(all.take(i as int + 1) =~= all.take(i as int).push(all[i as int]));
            assert(all[i as int] == pieces@[i as int]@);
        }
        if !pieces[i].as_str().is_empty() && !is_here(&pieces[i]) {
            parts.push(pieces[i].clone());
            assert(text::texts(parts@) =~= text::texts(before).push(all[i as int]));
            assert(text::texts(parts@) =~= head + named(all.take(i as int + 1)));
        }
    }
    assert(all.take(all.len() as int) =~= all);
    assert(text::texts(parts@) =~= components(path@));
    parts
}

fn is_here(part: &String) -> (result: bool)
    ensures
        result == (part@ == here_part()),
{
    let chars = text::chars_of(part.as_str());
    if chars.len() == 1 && chars[0] == '.' {
        assert(part@ =~= here_part());
        true
    } else {
        proof {
            if part@ == here_part() {
                assert(part@.len() == 1 && part@[0] == '.');
            }
        }
        false
    }
}

/// Whether two lists of texts are the same.
pub fn same_parts(a: &Vec<String>, b: &Vec<String>) -> (result: bool)
    ensures
        result == (text::texts(a@) == text::texts(b@)),
{
    if a.len() != b.len() {
        assert(text::texts(a@).len() != text::texts(b@).len());
        return false;
    }
    for i in 0..a.len()
        invariant
            a@.len() == b@.len(),
            forall|j: int| 0 <= j < i ==> a@[j]@ == b@[j]@,
    {
        if a[i] != b[i] {
            assert(text::texts(a@)[i as int] != text::texts(b@)[i as int]);
            return false;
        }
    }
    assert(text::texts(a@) =~= text::texts(b@));
    true
}

/// Whether two paths name the same file.
pub fn paths_equal(a: &str, b: &str) -> (result: bool)
    ensures
        result == same_path(a@, b@),
{
    same_parts(&path_parts(a), &path_parts(b))
}

/// The text that any two texts naming the same file have in common.
pub fn canonical(path: &str) -> (result: String)
    ensures
        result@ == joined(components(path@)),
{
    join_parts(&path_parts(path))
}

/// Extends a path by one component.
pub fn push_part(base: &mut String, part: &str)
    ensures
        final(base)@ == pushed(old(base)@, part@),
{
    let chars = text::chars_of(part);
    let before = text::chars_of(base.as_str());
    if chars.len() > 0 && chars[0] == '/' {
        *base = text::text_of(chars.as_slice());
    } else {
        if before.len() > 0 && before[before.len() - 1] != '/' {
            base.push('/');
        }
        base.append(part);
    }
}

/// The path made of some components.
pub fn join_parts(parts: &Vec<String>) -> (path: String)
    ensures
        path@ == joined(text::texts(parts@)),
{
    let mut path = String::new();
    let ghost all = text::texts(parts@);
    assert(all.take(0) =~= Seq::<Seq<char>>::empty());
    for i in 0..parts.len()
        invariant
            all == text::texts(parts@),
            path@ == joined(all.take(i as int)),
    {
        push_part(&mut path, parts[i].as_str());
        assert(all.take(i as int + 1).drop_last() =~= all.take(i as int));
        assert(all.take(i as int + 1).last() == parts@[i as int]@);
    }
    assert(all.take(all.len() as int) =~= all);
    path
}

/// Whether the components of a path begin with those of another.
pub fn path_within(path: &str, base: &str) -> (result: bool)
    ensures
        result == within(path@, base@),
{
    let parts = path_parts(path);
    let start = path_parts(base);
    let ghost all = text::texts(parts@);
    let ghost first = text::texts(start@);
    if start.len() > parts.len() {
        return false;
    }
    for i in 0..start.len()
        invariant
            all == text::texts(parts@),
            first == text::texts(start@),
            all == components(path@),
            first == components(base@),
            first.len() <= all.len(),
            forall|j: int| 0 <= j < i ==> all[j] == first[j],
    {
        assert(all[i as int] == parts@[i as int]@);
        assert(first[i as int] == start@[i as int]@);
        if parts[i] != start[i] {
            assert(all.take(first.len() as int)[i as int] != first[i as int]);
            return false;
        }
    }
    assert(all.take(first.len() as int) =~= first);
    true
}

/// The rank of a component.
fn rank(part: &String) -> (result: u8)
    ensures
        result == part_rank(part@),
{
    let chars = text::chars_of(part.as_str());
    if chars.len() == 1 && chars[0] == '/' {
        assert(part@ =~= root_part());
        0
    } else if chars.len() == 1 && chars[0] == '.' {
        assert(part@ =~= here_part());
        assert(part@[0] != root_part()[0]);
        1
    } else {
        assert(part@ != root_part() && part@ != here_part()) by {
            if part@ == root_part() || part@ == here_part() {
                assert(part@.len() == 1);
                assert(part@[0] == '/' || part@[0] == '.');
            }
        }
        if chars.len() == 2 && chars[0] == '.' && chars[1] == '.' {
            assert(part@ =~= above_part());
            2
        } else {
            proof {
                if part@ == above_part() {
                    assert(part@.len() == 2 && part@[0] == '.' && part@[1] == '.');
                }
            }
            3
        }
    }
}

/// Whether a path comes before another.
pub fn path_before(a: &str, b: &str) -> (result: bool)
    ensures
        result == path_less(a@, b@),
{
    let x = path_parts(a);
    let y = path_parts(b);
    let ghost p = text::texts(x@);
    let ghost q = text::texts(y@);
    let mut i: usize = 0;
    assert(p.skip(0) =~= p && q.skip(0) =~= q);
    while i < x.len() && i < y.len() && x[i] == y[i]
        invariant
            i <= x@.len(),
            i <= y@.len(),
            p == text::texts(x@),
            q == text::texts(y@),
            parts_less(p, q) == parts_less(p.skip(i as int), q.skip(i as int)),
        decreases x@.len() - i,
    {
        assert(p[i as int] == x@[i as int]@ && q[i as int] == y@[i as int]@);
        assert(p.skip(i as int).drop_first() =~= p.skip(i as int + 1));
        assert(q.skip(i as int).drop_first() =~= q.skip(i as int + 1));
        i = i + 1;
    }
    if i == y.len() {
        false
    } else if i == x.len() {
        true
    } else {
        assert(p.skip(i as int)[0] == x@[i as int]@ && q.skip(i as int)[0] == y@[i as int]@);
        let r = rank(&x[i]);
        let s = rank(&y[i]);
        r < s || (r == s && text::less(x[i].as_str(), y[i].as_str()))
    }
}

/// The name of the file that a path ends in: its last component, unless that
/// is the root, `.` or `..`.
pub open spec fn file_name_of(path: Seq<char>) -> Option<Seq<char>> {
    let parts = components(path);
    if parts.len() > 0 && part_rank(parts.last()) == 3 {
        Some(parts.last())
    } else {
        None
    }
}

/// The name of the file that a path ends in.
pub fn path_file_name(path: &str) -> (name: Option<String>)
    ensures
        match name {
            Some(n) => file_name_of(path@) == Some(n@),
            None => file_name_of(path@) is None,
        },
{
    let parts = path_parts(path);
    assert(text::texts(parts@).len() == parts@.len());
    if parts.len() == 0 {
        return None;
    }
    let last = &parts[parts.len() - 1];
    assert(last@ == text::texts(parts@).last());
    if rank(last) == 3 {
        Some(last.clone())
    } else {
        None
    }
}

/// What follows the last dot of a name. A dot at the very start does not count.
pub open spec fn name_extension(name: Seq<char>) -> Option<Seq<char>> {
    let pieces = text::split_on(name, '.');
    if pieces.len() > 2 || (pieces.len() == 2 && pieces[0].len() > 0) {
        Some(pieces.last())
    } else {
        None
    }
}

/// The extension of the file name that a path ends in.
pub open spec fn extension_of(path: Seq<char>) -> Option<Seq<char>> {
    match file_name_of(path) {
        Some(name) => name_extension(name),
        None => None,
    }
}

/// The extension of the file name that a path ends in.
pub fn path_extension(path: &str) -> (extension: Option<String>)
    ensures
        match extension {
            Some(e) => extension_of(path@) == Some(e@),
            None => extension_of(path@) is None,
        },
{
    match path_file_name(path) {
        None => None,
        Some(name) => {
            let pieces = text::split(name.as_str(), '.');
            let ghost all = text::split_on(name@, '.');
            assert(pieces@.len() == all.len());
            proof {
                text::lemma_split_pieces(name@, '.');
            }
            assert(pieces@[0]@ == all[0] && pieces@.last()@ == all.last());
            if pieces.len() > 2 || (pieces.len() == 2 && !pieces[0].as_str().is_empty()) {
                Some(pieces[pieces.len() - 1].clone())
            } else {
                None
            }
        },
    }
}

} // verus!
