//! The folders to search.
use vstd::prelude::*;

use crate::paths;
use crate::text;

verus! {

/// Whether a path is the first of some that names what it names.
pub open spec fn first_spelling(given: Seq<Seq<char>>, i: int) -> bool {
    &&& 0 <= i < given.len()
    &&& forall|j: int| 0 <= j < i ==> !paths::same_path(#[trigger] given[j], given[i])
}

/// Whether a path is the first spelling, among the given ones, of what it names.
pub open spec fn given_first(given: Seq<Seq<char>>, path: Seq<char>) -> bool {
    exists|i: int| #[trigger] first_spelling(given, i) && given[i] == path
}

/// Whether a path lies in one of some folders.
pub open spec fn inside_one(path: Seq<char>, roots: Seq<Seq<char>>) -> bool {
    exists|r: int| 0 <= r < roots.len() && #[trigger] paths::within(path, roots[r])
}

/// Whether some folders are those among the given ones that lie in no other,
/// in order.
pub open spec fn are_roots(roots: Seq<Seq<char>>, given: Seq<Seq<char>>) -> bool {
    &&& forall|r: int| 0 <= r < roots.len() ==> #[trigger] given_first(given, roots[r])
    &&& forall|i: int| 0 <= i < given.len() ==> #[trigger] inside_one(given[i], roots)
    &&& forall|r: int, s: int|
        0 <= r < roots.len() && 0 <= s < roots.len() && r != s ==> !#[trigger] paths::within(
            roots[r],
            roots[s],
        )
    &&& forall|r: int, s: int|
        0 <= r < s < roots.len() ==> #[trigger] paths::path_less(roots[r], roots[s])
}

/// Whether some paths are in order, each named once.
spec fn in_order(list: Seq<Seq<char>>) -> bool {
    forall|r: int, s: int|
        0 <= r < s < list.len() ==> #[trigger] paths::path_less(list[r], list[s])
}

/// Whether a path names what one of some names.
spec fn names_one(path: Seq<char>, list: Seq<Seq<char>>) -> bool {
    exists|r: int| 0 <= r < list.len() && #[trigger] paths::same_path(path, list[r])
}

/// Whether some paths are the given ones, each named once, by its first spelling.
spec fn are_named(list: Seq<Seq<char>>, given: Seq<Seq<char>>) -> bool {
    &&& forall|r: int| 0 <= r < list.len() ==> #[trigger] given_first(given, list[r])
    &&& forall|i: int| 0 <= i < given.len() ==> #[trigger] names_one(given[i], list)
}

proof fn lemma_named_again(list: Seq<Seq<char>>, given: Seq<Seq<char>>, path: Seq<char>)
    requires
        are_named(list, given),
    ensures
        forall|r: int| 0 <= r < list.len() ==> #[trigger] given_first(given.push(path), list[r]),
{
    let longer = given.push(path);
    assert forall|r: int| 0 <= r < list.len() implies #[trigger] given_first(longer, list[r]) by {
        assert(given_first(given, list[r]));
        let i = choose|i: int| #[trigger] first_spelling(given, i) && given[i] == list[r];
        assert forall|j: int| 0 <= j < i implies !paths::same_path(
            #[trigger] longer[j],
            longer[i],
        ) by {
            assert(longer[j] == given[j]);
        }
        assert(first_spelling(longer, i));
    }
}

proof fn lemma_put(list: Seq<Seq<char>>, given: Seq<Seq<char>>, path: Seq<char>, p: int)
    requires
        in_order(list),
        are_named(list, given),
        0 <= p <= list.len(),
        forall|r: int| 0 <= r < p ==> #[trigger] paths::path_less(list[r], path),
        p < list.len() ==> paths::path_less(path, list[p]),
    ensures
        in_order(list.insert(p, path)),
        are_named(list.insert(p, path), given.push(path)),
{
    let longer = given.push(path);
    let after = list.insert(p, path);
    let parts = paths::components(path);
    lemma_named_again(list, given, path);
    assert forall|r: int| p <= r < list.len() implies #[trigger] paths::path_less(path, list[r]) by {
        if r > p {
            assert(paths::path_less(list[p], list[r]));
            paths::lemma_parts_less_transitive(
                parts,
                paths::components(list[p]),
                paths::components(list[r]),
            );
        }
    }
    assert forall|j: int| 0 <= j < given.len() implies !paths::same_path(
        #[trigger] longer[j],
        path,
    ) by {
        assert(longer[j] == given[j]);
        if paths::same_path(given[j], path) {
            assert(names_one(given[j], list));
            let r = choose|r: int|
                0 <= r < list.len() && #[trigger] paths::same_path(given[j], list[r]);
            paths::lemma_parts_less_irreflexive(parts);
            if r < p {
                assert(paths::path_less(list[r], path));
            } else {
                assert(paths::path_less(path, list[r]));
            }
        }
    }
    assert(longer[given.len() as int] == path);
    assert(first_spelling(longer, given.len() as int));
    assert(given_first(longer, path));
    assert forall|r: int, s: int| 0 <= r < s < after.len() implies #[trigger] paths::path_less(
        after[r],
        after[s],
    ) by {
        let x = if r < p { r } else { r - 1 };
        let y = if s < p { s } else { s - 1 };
        if r != p && s != p {
            assert(paths::path_less(list[x], list[y]));
        } else if r == p {
            assert(paths::path_less(path, list[y]));
        } else {
            assert(paths::path_less(list[x], path));
        }
    }
    assert forall|r: int| 0 <= r < after.len() implies #[trigger] given_first(longer, after[r]) by {
        if r != p {
            let x = if r < p { r } else { r - 1 };
            assert(given_first(longer, list[x]));
        }
    }
    assert forall|i: int| 0 <= i < longer.len() implies #[trigger] names_one(longer[i], after) by {
        if i < given.len() {
            assert(longer[i] == given[i]);
            assert(names_one(given[i], list));
            let r = choose|r: int|
                0 <= r < list.len() && #[trigger] paths::same_path(given[i], list[r]);
            let s = if r < p { r } else { r + 1 };
            assert(after[s] == list[r]);
            assert(paths::same_path(longer[i], after[s]));
        } else {
            assert(paths::same_path(longer[i], after[p]));
        }
    }
}

/// Puts a path in its place, unless it is there.
fn put(list: &mut Vec<String>, path: &String, Ghost(given): Ghost<Seq<Seq<char>>>)
    requires
        in_order(text::texts(old(list)@)),
        are_named(text::texts(old(list)@), given),
    ensures
        in_order(text::texts(final(list)@)),
        are_named(text::texts(final(list)@), given.push(path@)),
{
    let ghost before = text::texts(list@);
    let ghost longer = given.push(path@);
    let mut p: usize = 0;
    while p < list.len() && paths::path_before(list[p].as_str(), path.as_str())
        invariant
            p <= list@.len(),
            before == text::texts(list@),
            forall|r: int| 0 <= r < p ==> #[trigger] paths::path_less(before[r], path@),
        decreases list@.len() - p,
    {
        p = p + 1;
    }
    if p < list.len() && paths::paths_equal(list[p].as_str(), path.as_str()) {
        proof {
            assert(before[p as int] == list@[p as int]@);
            lemma_named_again(before, given, path@);
            assert forall|i: int| 0 <= i < longer.len() implies #[trigger] names_one(
                longer[i],
                before,
            ) by {
                if i < given.len() {
                    assert(longer[i] == given[i]);
                    assert(names_one(given[i], before));
                } else {
                    assert(paths::same_path(longer[i], before[p as int]));
                }
            }
        }
        return ;
    }
    proof {
        if p < list@.len() {
            assert(before[p as int] == list@[p as int]@);
            paths::lemma_parts_less_total(
                paths::components(path@),
                paths::components(before[p as int]),
            );
        }
        lemma_put(before, given, path@, p as int);
    }
    list.insert(p, path.clone());
    assert(text::texts(list@) =~= before.insert(p as int, path@));
}

/// Whether a path lies in one of some folders.
fn within_any(path: &str, roots: &Vec<String>) -> (result: bool)
    ensures
        result == inside_one(path@, text::texts(roots@)),
{
    for r in 0..roots.len()
        invariant
            forall|s: int|
                0 <= s < r ==> !#[trigger] paths::within(path@, text::texts(roots@)[s]),
    {
        if paths::path_within(path, roots[r].as_str()) {
            assert(paths::within(path@, text::texts(roots@)[r as int]));
            return true;
        }
    }
    false
}

/// Whether a path is one of the first of a list.
spec fn is_among(path: Seq<char>, list: Seq<Seq<char>>, count: int) -> bool {
    exists|k: int| 0 <= k < count && #[trigger] list[k] == path
}

/// Whether some folders are those of the first of a list that lie in no other.
spec fn are_outer(kept: Seq<Seq<char>>, list: Seq<Seq<char>>, count: int) -> bool {
    &&& forall|r: int| 0 <= r < kept.len() ==> #[trigger] is_among(kept[r], list, count)
    &&& forall|k: int| 0 <= k < count ==> #[trigger] inside_one(list[k], kept)
    &&& forall|r: int, s: int|
        0 <= r < s < kept.len() ==> !#[trigger] paths::within(kept[s], kept[r])
    &&& in_order(kept)
}

proof fn lemma_outer_more(kept: Seq<Seq<char>>, list: Seq<Seq<char>>, count: int)
    requires
        in_order(list),
        0 <= count < list.len(),
        are_outer(kept, list, count),
    ensures
        inside_one(list[count], kept) ==> are_outer(kept, list, count + 1),
        !inside_one(list[count], kept) ==> are_outer(kept.push(list[count]), list, count + 1),
{
    assert forall|r: int| 0 <= r < kept.len() implies #[trigger] is_among(
        kept[r],
        list,
        count + 1,
    ) by {
        assert(is_among(kept[r], list, count));
        let k = choose|k: int| 0 <= k < count && #[trigger] list[k] == kept[r];
        assert(list[k] == kept[r]);
    }
    if !inside_one(list[count], kept) {
        let after = kept.push(list[count]);
        lemma_self_within(list[count]);
        assert(paths::within(list[count], after[kept.len() as int]));
        assert(is_among(list[count], list, count + 1));
        assert forall|r: int| 0 <= r < after.len() implies #[trigger] is_among(
            after[r],
            list,
            count + 1,
        ) by {
            if r < kept.len() {
                assert(after[r] == kept[r]);
                assert(is_among(kept[r], list, count + 1));
            }
        }
        assert forall|k: int| 0 <= k < count + 1 implies #[trigger] inside_one(list[k], after) by {
            if k < count {
                assert(inside_one(list[k], kept));
                let r = choose|r: int|
                    0 <= r < kept.len() && #[trigger] paths::within(list[k], kept[r]);
                assert(after[r] == kept[r]);
                assert(paths::within(list[k], after[r]));
            }
        }
        assert forall|r: int, s: int| 0 <= r < s < after.len() implies !#[trigger] paths::within(
            after[s],
            after[r],
        ) by {
            assert(after[r] == kept[r]);
            if s < kept.len() {
                assert(after[s] == kept[s]);
                assert(!paths::within(kept[s], kept[r]));
            }
        }
        assert forall|r: int, s: int| 0 <= r < s < after.len() implies #[trigger] paths::path_less(
            after[r],
            after[s],
        ) by {
            assert(after[r] == kept[r]);
            if s < kept.len() {
                assert(after[s] == kept[s]);
                assert(paths::path_less(kept[r], kept[s]));
            } else {
                assert(is_among(kept[r], list, count));
                let k = choose|k: int| 0 <= k < count && #[trigger] list[k] == kept[r];
                assert(paths::path_less(list[k], list[count]));
            }
        }
    }
}

proof fn lemma_outer_roots(kept: Seq<Seq<char>>, list: Seq<Seq<char>>, given: Seq<Seq<char>>)
    requires
        are_outer(kept, list, list.len() as int),
        are_named(list, given),
    ensures
        are_roots(kept, given),
{
    assert forall|r: int| 0 <= r < kept.len() implies #[trigger] given_first(given, kept[r]) by {
        assert(is_among(kept[r], list, list.len() as int));
        let k = choose|k: int| 0 <= k < list.len() && #[trigger] list[k] == kept[r];
        assert(given_first(given, list[k]));
    }
    assert forall|i: int| 0 <= i < given.len() implies #[trigger] inside_one(given[i], kept) by {
        assert(names_one(given[i], list));
        let k = choose|k: int| 0 <= k < list.len() && #[trigger] paths::same_path(given[i], list[k]);
        assert(inside_one(list[k], kept));
        let r = choose|r: int| 0 <= r < kept.len() && #[trigger] paths::within(list[k], kept[r]);
        assert(paths::within(given[i], kept[r]));
    }
    assert forall|r: int, s: int|
        0 <= r < kept.len() && 0 <= s < kept.len() && r != s implies !#[trigger] paths::within(
        kept[r],
        kept[s],
    ) by {
        if r < s {
            assert(paths::path_less(kept[r], kept[s]));
            if paths::within(kept[r], kept[s]) {
                lemma_within_order(kept[r], kept[s]);
            }
        } else {
            assert(!paths::within(kept[r], kept[s]));
        }
    }
}

/// Leaves out the folders that lie in another one: what they hold would be seen
/// twice, and taken for its own duplicate.
pub fn normalize_roots(roots: &[String]) -> (result: Vec<String>)
    ensures
        are_roots(text::texts(result@), text::texts(roots@)),
{
    let ghost given = text::texts(roots@);
    let mut list: Vec<String> = Vec::new();
    assert(given.take(0) =~= Seq::<Seq<char>>::empty());
    for i in 0..roots.len()
        invariant
            given == text::texts(roots@),
            in_order(text::texts(list@)),
            are_named(text::texts(list@), given.take(i as int)),
    {
        put(&mut list, &roots[i], Ghost(given.take(i as int)));
        assert(given.take(i + 1) =~= given.take(i as int).push(roots@[i as int]@));
    }
    assert(given.take(given.len() as int) =~= given);
    let ghost all = text::texts(list@);
    let mut result: Vec<String> = Vec::new();
    for i in 0..list.len()
        invariant
            all == text::texts(list@),
            in_order(all),
            are_outer(text::texts(result@), all, i as int),
    {
        let ghost before = text::texts(result@);
        proof {
            assert(all[i as int] == list@[i as int]@);
            lemma_outer_more(before, all, i as int);
        }
        if !within_any(list[i].as_str(), &result) {
            result.push(list[i].clone());
            assert(text::texts(result@) =~= before.push(all[i as int]));
        }
    }
    proof {
        lemma_outer_roots(text::texts(result@), all, given);
    }
    result
}

proof fn lemma_self_within(path: Seq<char>)
    ensures
        paths::within(path, path),
{
    let parts = paths::components(path);
    assert(parts.take(parts.len() as int) =~= parts);
}

/// What lies in a folder does not come before it.
proof fn lemma_within_order(path: Seq<char>, base: Seq<char>)
    requires
        paths::within(path, base),
    ensures
        !paths::path_less(path, base),
{
    let a = paths::components(base);
    let b = paths::components(path);
    paths::lemma_parts_less_irreflexive(a);
    if a.len() == b.len() {
        assert(b.take(a.len() as int) =~= b);
    } else {
        paths::lemma_parts_less_prefix(a, b);
        if paths::path_less(path, base) {
            paths::lemma_parts_less_transitive(a, b, a);
        }
    }
}

/// What Windows puts before a path that it takes as it stands.
pub open spec fn verbatim_prefix() -> Seq<char> {
    "\\\\?\\"@
}

/// What Windows puts before a path is two `\\`, a question mark and another.
pub proof fn lemma_verbatim_prefix()
    ensures
        verbatim_prefix() == seq!['\\', '\\', '?', '\\'],
{
    reveal_strlit("\\\\?\\");
    assert(verbatim_prefix() =~= seq!['\\', '\\', '?', '\\']);
}

/// The path without what Windows puts before one that it takes as it stands, or
/// `None` where it has to stay: it is not there, or the path names a share.
pub fn plain_path(path: &str) -> (plain: Option<String>)
    ensures
        match plain {
            Some(p) => {
                &&& text::begins_with(path@, verbatim_prefix())
                &&& p@ == path@.skip(verbatim_prefix().len() as int)
                &&& !text::begins_with(p@, "UNC"@)
            },
            None => !text::begins_with(path@, verbatim_prefix()) || text::begins_with(
                path@.skip(verbatim_prefix().len() as int),
                "UNC"@,
            ),
        },
{
    match text::after_start(path, "\\\\?\\") {
        None => None,
        Some(rest) => {
            if text::after_start(rest.as_str(), "UNC").is_some() {
                None
            } else {
                Some(rest)
            }
        },
    }
}

} // verus!
