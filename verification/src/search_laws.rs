//! What a whole search comes to: the files with the same content are found, and
//! no others.
//!
//! A search hears of files while the folders are gone through, and of what was
//! read of them. What is told of a file is measured against its content, which is
//! given for the number under which the file is found: what was read whole, or, of
//! a file that was not, what it held when it was found. A file may change while it
//! is searched, or refuse to be read; what was asked for has then failed.
use vstd::prelude::*;

use crate::buckets;
use crate::contents;
use crate::scanner::{self, Msg, ScanState, Task};

verus! {

// ----------------------------------------------------------------------- searches

/// What is read of a file for its partial fingerprint: its two ends.
pub open spec fn ends(content: Seq<u8>) -> Seq<u8> {
    content.take(contents::PARTIAL_CHUNK as int) + content.skip(
        content.len() - contents::PARTIAL_CHUNK,
    )
}

/// The file that is to be read, and whether the whole of it is.
pub open spec fn kind(task: Task) -> (usize, bool) {
    match task {
        Task::Partial(id, _, _) => (id, false),
        Task::Full(id, _) => (id, true),
    }
}

/// The files that are to be read, and whether the whole of each is.
pub open spec fn kinds(tasks: Seq<Task>) -> Seq<(usize, bool)> {
    tasks.map_values(|t: Task| kind(t))
}

/// What a message answers of what is open: the file, and whether the whole of it
/// was to be read.
pub open spec fn answered(open: Set<(usize, bool)>, msg: Msg) -> Option<(usize, bool)> {
    match msg {
        Msg::Partial(id, _) => Some((id, false)),
        Msg::Full(id, _, _) => Some((id, true)),
        Msg::ReadError(id, _) => Some((id, open.contains((id, true)))),
        _ => None,
    }
}

/// What is left of what was asked for, once an answer has come.
pub open spec fn without(open: Set<(usize, bool)>, answer: Option<(usize, bool)>) -> Set<
    (usize, bool),
> {
    match answer {
        Some(a) => open.remove(a),
        None => open,
    }
}

/// Some answers, with one more where it counts among them.
pub open spec fn with_answer(
    answers: Set<(usize, bool)>,
    answer: Option<(usize, bool)>,
    counts: bool,
) -> Set<(usize, bool)> {
    if counts && answer is Some {
        answers.insert(answer->0)
    } else {
        answers
    }
}

/// What was given out to be read upon some messages, in order.
pub open spec fn asked_for(msgs: Seq<Msg>) -> Seq<(usize, bool)>
    decreases msgs.len(),
{
    if msgs.len() == 0 {
        Seq::empty()
    } else {
        let before = ScanState::initial().played(msgs.drop_last());
        asked_for(msgs.drop_last()) + kinds(before.after(msgs.last()).1)
    }
}

/// What was given out to be read upon some messages and was not answered by one
/// of them.
pub open spec fn unanswered(msgs: Seq<Msg>) -> Set<(usize, bool)>
    decreases msgs.len(),
{
    if msgs.len() == 0 {
        Set::empty()
    } else {
        let before = ScanState::initial().played(msgs.drop_last());
        let open = unanswered(msgs.drop_last());
        without(open, answered(open, msgs.last())) + kinds(before.after(msgs.last()).1).to_set()
    }
}

/// Whether what a message answers could not be had: it could not be read, or there
/// was more or less of it than was found.
pub open spec fn not_had(before: ScanState, msg: Msg) -> bool {
    match msg {
        Msg::Full(id, _, bytes) => bytes != before.files[id as int].1,
        Msg::ReadError(_, _) => true,
        _ => false,
    }
}

/// Whether what a message answers could not be had, or is the fingerprint of ends
/// that are not those of the content.
pub open spec fn fails(before: ScanState, msg: Msg, content: spec_fn(int) -> Seq<u8>) -> bool {
    not_had(before, msg) || match msg {
        Msg::Partial(id, hash) => hash@ != contents::fingerprint(ends(content(id as int))),
        _ => false,
    }
}

/// What was asked for upon some messages and could not be had: it could not be
/// read, or there was more or less of it than was found.
pub open spec fn missed(msgs: Seq<Msg>) -> Set<(usize, bool)>
    decreases msgs.len(),
{
    if msgs.len() == 0 {
        Set::empty()
    } else {
        let rest = msgs.drop_last();
        with_answer(
            missed(rest),
            answered(unanswered(rest), msgs.last()),
            not_had(ScanState::initial().played(rest), msgs.last()),
        )
    }
}

/// What was asked for upon some messages and could not be had, or not as it is in
/// the content.
pub open spec fn failed(msgs: Seq<Msg>, content: spec_fn(int) -> Seq<u8>) -> Set<(usize, bool)>
    decreases msgs.len(),
{
    if msgs.len() == 0 {
        Set::empty()
    } else {
        let rest = msgs.drop_last();
        with_answer(
            failed(rest, content),
            answered(unanswered(rest), msgs.last()),
            fails(ScanState::initial().played(rest), msgs.last(), content),
        )
    }
}

/// Whether a message can come after some others and tells the truth about files
/// with some content: a file is found with its size, what was read or could not be
/// read was asked for and was not answered yet, and the fingerprint of a whole file
/// of the size that was found is that of its content.
pub open spec fn true_message(earlier: Seq<Msg>, msg: Msg, content: spec_fn(int) -> Seq<u8>) -> bool {
    let before = ScanState::initial().played(earlier);
    let open = unanswered(earlier);
    &&& before.can_take(msg)
    &&& answered(open, msg) is Some ==> open.contains(answered(open, msg)->0)
    &&& match msg {
        Msg::Found(path, size, inode) => {
            ||| inode is Some && before.data.contains(scanner::data_number(inode->0))
            ||| size == content(before.files.len() as int).len()
        },
        Msg::Full(id, hash, bytes) => bytes == before.files[id as int].1 ==> hash@
            == contents::fingerprint(content(id as int)),
        _ => true,
    }
}

/// Whether some messages, in order, tell the truth about files with some content.
pub open spec fn honest(msgs: Seq<Msg>, content: spec_fn(int) -> Seq<u8>) -> bool
    decreases msgs.len(),
{
    msgs.len() == 0 || {
        &&& honest(msgs.drop_last(), content)
        &&& true_message(msgs.drop_last(), msgs.last(), content)
    }
}

/// Whether nothing failed that was asked for of a file.
pub open spec fn none_failed(msgs: Seq<Msg>, content: spec_fn(int) -> Seq<u8>, i: int) -> bool {
    &&& !failed(msgs, content).contains((i as usize, false))
    &&& !failed(msgs, content).contains((i as usize, true))
}

/// Whether different contents of the first files have different fingerprints.
pub open spec fn no_collisions(content: spec_fn(int) -> Seq<u8>, count: nat) -> bool {
    forall|i: int, j: int| #![trigger content(i), content(j)]
        0 <= i < count && 0 <= j < count && contents::fingerprint(content(i))
            == contents::fingerprint(content(j)) ==> content(i) == content(j)
}

// ----------------------------------------------------------------- where one stands

/// The fingerprint that was last told of the ends of a file.
spec fn ends_told(msgs: Seq<Msg>, x: int) -> Seq<u8>
    decreases msgs.len(),
{
    if msgs.len() == 0 {
        Seq::empty()
    } else {
        match msgs.last() {
            Msg::Partial(id, hash) => if id == x {
                hash@
            } else {
                ends_told(msgs.drop_last(), x)
            },
            _ => ends_told(msgs.drop_last(), x),
        }
    }
}

/// A search, the fingerprints of ends that it was told and the content of the
/// files.
ghost struct At {
    st: ScanState,
    half: spec_fn(int) -> Seq<u8>,
    content: spec_fn(int) -> Seq<u8>,
}

spec fn at_end(msgs: Seq<Msg>, content: spec_fn(int) -> Seq<u8>) -> At {
    At { st: ScanState::initial().played(msgs), half: |x: int| ends_told(msgs, x), content }
}

spec fn no_print() -> spec_fn(int) -> Seq<u8> {
    |x: int| scanner::unread()
}

spec fn whole_print(content: spec_fn(int) -> Seq<u8>) -> spec_fn(int) -> Seq<u8> {
    |x: int| contents::fingerprint(content(x))
}

/// The files that are together with a file.
spec fn mates(
    list: Seq<buckets::Contents>,
    files: Seq<(Seq<char>, u64)>,
    print: spec_fn(int) -> Seq<u8>,
    x: usize,
) -> Seq<usize> {
    buckets::ids_of(list, files[x as int].1, print(x as int))
}

/// Whether the files of each bucket are there once and have its size and
/// fingerprint.
spec fn put_right(
    list: Seq<buckets::Contents>,
    files: Seq<(Seq<char>, u64)>,
    print: spec_fn(int) -> Seq<u8>,
) -> bool {
    &&& buckets::distinct(list)
    &&& forall|size: u64, hash: Seq<u8>| #![trigger buckets::ids_of(list, size, hash)]
        buckets::ids_of(list, size, hash).no_duplicates()
    &&& forall|size: u64, hash: Seq<u8>, x: usize| #[trigger]
        buckets::ids_of(list, size, hash).contains(x) ==> x < files.len() && files[x as int].1
            == size && print(x as int) == hash
}

/// Whether the two ends of a file cover it.
spec fn is_small(at: At, x: usize) -> bool {
    at.st.files[x as int].1 <= 2 * contents::PARTIAL_CHUNK
}

spec fn same_size(at: At, x: usize) -> Seq<usize> {
    mates(at.st.by_size, at.st.files, no_print(), x)
}

spec fn same_ends(at: At, x: usize) -> Seq<usize> {
    mates(at.st.by_partial, at.st.files, at.half, x)
}

spec fn same_whole(at: At, x: usize) -> Seq<usize> {
    mates(at.st.by_full, at.st.files, whole_print(at.content), x)
}

/// Whether a file has to be read, in part or whole.
spec fn due(at: At, what: (usize, bool)) -> bool {
    let x = what.0;
    &&& x < at.st.files.len()
    &&& same_size(at, x).len() >= 2
    &&& if what.1 {
        is_small(at, x) || (same_ends(at, x).contains(x) && same_ends(at, x).len() >= 2)
    } else {
        !is_small(at, x)
    }
}

/// Whether a file was read, in part or whole.
spec fn done(at: At, what: (usize, bool)) -> bool {
    let x = what.0;
    &&& x < at.st.files.len()
    &&& if what.1 {
        same_whole(at, x).contains(x)
    } else {
        same_ends(at, x).contains(x)
    }
}

/// Whether the files are where they belong.
spec fn sound(at: At) -> bool {
    &&& at.st.files.len() <= usize::MAX
    &&& put_right(at.st.by_size, at.st.files, no_print())
    &&& put_right(at.st.by_partial, at.st.files, at.half)
    &&& put_right(at.st.by_full, at.st.files, whole_print(at.content))
    &&& forall|x: int| #![trigger at.st.files[x]]
        0 <= x < at.st.files.len() ==> at.st.files[x].1 == (at.content)(x).len()
    &&& forall|x: usize| x < at.st.files.len() ==> (#[trigger] same_size(at, x)).contains(x)
}

/// Whether what is open is what has to be read, was not read and did not fail, and
/// what was read or failed had to be read.
spec fn awaits(at: At, open: Set<(usize, bool)>, lost: Set<(usize, bool)>) -> bool {
    &&& forall|what: (usize, bool)| #[trigger] done(at, what) ==> due(at, what)
    &&& forall|what: (usize, bool)| #[trigger] lost.contains(what) ==> due(at, what)
    &&& forall|what: (usize, bool)| #[trigger]
        open.contains(what) <==> due(at, what) && !done(at, what) && !lost.contains(what)
    &&& open.finite()
    &&& at.st.pending == open.len()
}

/// Whether the ends of a file that were read are those of its content, where they
/// did not fail.
spec fn ends_right(at: At, lost: Set<(usize, bool)>) -> bool {
    forall|x: usize| #[trigger]
        done(at, (x, false)) && !lost.contains((x, false)) ==> (at.half)(x as int)
            == contents::fingerprint(ends((at.content)(x as int)))
}

/// Whether what is newly given out is what has to be read from now on.
spec fn gives_out(at: At, now: At, given: Seq<(usize, bool)>) -> bool {
    &&& given.no_duplicates()
    &&& forall|what: (usize, bool)| #[trigger]
        due(now, what) <==> due(at, what) || given.contains(what)
    &&& forall|what: (usize, bool)| #[trigger] given.contains(what) ==> !due(at, what)
}

/// Whether what was answered, if anything, is all that counts as read from now on.
spec fn takes_in(at: At, now: At, answer: Option<(usize, bool)>) -> bool {
    forall|what: (usize, bool)| #[trigger]
        done(now, what) <==> done(at, what) || answer == Some(what)
}

proof fn lemma_step(
    at: At,
    now: At,
    open: Set<(usize, bool)>,
    lost: Set<(usize, bool)>,
    given: Seq<(usize, bool)>,
    answer: Option<(usize, bool)>,
    had: bool,
    fails: bool,
)
    requires
        awaits(at, open, lost),
        gives_out(at, now, given),
        takes_in(
            at,
            now,
            if had {
                answer
            } else {
                None
            },
        ),
        had || fails,
        answer is Some ==> open.contains(answer->0),
        now.st.pending == at.st.pending + given.len() - if answer is Some {
            1int
        } else {
            0
        },
    ensures
        awaits(now, without(open, answer) + given.to_set(), with_answer(lost, answer, fails)),
{
    let left = without(open, answer);
    let all = left + given.to_set();
    let gone = with_answer(lost, answer, fails);
    given.unique_seq_to_set();
    vstd::seq_lib::seq_to_set_is_finite(given);
    assert(left.disjoint(given.to_set())) by {
        assert forall|what: (usize, bool)| left.contains(what) implies !given.to_set().contains(
            what,
        ) by {
            assert(open.contains(what));
            assert(given.contains(what) ==> !due(at, what));
        }
    }
    vstd::set_lib::lemma_set_disjoint_lens(left, given.to_set());
    assert forall|what: (usize, bool)| #[trigger] done(now, what) implies due(now, what) by {
        if answer == Some(what) {
            assert(open.contains(what));
        } else {
            assert(done(at, what));
        }
    }
    assert forall|what: (usize, bool)| #[trigger] gone.contains(what) implies due(now, what) by {
        if answer == Some(what) {
            assert(open.contains(what));
        } else {
            assert(lost.contains(what));
        }
    }
    assert forall|what: (usize, bool)| #[trigger] all.contains(what) <==> due(now, what) && !done(
        now,
        what,
    ) && !gone.contains(what) by {
        assert(open.contains(what) <==> due(at, what) && !done(at, what) && !lost.contains(what));
        assert(done(at, what) ==> due(at, what));
        assert(lost.contains(what) ==> due(at, what));
        assert(due(now, what) <==> due(at, what) || given.contains(what));
        assert(given.contains(what) ==> !due(at, what));
        assert(given.to_set().contains(what) == given.contains(what));
        if answer is Some {
            assert(open.contains(answer->0));
        }
    }
}

// ------------------------------------------------------------------- one message

proof fn lemma_put_in(
    list: Seq<buckets::Contents>,
    before: Seq<(Seq<char>, u64)>,
    files: Seq<(Seq<char>, u64)>,
    print: spec_fn(int) -> Seq<u8>,
    id: usize,
)
    requires
        put_right(list, before, print),
        before.len() <= files.len(),
        forall|i: int| #![trigger files[i]] 0 <= i < before.len() ==> files[i] == before[i],
        id < files.len(),
        !mates(list, files, print, id).contains(id),
    ensures
        put_right(
            buckets::filed(list, files[id as int].1, print(id as int), id),
            files,
            print,
        ),
{
    let size = files[id as int].1;
    let hash = print(id as int);
    let after = buckets::filed(list, size, hash, id);
    buckets::lemma_filed_distinct(list, size, hash, id);
    assert forall|s: u64, h: Seq<u8>| #![trigger buckets::ids_of(after, s, h)]
        buckets::ids_of(after, s, h).no_duplicates() by {
        buckets::lemma_ids_filed(list, size, hash, id, s, h);
        let old_ids = buckets::ids_of(list, s, h);
        assert(old_ids.no_duplicates());
        if s == size && h == hash {
            assert forall|i: int, j: int|
                0 <= i < j < old_ids.push(id).len() implies old_ids.push(id)[i] != old_ids.push(
                id,
            )[j] by {
                if j == old_ids.len() {
                    assert(old_ids.contains(old_ids[i]));
                }
            }
        }
    }
    assert forall|s: u64, h: Seq<u8>, x: usize| #[trigger]
        buckets::ids_of(after, s, h).contains(x) implies x < files.len() && files[x as int].1 == s
        && print(x as int) == h by {
        buckets::lemma_ids_filed(list, size, hash, id, s, h);
        let old_ids = buckets::ids_of(list, s, h);
        vstd::seq_lib::lemma_seq_contains_after_push(old_ids, id, x);
        if old_ids.contains(x) {
            assert(files[x as int] == before[x as int]);
        }
    }
}

proof fn lemma_more_files(
    list: Seq<buckets::Contents>,
    before: Seq<(Seq<char>, u64)>,
    files: Seq<(Seq<char>, u64)>,
    print: spec_fn(int) -> Seq<u8>,
)
    requires
        put_right(list, before, print),
        before.len() <= files.len(),
        forall|i: int| #![trigger files[i]] 0 <= i < before.len() ==> files[i] == before[i],
    ensures
        put_right(list, files, print),
{
    assert forall|s: u64, h: Seq<u8>, x: usize| #[trigger]
        buckets::ids_of(list, s, h).contains(x) implies x < files.len() && files[x as int].1 == s
        && print(x as int) == h by {
        assert(files[x as int] == before[x as int]);
    }
}

/// What is given out when one more file belongs with some.
proof fn lemma_started(before: Seq<usize>, id: usize, given: Seq<(usize, bool)>, whole: bool)
    requires
        !before.contains(id),
        given.len() == scanner::to_start(before, id).len(),
        forall|k: int| #![trigger given[k]]
            0 <= k < given.len() ==> given[k] == (scanner::to_start(before, id)[k], whole),
    ensures
        given.no_duplicates(),
        forall|what: (usize, bool)| #[trigger]
            given.contains(what) <==> what.1 == whole && before.len() > 0 && (what.0 == id || (
            before.len() == 1 && what.0 == before[0])),
{
    if before.len() == 1 {
        assert(before.contains(before[0]));
        assert(given[0] == (before[0], whole));
        assert(given[1] == (id, whole));
    } else if before.len() > 1 {
        assert(given[0] == (id, whole));
    }
}

/// A file is found whose data was not met.
proof fn lemma_found(
    at: At,
    now: At,
    open: Set<(usize, bool)>,
    lost: Set<(usize, bool)>,
    path: String,
    size: u64,
    inode: Option<(u64, u64)>,
)
    requires
        sound(at),
        awaits(at, open, lost),
        at.st.can_take(Msg::Found(path, size, inode)),
        !(inode is Some && at.st.data.contains(scanner::data_number(inode->0))),
        size == (at.content)(at.st.files.len() as int).len(),
        now == (At { st: at.st.after(Msg::Found(path, size, inode)).0, ..at }),
    ensures
        ({
            let given = kinds(at.st.after(Msg::Found(path, size, inode)).1);
            &&& sound(now)
            &&& gives_out(at, now, given)
            &&& takes_in(at, now, None)
            &&& now.st.pending == at.st.pending + given.len()
        }),
{
    let (next, tasks, _) = at.st.after(Msg::Found(path, size, inode));
    let st = at.st;
    let given = kinds(tasks);
    let n = st.files.len();
    let id = n as usize;
    let before = buckets::ids_of(st.by_size, size, scanner::unread());
    let whole = size <= 2 * contents::PARTIAL_CHUNK;
    assert(next.files[id as int] == (path@, size));
    assert forall|x: int| #![trigger next.files[x]] 0 <= x < n implies next.files[x]
        == st.files[x] by {}
    assert(no_print()(id as int) == scanner::unread());
    lemma_put_in(st.by_size, st.files, next.files, no_print(), id);
    lemma_more_files(st.by_partial, st.files, next.files, at.half);
    lemma_more_files(st.by_full, st.files, next.files, whole_print(at.content));
    assert(!before.contains(id));
    assert forall|x: usize| x < n implies #[trigger] same_size(now, x) == if st.files[x as int].1
        == size {
        before.push(id)
    } else {
        same_size(at, x)
    } by {
        buckets::lemma_ids_filed(
            st.by_size,
            size,
            scanner::unread(),
            id,
            st.files[x as int].1,
            scanner::unread(),
        );
    }
    buckets::lemma_ids_filed(
        st.by_size,
        size,
        scanner::unread(),
        id,
        size,
        scanner::unread(),
    );
    assert(same_size(now, id) == before.push(id));
    assert forall|x: usize| x < next.files.len() implies (#[trigger] same_size(now, x)).contains(
        x,
    ) by {
        vstd::seq_lib::lemma_seq_contains_after_push(before, id, x);
        if x < n {
            assert(same_size(at, x).contains(x));
        }
    }
    assert forall|x: int| #![trigger next.files[x]] 0 <= x < next.files.len() implies next.files[x].1
        == (now.content)(x).len() by {
        if x < n {
            assert(st.files[x].1 == (at.content)(x).len());
        }
    }
    let fs = scanner::to_start(before, id);
    assert forall|k: int| #![trigger given[k]] 0 <= k < given.len() implies given[k] == (
        fs[k],
        whole,
    ) by {
        if before.len() == 1 {
            assert(before.contains(before[0]));
        }
        assert(tasks[k] == next.first_task(fs[k]));
        assert(next.files[fs[k] as int].1 == size);
    }
    lemma_started(before, id, given, whole);
    assert(!same_ends(now, id).contains(id));
    assert(!same_whole(now, id).contains(id));
    assert forall|what: (usize, bool)| #[trigger] due(now, what) <==> due(at, what)
        || given.contains(what) by {
        let x = what.0;
        if before.len() == 1 {
            assert(before.contains(before[0]));
        }
        if x < n {
            assert(next.files[x as int] == st.files[x as int]);
            assert(same_ends(now, x) == same_ends(at, x));
            assert(same_size(at, x).contains(x));
            if st.files[x as int].1 == size {
                assert(same_size(at, x) == before);
                let k = before.index_of(x);
                assert(before[k] == x);
                if before.len() == 1 {
                    assert(!due(at, (x, false)));
                    assert(done(at, (x, false)) ==> due(at, (x, false)));
                }
            }
        }
    }
    assert forall|what: (usize, bool)| #[trigger] given.contains(what) implies !due(at, what) by {
        if before.len() == 1 {
            assert(before.contains(before[0]));
        }
    }
    assert forall|what: (usize, bool)| #[trigger] done(now, what) <==> done(at, what) by {
        let x = what.0;
        if x < n {
            assert(same_ends(now, x) == same_ends(at, x));
            assert(same_whole(now, x) == same_whole(at, x));
        }
    }
}

/// The ends of a file were read.
proof fn lemma_ends_read(
    at: At,
    now: At,
    open: Set<(usize, bool)>,
    lost: Set<(usize, bool)>,
    id: usize,
    hash: contents::Hash,
)
    requires
        sound(at),
        awaits(at, open, lost),
        open.contains((id, false)),
        now.st == at.st.after(Msg::Partial(id, hash)).0,
        now.content == at.content,
        forall|x: int| #[trigger]
            (now.half)(x) == if x == id {
                hash@
            } else {
                (at.half)(x)
            },
    ensures
        ({
            let given = kinds(at.st.after(Msg::Partial(id, hash)).1);
            &&& sound(now)
            &&& gives_out(at, now, given)
            &&& takes_in(at, now, Some((id, false)))
            &&& now.st.pending == at.st.pending - 1 + given.len()
        }),
{
    let (next, tasks, _) = at.st.after(Msg::Partial(id, hash));
    let st = at.st;
    let given = kinds(tasks);
    let size = st.files[id as int].1;
    assert(due(at, (id, false)));
    assert(!done(at, (id, false)));
    let before = buckets::ids_of(st.by_partial, size, hash@);
    assert forall|s: u64, h: Seq<u8>, x: usize| #[trigger]
        buckets::ids_of(st.by_partial, s, h).contains(x) implies x != id && (now.half)(x as int)
        == h by {
        if x == id {
            assert(same_ends(at, id) == buckets::ids_of(st.by_partial, s, h));
        }
    }
    assert(!before.contains(id));
    assert((now.half)(id as int) == hash@);
    assert(put_right(st.by_partial, st.files, now.half));
    lemma_put_in(st.by_partial, st.files, st.files, now.half, id);
    assert forall|x: usize| #[trigger] same_ends(now, x) == if st.files[x as int].1 == size && (
    now.half)(x as int) == hash@ {
        before.push(id)
    } else {
        buckets::ids_of(st.by_partial, st.files[x as int].1, (now.half)(x as int))
    } by {
        buckets::lemma_ids_filed(
            st.by_partial,
            size,
            hash@,
            id,
            st.files[x as int].1,
            (now.half)(x as int),
        );
    }
    assert forall|x: usize| x < next.files.len() implies (#[trigger] same_size(now, x)).contains(
        x,
    ) by {
        assert(same_size(at, x).contains(x));
    }
    let fs = scanner::to_start(before, id);
    assert forall|k: int| #![trigger given[k]] 0 <= k < given.len() implies given[k] == (
        fs[k],
        true,
    ) by {
        assert(tasks[k] == Task::Full(fs[k], next.files[fs[k] as int].0));
    }
    lemma_started(before, id, given, true);
    assert forall|what: (usize, bool)| #[trigger] due(now, what) <==> due(at, what)
        || given.contains(what) by {
        let x = what.0;
        assert(same_size(now, x) == same_size(at, x));
        assert((now.half)(x as int) == if x == id {
            hash@
        } else {
            (at.half)(x as int)
        });
        vstd::seq_lib::lemma_seq_contains_after_push(before, id, x);
        if before.len() == 1 {
            assert(before.contains(before[0]));
        }
        if x < st.files.len() && st.files[x as int].1 == size {
            assert(same_size(at, x) == same_size(at, id));
            if before.contains(x) {
                let k = before.index_of(x);
                assert(before[k] == x);
            }
        }
    }
    assert forall|what: (usize, bool)| #[trigger] given.contains(what) implies !due(at, what) by {
        if before.len() == 1 {
            assert(before.contains(before[0]));
            assert((now.half)(before[0] as int) == hash@);
        }
    }
    assert forall|what: (usize, bool)| #[trigger] done(now, what) <==> done(at, what) || what == (
        id,
        false,
    ) by {
        let x = what.0;
        assert(same_whole(now, x) == same_whole(at, x));
        assert((now.half)(x as int) == if x == id {
            hash@
        } else {
            (at.half)(x as int)
        });
        vstd::seq_lib::lemma_seq_contains_after_push(before, id, x);
    }
}

/// The whole of a file was read, and was of the size that was found.
proof fn lemma_whole_read(
    at: At,
    now: At,
    open: Set<(usize, bool)>,
    lost: Set<(usize, bool)>,
    id: usize,
    hash: contents::Hash,
    bytes: u64,
)
    requires
        sound(at),
        awaits(at, open, lost),
        open.contains((id, true)),
        hash@ == contents::fingerprint((at.content)(id as int)),
        bytes == at.st.files[id as int].1,
        now == (At { st: at.st.after(Msg::Full(id, hash, bytes)).0, ..at }),
    ensures
        sound(now),
        gives_out(at, now, Seq::empty()),
        takes_in(at, now, Some((id, true))),
        now.st.pending == at.st.pending - 1,
{
    let next = now.st;
    let st = at.st;
    let none = Seq::<(usize, bool)>::empty();
    assert(due(at, (id, true)));
    assert(!done(at, (id, true)));
    let size = st.files[id as int].1;
    let before = same_whole(at, id);
    assert(before == buckets::ids_of(st.by_full, size, hash@));
    lemma_put_in(st.by_full, st.files, st.files, whole_print(at.content), id);
    assert forall|x: usize| #[trigger] same_whole(now, x) == if st.files[x as int].1 == size
        && whole_print(at.content)(x as int) == hash@ {
        before.push(id)
    } else {
        same_whole(at, x)
    } by {
        buckets::lemma_ids_filed(
            st.by_full,
            size,
            hash@,
            id,
            st.files[x as int].1,
            whole_print(at.content)(x as int),
        );
    }
    assert forall|x: usize| x < next.files.len() implies (#[trigger] same_size(now, x)).contains(
        x,
    ) by {
        assert(same_size(at, x).contains(x));
    }
    assert forall|what: (usize, bool)| #[trigger] due(now, what) <==> due(at, what)
        || none.contains(what) by {
        assert(same_size(now, what.0) == same_size(at, what.0));
        assert(same_ends(now, what.0) == same_ends(at, what.0));
    }
    assert forall|what: (usize, bool)| #[trigger] done(now, what) <==> done(at, what) || what == (
        id,
        true,
    ) by {
        let x = what.0;
        assert(same_ends(now, x) == same_ends(at, x));
        vstd::seq_lib::lemma_seq_contains_after_push(before, id, x);
    }
}

/// No file was found and none was read.
proof fn lemma_unchanged(at: At, now: At)
    requires
        sound(at),
        now.half == at.half,
        now.content == at.content,
        now.st.files == at.st.files,
        now.st.by_size == at.st.by_size,
        now.st.by_partial == at.st.by_partial,
        now.st.by_full == at.st.by_full,
    ensures
        sound(now),
        gives_out(at, now, Seq::empty()),
        takes_in(at, now, None),
{
    assert forall|x: usize| x < now.st.files.len() implies (#[trigger] same_size(now, x)).contains(
        x,
    ) by {
        assert(same_size(at, x).contains(x));
    }
    assert forall|what: (usize, bool)| #[trigger] due(now, what) <==> due(at, what) || Seq::<
        (usize, bool),
    >::empty().contains(what) by {
        assert(same_size(now, what.0) == same_size(at, what.0));
        assert(same_ends(now, what.0) == same_ends(at, what.0));
    }
    assert forall|what: (usize, bool)| #[trigger] done(now, what) <==> done(at, what) by {
        assert(same_ends(now, what.0) == same_ends(at, what.0));
        assert(same_whole(now, what.0) == same_whole(at, what.0));
    }
}

// ------------------------------------------------------------------ all messages

/// Where a search stands whose messages tell the truth.
proof fn lemma_searched(msgs: Seq<Msg>, content: spec_fn(int) -> Seq<u8>)
    requires
        honest(msgs, content),
    ensures
        ({
            let now = at_end(msgs, content);
            let lost = failed(msgs, content);
            &&& sound(now)
            &&& awaits(now, unanswered(msgs), lost)
            &&& ends_right(now, lost)
            &&& forall|what: (usize, bool)| #[trigger]
                missed(msgs).contains(what) ==> lost.contains(what) && !done(now, what)
            &&& asked_for(msgs).no_duplicates()
            &&& forall|what: (usize, bool)| #[trigger]
                asked_for(msgs).contains(what) ==> due(now, what)
        }),
    decreases msgs.len(),
{
    let now = at_end(msgs, content);
    if msgs.len() == 0 {
        assert(now.st == ScanState::initial());
        assert(unanswered(msgs) =~= Set::<(usize, bool)>::empty());
    } else {
        let rest = msgs.drop_last();
        let msg = msgs.last();
        let at = at_end(rest, content);
        let open = unanswered(rest);
        let lost = failed(rest, content);
        let given = kinds(at.st.after(msg).1);
        let answer = answered(open, msg);
        let failing = fails(at.st, msg, content);
        let had = !not_had(at.st, msg);
        lemma_searched(rest, content);
        assert(now.st == at.st.after(msg).0);
        if !(msg is Partial) {
            assert(now.half =~= at.half);
        }
        match msg {
            Msg::Found(path, size, inode) => {
                if inode is Some && at.st.data.contains(scanner::data_number(inode->0)) {
                    assert(given =~= Seq::<(usize, bool)>::empty());
                    lemma_unchanged(at, now);
                } else {
                    lemma_found(at, now, open, lost, path, size, inode);
                }
            },
            Msg::Partial(id, hash) => {
                lemma_ends_read(at, now, open, lost, id, hash);
            },
            Msg::Full(id, hash, bytes) => {
                assert(given =~= Seq::<(usize, bool)>::empty());
                if failing {
                    lemma_unchanged(at, now);
                } else {
                    lemma_whole_read(at, now, open, lost, id, hash, bytes);
                }
            },
            _ => {
                assert(given =~= Seq::<(usize, bool)>::empty());
                lemma_unchanged(at, now);
            },
        }
        lemma_step(at, now, open, lost, given, answer, had, failing);
        assert forall|what: (usize, bool)| #[trigger] missed(msgs).contains(what) implies failed(
            msgs,
            content,
        ).contains(what) && !done(now, what) by {
            if missed(rest).contains(what) {
                assert(!open.contains(what));
            } else {
                assert(open.contains(what));
            }
        }
        assert forall|x: usize| #[trigger] done(now, (x, false)) && !failed(msgs, content).contains(
            (x, false),
        ) implies (now.half)(x as int) == contents::fingerprint(ends(content(x as int))) by {
            if !(answer == Some((x, false))) {
                assert(done(at, (x, false)));
            }
        }
        lemma_asked_more(rest, given, msgs, at, now);
    }
}

proof fn lemma_asked_more(
    rest: Seq<Msg>,
    given: Seq<(usize, bool)>,
    msgs: Seq<Msg>,
    at: At,
    now: At,
)
    requires
        asked_for(msgs) == asked_for(rest) + given,
        gives_out(at, now, given),
        asked_for(rest).no_duplicates(),
        forall|what: (usize, bool)| #[trigger]
            asked_for(rest).contains(what) ==> due(at, what),
    ensures
        asked_for(msgs).no_duplicates(),
        forall|what: (usize, bool)| #[trigger]
            asked_for(msgs).contains(what) ==> due(now, what),
{
    let earlier = asked_for(rest);
    let all = asked_for(msgs);
    assert forall|i: int, j: int| 0 <= i < j < all.len() implies all[i] != all[j] by {
        if j < earlier.len() {
            assert(all[i] == earlier[i] && all[j] == earlier[j]);
        } else if i >= earlier.len() {
            assert(all[i] == given[i - earlier.len()] && all[j] == given[j - earlier.len()]);
        } else {
            assert(earlier.contains(earlier[i]));
            assert(given.contains(given[j - earlier.len()]));
        }
    }
    assert forall|what: (usize, bool)| #[trigger] all.contains(what) implies due(now, what) by {
        let i = all.index_of(what);
        if i < earlier.len() {
            assert(earlier.contains(earlier[i]));
        } else {
            assert(given.contains(given[i - earlier.len()]));
        }
    }
}

/// No file is given out twice to be read in part, nor twice to be read whole.
pub proof fn lemma_asked_once(msgs: Seq<Msg>, content: spec_fn(int) -> Seq<u8>)
    requires
        honest(msgs, content),
    ensures
        asked_for(msgs).no_duplicates(),
{
    lemma_searched(msgs, content);
}

/// No file is in two groups, nor twice in one.
pub proof fn lemma_grouped_once(
    msgs: Seq<Msg>,
    content: spec_fn(int) -> Seq<u8>,
    k: int,
    i: int,
    l: int,
    j: int,
)
    requires
        honest(msgs, content),
        ({
            let groups = ScanState::initial().played(msgs).by_full;
            &&& 0 <= k < groups.len()
            &&& 0 <= i < groups[k].2.len()
            &&& 0 <= l < groups.len()
            &&& 0 <= j < groups[l].2.len()
            &&& groups[k].2[i] == groups[l].2[j]
        }),
    ensures
        k == l,
        i == j,
{
    lemma_searched(msgs, content);
    let groups = ScanState::initial().played(msgs).by_full;
    let x = groups[k].2[i];
    buckets::lemma_the_bucket(groups, k);
    buckets::lemma_the_bucket(groups, l);
    assert(groups[k].2.contains(x));
    assert(groups[l].2.contains(x));
    assert(buckets::ids_of(groups, groups[k].0, groups[k].1).no_duplicates());
}

/// Whether two files were put in one group.
pub open spec fn put_together(st: ScanState, i: int, j: int) -> bool {
    exists|k: int|
        0 <= k < st.by_full.len() && (#[trigger] st.by_full[k]).2.contains(i as usize)
            && st.by_full[k].2.contains(j as usize)
}

/// At any time of a search, files that were put in one group have the same
/// content, provided that different contents have different fingerprints. This does
/// not rest on anything else having been read, nor on nothing having failed.
pub proof fn lemma_told_alike(msgs: Seq<Msg>, content: spec_fn(int) -> Seq<u8>, i: int, j: int)
    requires
        honest(msgs, content),
        no_collisions(content, ScanState::initial().played(msgs).files.len()),
        0 <= i < ScanState::initial().played(msgs).files.len(),
        0 <= j < ScanState::initial().played(msgs).files.len(),
        put_together(ScanState::initial().played(msgs), i, j),
    ensures
        content(i) == content(j),
{
    lemma_searched(msgs, content);
    let end = ScanState::initial().played(msgs);
    let x = i as usize;
    let y = j as usize;
    let k = choose|k: int|
        0 <= k < end.by_full.len() && (#[trigger] end.by_full[k]).2.contains(x)
            && end.by_full[k].2.contains(y);
    buckets::lemma_the_bucket(end.by_full, k);
    assert(whole_print(content)(i) == end.by_full[k].1);
    assert(whole_print(content)(j) == end.by_full[k].1);
}

/// A file that could not be read, or of which there was more or less than was
/// found, is in no group.
pub proof fn lemma_missed_left_out(
    msgs: Seq<Msg>,
    content: spec_fn(int) -> Seq<u8>,
    what: (usize, bool),
    k: int,
)
    requires
        honest(msgs, content),
        missed(msgs).contains(what),
        0 <= k < ScanState::initial().played(msgs).by_full.len(),
    ensures
        !ScanState::initial().played(msgs).by_full[k].2.contains(what.0),
{
    lemma_searched(msgs, content);
    let at = at_end(msgs, content);
    let groups = at.st.by_full;
    let x = what.0;
    buckets::lemma_the_bucket(groups, k);
    if groups[k].2.contains(x) {
        assert(same_whole(at, x) == groups[k].2);
        assert(done(at, (x, true)));
        assert(due(at, (x, true)));
        assert(due(at, what));
    }
}

/// When nothing is left to be read, two files of which nothing failed are in one
/// group exactly where they have the same content, provided that different contents
/// have different fingerprints. So it is at the end, when all folders have been gone
/// through, and at every earlier time when nothing is left.
pub proof fn lemma_duplicates_found(msgs: Seq<Msg>, content: spec_fn(int) -> Seq<u8>)
    requires
        honest(msgs, content),
        ({
            let end = ScanState::initial().played(msgs);
            &&& end.pending == 0
            &&& no_collisions(content, end.files.len())
        }),
    ensures
        ({
            let end = ScanState::initial().played(msgs);
            forall|i: int, j: int| #![trigger content(i), content(j)]
                0 <= i < end.files.len() && 0 <= j < end.files.len() && i != j && none_failed(
                    msgs,
                    content,
                    i,
                ) && none_failed(msgs, content, j) ==> (content(i) == content(j) <==> put_together(
                    end,
                    i,
                    j,
                ))
        }),
{
    let at = at_end(msgs, content);
    let end = at.st;
    let open = unanswered(msgs);
    let lost = failed(msgs, content);
    lemma_searched(msgs, content);
    assert forall|what: (usize, bool)| due(at, what) && !lost.contains(what) implies #[trigger] done(
        at,
        what,
    ) by {
        if open.contains(what) {
            assert(open.len() == 0);
            vstd::set_lib::lemma_set_empty_equivalency_len(open);
        }
    }
    assert forall|i: int, j: int| #![trigger content(i), content(j)]
        0 <= i < end.files.len() && 0 <= j < end.files.len() && i != j && none_failed(
            msgs,
            content,
            i,
        ) && none_failed(msgs, content, j) implies (content(i) == content(j) <==> put_together(
        end,
        i,
        j,
    )) by {
        let x = i as usize;
        let y = j as usize;
        if content(i) == content(j) {
            lemma_same_content(at, lost, x, y);
            let group = same_whole(at, x);
            let k = buckets::place(end.by_full, end.files[i].1, whole_print(content)(i));
            assert(end.by_full[k].2 == group);
        }
        if put_together(end, i, j) {
            lemma_told_alike(msgs, content, i, j);
        }
    }
}

/// Once all was read that has to be and did not fail, files with the same content
/// are together.
proof fn lemma_same_content(at: At, lost: Set<(usize, bool)>, x: usize, y: usize)
    requires
        sound(at),
        ends_right(at, lost),
        forall|what: (usize, bool)|
            due(at, what) && !lost.contains(what) ==> #[trigger] done(at, what),
        x < at.st.files.len(),
        y < at.st.files.len(),
        x != y,
        !lost.contains((x, false)),
        !lost.contains((x, true)),
        !lost.contains((y, false)),
        !lost.contains((y, true)),
        (at.content)(x as int) == (at.content)(y as int),
    ensures
        same_whole(at, x).contains(x),
        same_whole(at, x).contains(y),
{
    assert(at.st.files[x as int].1 == (at.content)(x as int).len());
    assert(at.st.files[y as int].1 == (at.content)(y as int).len());
    let sizes = same_size(at, x);
    assert(sizes == same_size(at, y));
    assert(sizes.contains(x) && sizes.contains(y));
    lemma_two(sizes, x, y);
    if !is_small(at, x) {
        assert(due(at, (x, false)) && due(at, (y, false)));
        assert(done(at, (x, false)) && done(at, (y, false)));
        let halves = same_ends(at, x);
        assert(halves == same_ends(at, y));
        lemma_two(halves, x, y);
    }
    assert(due(at, (x, true)) && due(at, (y, true)));
    assert(done(at, (x, true)) && done(at, (y, true)));
    assert(same_whole(at, x) == same_whole(at, y));
}

proof fn lemma_two(ids: Seq<usize>, x: usize, y: usize)
    requires
        ids.contains(x),
        ids.contains(y),
        x != y,
    ensures
        ids.len() >= 2,
{
    assert(ids[ids.index_of(x)] == x);
    assert(ids[ids.index_of(y)] == y);
}

} // verus!
