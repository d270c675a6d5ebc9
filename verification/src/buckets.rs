//! Files put together by size and fingerprint.
use std::collections::HashMap;

use vstd::prelude::*;

use crate::contents;

verus! {

broadcast use vstd::std_specs::hash::group_hash_axioms;

/// The files of one size and one fingerprint.
pub struct Bucket {
    pub size: u64,
    pub hash: contents::Hash,
    pub ids: Vec<usize>,
    /// The bucket before this one with the same place in the index.
    pub next: Option<usize>,
}

/// Buckets, in the order in which they were begun.
pub struct Buckets {
    pub list: Vec<Bucket>,
    /// The last bucket of those that share a place.
    pub index: HashMap<u64, usize>,
}

/// A bucket: a size, a fingerprint and the files that have both.
pub type Contents = (u64, Seq<u8>, Seq<usize>);

/// Whether a bucket is that of a size and a fingerprint.
pub open spec fn is_of(bucket: Contents, size: u64, hash: Seq<u8>) -> bool {
    bucket.0 == size && bucket.1 == hash
}

/// Whether there is a bucket of a size and a fingerprint.
pub open spec fn holds(buckets: Seq<Contents>, size: u64, hash: Seq<u8>) -> bool {
    exists|i: int| 0 <= i < buckets.len() && is_of(#[trigger] buckets[i], size, hash)
}

/// Where the bucket of a size and a fingerprint stands, or will stand.
pub open spec fn place(buckets: Seq<Contents>, size: u64, hash: Seq<u8>) -> int {
    if holds(buckets, size, hash) {
        choose|i: int| 0 <= i < buckets.len() && is_of(#[trigger] buckets[i], size, hash)
    } else {
        buckets.len() as int
    }
}

/// The files of a size and a fingerprint.
pub open spec fn ids_of(buckets: Seq<Contents>, size: u64, hash: Seq<u8>) -> Seq<usize> {
    if holds(buckets, size, hash) {
        buckets[place(buckets, size, hash)].2
    } else {
        Seq::empty()
    }
}

/// The buckets with one more file.
pub open spec fn filed(buckets: Seq<Contents>, size: u64, hash: Seq<u8>, id: usize) -> Seq<
    Contents,
> {
    let bucket = (size, hash, ids_of(buckets, size, hash).push(id));
    if holds(buckets, size, hash) {
        buckets.update(place(buckets, size, hash), bucket)
    } else {
        buckets.push(bucket)
    }
}

/// Whether no two buckets are of the same size and fingerprint.
pub open spec fn distinct(buckets: Seq<Contents>) -> bool {
    forall|i: int, j: int| #![trigger buckets[i], buckets[j]]
        0 <= i < j < buckets.len() ==> !is_of(buckets[j], buckets[i].0, buckets[i].1)
}

/// Buckets stay distinct when a file is put in.
pub proof fn lemma_filed_distinct(buckets: Seq<Contents>, size: u64, hash: Seq<u8>, id: usize)
    requires
        distinct(buckets),
    ensures
        distinct(filed(buckets, size, hash, id)),
{
    let after = filed(buckets, size, hash, id);
    if holds(buckets, size, hash) {
        assert(is_of(buckets[place(buckets, size, hash)], size, hash));
    }
    assert forall|i: int, j: int| #![trigger after[i], after[j]]
        0 <= i < j < after.len() implies !is_of(after[j], after[i].0, after[i].1) by {
        if j < buckets.len() {
            assert(!is_of(buckets[j], buckets[i].0, buckets[i].1));
        } else {
            assert(after[i] == buckets[i]);
        }
    }
}

/// Where buckets are distinct, the bucket of a size and a fingerprint is the one
/// that is of both.
pub proof fn lemma_the_bucket(buckets: Seq<Contents>, i: int)
    requires
        distinct(buckets),
        0 <= i < buckets.len(),
    ensures
        place(buckets, buckets[i].0, buckets[i].1) == i,
        ids_of(buckets, buckets[i].0, buckets[i].1) == buckets[i].2,
{
    let (size, hash, _) = buckets[i];
    assert(is_of(buckets[i], size, hash));
    assert(holds(buckets, size, hash));
    let p = place(buckets, size, hash);
    assert(0 <= p < buckets.len() && is_of(buckets[p], size, hash));
    if p < i {
        assert(!is_of(buckets[i], buckets[p].0, buckets[p].1));
    } else if i < p {
        assert(!is_of(buckets[p], buckets[i].0, buckets[i].1));
    }
}

/// A file that is put in joins those of its size and fingerprint, and no others.
pub proof fn lemma_ids_filed(
    buckets: Seq<Contents>,
    size: u64,
    hash: Seq<u8>,
    id: usize,
    other_size: u64,
    other_hash: Seq<u8>,
)
    requires
        distinct(buckets),
    ensures
        ids_of(filed(buckets, size, hash, id), other_size, other_hash) == if other_size == size
            && other_hash == hash {
            ids_of(buckets, size, hash).push(id)
        } else {
            ids_of(buckets, other_size, other_hash)
        },
{
    let after = filed(buckets, size, hash, id);
    let p = place(buckets, size, hash);
    lemma_filed_distinct(buckets, size, hash, id);
    if holds(buckets, size, hash) {
        assert(is_of(buckets[p], size, hash));
    }
    assert(after[p] == (size, hash, ids_of(buckets, size, hash).push(id)));
    if other_size == size && other_hash == hash {
        lemma_the_bucket(after, p);
    } else if holds(buckets, other_size, other_hash) {
        let q = place(buckets, other_size, other_hash);
        assert(is_of(buckets[q], other_size, other_hash));
        assert(after[q] == buckets[q]);
        lemma_the_bucket(after, q);
    } else {
        assert forall|i: int| 0 <= i < after.len() implies !is_of(
            #[trigger] after[i],
            other_size,
            other_hash,
        ) by {
            if i != p {
                assert(after[i] == buckets[i]);
            }
        }
    }
}

/// The place in the index of a size and a fingerprint.
spec fn slot(size: u64, hash: Seq<u8>) -> u64 {
    size ^ ((hash[0] + 256 * hash[1] + 65536 * hash[2] + 16777216 * hash[3]) as u64)
}

/// Whether a bucket is met on the way from another.
spec fn met(list: Seq<Bucket>, from: int, i: int) -> bool
    decreases from,
{
    &&& 0 <= from < list.len()
    &&& from == i || match list[from].next {
        None => false,
        Some(n) => n < from && met(list, n as int, i),
    }
}

/// Whether two lists of buckets are linked in the same way, as far as the first
/// goes.
spec fn same_links(a: Seq<Bucket>, b: Seq<Bucket>) -> bool {
    &&& a.len() <= b.len()
    &&& forall|i: int| #![trigger b[i]] 0 <= i < a.len() ==> b[i].next == a[i].next
}

proof fn lemma_met_kept(a: Seq<Bucket>, b: Seq<Bucket>, from: int, i: int)
    requires
        same_links(a, b),
        met(a, from, i),
    ensures
        met(b, from, i),
    decreases from,
{
    assert(b[from].next == a[from].next);
    if from != i {
        lemma_met_kept(a, b, a[from].next->0 as int, i);
    }
}

impl View for Buckets {
    type V = Seq<(u64, Seq<u8>, Seq<usize>)>;

    open spec fn view(&self) -> Seq<(u64, Seq<u8>, Seq<usize>)> {
        self.list@.map_values(|b: Bucket| (b.size, b.hash@, b.ids@))
    }
}

fn same_hash(a: &contents::Hash, b: &contents::Hash) -> (result: bool)
    ensures
        result == (a@ == b@),
{
    for i in 0..32
        invariant
            a@.len() == 32,
            b@.len() == 32,
            forall|j: int| 0 <= j < i ==> a@[j] == b@[j],
    {
        if a[i] != b[i] {
            return false;
        }
    }
    assert(a@ =~= b@);
    true
}

impl Buckets {
    /// Whether each bucket is there once and is found through the index.
    pub closed spec fn wf(self) -> bool {
        &&& distinct(self@)
        &&& forall|i: int| #![trigger self.list@[i]]
            0 <= i < self.list@.len() ==> {
                let place = slot(self.list@[i].size, self.list@[i].hash@);
                self.index@.contains_key(place) && met(self.list@, self.index@[place] as int, i)
            }
    }

    /// No bucket.
    pub fn new() -> (buckets: Buckets)
        ensures
            buckets.wf(),
            buckets@ == Seq::<Contents>::empty(),
    {
        let buckets = Buckets { list: Vec::new(), index: HashMap::new() };
        assert(buckets@ =~= Seq::<Contents>::empty());
        buckets
    }

    /// The place in the index of a size and a fingerprint.
    fn slot_of(size: u64, hash: &contents::Hash) -> (result: u64)
        ensures
            result == slot(size, hash@),
    {
        let start: u64 = hash[0] as u64 + 256 * hash[1] as u64 + 65536 * hash[2] as u64 + 16777216
            * hash[3] as u64;
        size ^ start
    }

    /// The bucket of a size and a fingerprint.
    fn find(&self, size: u64, hash: &contents::Hash) -> (found: Option<usize>)
        requires
            self.wf(),
        ensures
            match found {
                Some(i) => i < self@.len() && is_of(self@[i as int], size, hash@),
                None => !holds(self@, size, hash@),
            },
    {
        let ghost wanted = slot(size, hash@);
        let mut current: Option<usize> = match self.index.get(&Buckets::slot_of(size, hash)) {
            Some(i) => Some(*i),
            None => None,
        };
        proof {
            assert forall|i: int| 0 <= i < self@.len() && is_of(#[trigger] self@[i], size, hash@) implies current
                is Some && met(self.list@, current->0 as int, i) by {
                assert(self.list@[i].size == size);
            }
            if current is Some && !(current->0 < self.list@.len()) {
                assert(forall|i: int| 0 <= i < self@.len() ==> !is_of(#[trigger] self@[i], size, hash@));
            }
        }
        while current.is_some()
            invariant
                self.wf(),
                forall|i: int|
                    0 <= i < self@.len() && is_of(#[trigger] self@[i], size, hash@) ==> current
                        is Some && met(self.list@, current->0 as int, i),
            decreases
                (match current {
                    Some(c) => c + 1,
                    None => 0,
                }),
        {
            let c: usize = current.unwrap();
            if c >= self.list.len() {
                return None;
            }
            assert(self@[c as int] == (
                self.list@[c as int].size,
                self.list@[c as int].hash@,
                self.list@[c as int].ids@,
            ));
            if self.list[c].size == size && same_hash(&self.list[c].hash, hash) {
                return Some(c);
            }
            let next = self.list[c].next;
            match next {
                Some(n) => {
                    if n >= c {
                        return None;
                    }
                },
                None => {},
            }
            current = next;
        }
        None
    }

    /// Puts a file in the bucket of its size and fingerprint, and says which
    /// that is.
    pub fn file(&mut self, size: u64, hash: &contents::Hash, id: usize) -> (at: usize)
        requires
            old(self).wf(),
        ensures
            final(self).wf(),
            final(self)@ == filed(old(self)@, size, hash@, id),
            at == place(old(self)@, size, hash@),
            at < final(self)@.len(),
            final(self)@[at as int] == (size, hash@, ids_of(old(self)@, size, hash@).push(id)),
    {
        let ghost before = *self;
        proof {
            lemma_filed_distinct(before@, size, hash@, id);
        }
        match self.find(size, hash) {
            Some(i) => {
                proof {
                    assert(holds(before@, size, hash@));
                    let p = place(before@, size, hash@);
                    assert(is_of(before@[p], size, hash@));
                    assert(p == i) by {
                        if p < i {
                            assert(!is_of(before@[i as int], before@[p].0, before@[p].1));
                        } else if i < p {
                            assert(!is_of(before@[p], before@[i as int].0, before@[i as int].1));
                        }
                    }
                }
                self.list[i].ids.push(id);
                proof {
                    assert(self@ =~= filed(before@, size, hash@, id));
                    assert(same_links(before.list@, self.list@));
                    assert forall|j: int| #![trigger self.list@[j]]
                        0 <= j < self.list@.len() implies {
                        let place = slot(self.list@[j].size, self.list@[j].hash@);
                        self.index@.contains_key(place) && met(
                            self.list@,
                            self.index@[place] as int,
                            j,
                        )
                    } by {
                        let place = slot(before.list@[j].size, before.list@[j].hash@);
                        lemma_met_kept(
                            before.list@,
                            self.list@,
                            before.index@[place] as int,
                            j,
                        );
                    }
                }
                i
            },
            None => {
                let at = self.list.len();
                let key = Buckets::slot_of(size, hash);
                let next = match self.index.get(&key) {
                    Some(i) => Some(*i),
                    None => None,
                };
                let mut ids: Vec<usize> = Vec::new();
                ids.push(id);
                self.list.push(Bucket { size, hash: *hash, ids, next });
                self.index.insert(key, at);
                proof {
                    assert(ids@ =~= Seq::<usize>::empty().push(id));
                    assert(self@ =~= filed(before@, size, hash@, id));
                    assert(same_links(before.list@, self.list@));
                    assert forall|j: int| #![trigger self.list@[j]]
                        0 <= j < self.list@.len() implies {
                        let place = slot(self.list@[j].size, self.list@[j].hash@);
                        self.index@.contains_key(place) && met(
                            self.list@,
                            self.index@[place] as int,
                            j,
                        )
                    } by {
                        if j < at {
                            let place = slot(before.list@[j].size, before.list@[j].hash@);
                            let from = before.index@[place] as int;
                            lemma_met_kept(before.list@, self.list@, from, j);
                            if place == key {
                                assert(self.list@[at as int].next == Some(from as usize));
                                assert(from < at);
                                assert(met(self.list@, at as int, j));
                            }
                        } else {
                            assert(met(self.list@, at as int, at as int));
                        }
                    }
                }
                at
            },
        }
    }
}

} // verus!
