//! The content of files: comparing it piece by piece, and the fingerprints by
//! which equal content is found.
use vstd::prelude::*;

verus! {

/// How many bytes are read at a time.
pub const READ_CHUNK: usize = 262_144;

/// How much is read at each end of a file for its partial fingerprint. A file
/// of no more than twice that has no use for one.
pub const PARTIAL_CHUNK: u64 = 65_536;

/// A fingerprint.
pub type Hash = [u8; 32];

// ------------------------------------------------------------------- comparing

/// What two pieces, read at the same place of two files, say of the files.
#[derive(Clone, Copy, PartialEq, Eq, Debug, Structural)]
pub enum Comparison {
    /// The files differ.
    Differ,
    /// Nothing yet.
    Open,
    /// The files are the same.
    Same,
}

/// What two pieces say of the files.
pub open spec fn compared(a: Seq<u8>, b: Seq<u8>) -> Comparison {
    if a != b {
        Comparison::Differ
    } else if a.len() == 0 {
        Comparison::Same
    } else {
        Comparison::Open
    }
}

/// Compares two pieces, read at the same place of two files. An empty piece
/// stands for the end.
pub fn compare_chunks(a: &[u8], b: &[u8]) -> (result: Comparison)
    ensures
        result == compared(a@, b@),
        result is Differ <==> a@ != b@,
        result is Same <==> a@ == b@ && a@.len() == 0,
{
    if a.len() != b.len() {
        return Comparison::Differ;
    }
    for i in 0..a.len()
        invariant
            a@.len() == b@.len(),
            forall|j: int| 0 <= j < i ==> a@[j] == b@[j],
    {
        if a[i] != b[i] {
            return Comparison::Differ;
        }
    }
    assert(a@ =~= b@);
    if a.len() == 0 {
        Comparison::Same
    } else {
        Comparison::Open
    }
}

/// The piece of a file that begins at a place: as many bytes as are wanted, or
/// what is left.
pub open spec fn piece(content: Seq<u8>, at: nat, wanted: nat) -> Seq<u8> {
    if at >= content.len() {
        Seq::empty()
    } else if at + wanted <= content.len() {
        content.subrange(at as int, (at + wanted) as int)
    } else {
        content.skip(at as int)
    }
}

/// What comes of comparing two files from a place on, piece by piece.
pub open spec fn compared_from(a: Seq<u8>, b: Seq<u8>, at: nat, wanted: nat) -> bool
    decreases a.len() + wanted - at,
    when wanted > 0
{
    match compared(piece(a, at, wanted), piece(b, at, wanted)) {
        Comparison::Differ => false,
        Comparison::Same => true,
        Comparison::Open => at < a.len() && compared_from(a, b, at + wanted, wanted),
    }
}

proof fn lemma_compared_from(a: Seq<u8>, b: Seq<u8>, at: nat, wanted: nat)
    requires
        wanted > 0,
        at <= a.len() + wanted,
        forall|i: int| 0 <= i < at && i < a.len() && i < b.len() ==> a[i] == b[i],
        (at <= a.len() && at <= b.len()) || a.len() == b.len(),
    ensures
        compared_from(a, b, at, wanted) == (a == b),
    decreases a.len() + wanted - at,
{
    let x = piece(a, at, wanted);
    let y = piece(b, at, wanted);
    if x != y {
        if a == b {
            assert(x == y);
        }
    } else if x.len() == 0 {
        assert(at >= a.len());
        assert(at >= b.len());
        assert(a.len() == b.len());
        assert(a =~= b);
    } else {
        assert forall|i: int|
            0 <= i < at + wanted && i < a.len() && i < b.len() implies a[i] == b[i] by {
            if i >= at {
                assert(x[i - at] == a[i]);
                assert(y[i - at] == b[i]);
            }
        }
        assert(x.len() == y.len());
        lemma_compared_from(a, b, at + wanted, wanted);
    }
}

/// Comparing two files piece by piece tells whether they are the same, byte for
/// byte.
pub proof fn lemma_comparison_exact(a: Seq<u8>, b: Seq<u8>, wanted: nat)
    requires
        wanted > 0,
    ensures
        compared_from(a, b, 0, wanted) == (a == b),
{
    lemma_compared_from(a, b, 0, wanted);
}

// ---------------------------------------------------------------- fingerprints

#[verifier::external_type_specification]
#[verifier::external_body]
pub struct ExHasher(blake3::Hasher);

/// The bytes that a hasher has taken in, where it hashes them from the beginning
/// of the input.
pub uninterp spec fn hashed_bytes(hasher: blake3::Hasher) -> Option<Seq<u8>>;

/// The BLAKE3 fingerprint of some bytes.
pub uninterp spec fn fingerprint(bytes: Seq<u8>) -> Seq<u8>;

/// `blake3::Hasher::new`: a hasher that has taken nothing in.
#[verifier::external_body]
fn new_hasher() -> (hasher: blake3::Hasher)
    ensures
        hashed_bytes(hasher) == Some(Seq::<u8>::empty()),
{
    blake3::Hasher::new()
}

/// `blake3::Hasher::update`: takes some bytes in, after those before.
#[verifier::external_body]
fn hash_more(hasher: &mut blake3::Hasher, bytes: &[u8])
    requires
        hashed_bytes(*old(hasher)) is Some,
    ensures
        hashed_bytes(*final(hasher)) == Some(hashed_bytes(*old(hasher))->0 + bytes@),
{
    hasher.update(bytes);
}

/// `blake3::Hasher::finalize`: the fingerprint of all that was taken in, which
/// is the same however it was cut up. (It panics for a hasher that was set to
/// begin within the input.)
#[verifier::external_body]
fn hash_result(hasher: &blake3::Hasher) -> (hash: [u8; 32])
    requires
        hashed_bytes(*hasher) is Some,
    ensures
        hash@ == fingerprint(hashed_bytes(*hasher)->0),
{
    *hasher.finalize().as_bytes()
}

/// Where the end of a file begins of which the partial fingerprint is taken.
pub fn tail_start(size: u64) -> (start: u64)
    requires
        size >= PARTIAL_CHUNK,
    ensures
        start == size - PARTIAL_CHUNK,
{
    size - PARTIAL_CHUNK
}

/// The partial fingerprint of a file, from its beginning and its end.
pub fn partial_hash(head: &[u8], tail: &[u8]) -> (hash: Hash)
    ensures
        hash@ == fingerprint(head@ + tail@),
{
    let mut hasher = new_hasher();
    hash_more(&mut hasher, head);
    hash_more(&mut hasher, tail);
    assert(hashed_bytes(hasher)->0 =~= head@ + tail@);
    hash_result(&hasher)
}

/// The fingerprint of a whole file, taken in piece by piece.
pub struct FullHash {
    hasher: blake3::Hasher,
    total: u64,
}

impl View for FullHash {
    type V = Seq<u8>;

    /// The bytes that were taken in.
    closed spec fn view(&self) -> Seq<u8> {
        hashed_bytes(self.hasher)->0
    }
}

impl FullHash {
    /// Whether the bytes were counted right.
    pub closed spec fn wf(self) -> bool {
        &&& hashed_bytes(self.hasher) is Some
        &&& self.total == hashed_bytes(self.hasher)->0.len()
    }

    /// Nothing was taken in yet.
    pub fn new() -> (hash: FullHash)
        ensures
            hash.wf(),
            hash@ == Seq::<u8>::empty(),
    {
        FullHash { hasher: new_hasher(), total: 0 }
    }

    /// Takes a piece in.
    pub fn update(&mut self, bytes: &[u8])
        requires
            old(self).wf(),
            old(self)@.len() + bytes@.len() <= u64::MAX,
        ensures
            final(self).wf(),
            final(self)@ == old(self)@ + bytes@,
    {
        hash_more(&mut self.hasher, bytes);
        self.total = self.total + bytes.len() as u64;
    }

    /// How many bytes were taken in.
    pub fn total(&self) -> (total: u64)
        requires
            self.wf(),
        ensures
            total == self@.len(),
    {
        self.total
    }

    /// The fingerprint of all that was taken in, and how many bytes that was.
    pub fn finish(&self) -> (result: (Hash, u64))
        requires
            self.wf(),
        ensures
            result.0@ == fingerprint(self@),
            result.1 == self@.len(),
    {
        (hash_result(&self.hasher), self.total)
    }
}

} // verus!
