use vstd::prelude::*;

verus! {

/// What `bs58::encode(..).into_string()` returns for the given bytes, with
/// the Bitcoin alphabet.
pub uninterp spec fn base58_of(b: Seq<u8>) -> Seq<char>;

/// Relies on `bs58::encode(..).into_string()`: the base-58 text of the
/// bytes, which depends on the bytes alone; empty exactly for empty input.
#[verifier::external_body]
pub(crate) fn base58_encode(b: &Vec<u8>) -> (r: String)
    ensures
        r@ == base58_of(b@),
        r@.len() == 0 <==> b@.len() == 0,
{
    bs58::encode(b).into_string()
}

/// Byte-wise equality of two byte vectors.
pub fn bytes_equal(a: &Vec<u8>, b: &Vec<u8>) -> (r: bool)
    ensures
        r == (a@ == b@),
{
    if a.len() != b.len() {
        return false;
    }
    let mut i: usize = 0;
    while i < a.len()
        invariant
            a@.len() == b@.len(),
            0 <= i <= a@.len(),
            a@.subrange(0, i as int) == b@.subrange(0, i as int),
        decreases a@.len() - i,
    {
        if a[i] != b[i] {
            assert(a@[i as int] == a@.subrange(0, i as int + 1)[i as int]);
            return false;
        }
        assert(a@.subrange(0, i as int + 1) =~= a@.subrange(0, i as int).push(a@[i as int]));
        assert(b@.subrange(0, i as int + 1) =~= b@.subrange(0, i as int).push(b@[i as int]));
        i = i + 1;
    }
    assert(a@ =~= a@.subrange(0, i as int));
    assert(b@ =~= b@.subrange(0, i as int));
    true
}

/// A copy of a byte vector.
pub fn copy_bytes(a: &Vec<u8>) -> (r: Vec<u8>)
    ensures
        r@ == a@,
{
    let mut r: Vec<u8> = Vec::new();
    let mut i: usize = 0;
    while i < a.len()
        invariant
            0 <= i <= a@.len(),
            r@ == a@.subrange(0, i as int),
        decreases a@.len() - i,
    {
        r.push(a[i]);
        assert(a@.subrange(0, i as int + 1) =~= a@.subrange(0, i as int).push(a@[i as int]));
        i = i + 1;
    }
    assert(a@ =~= a@.subrange(0, i as int));
    r
}

/// Identity of a remote or local peer, held as its canonical bytes.
#[derive(Debug, Clone, PartialEq, Eq, Hash)]
pub struct PeerId {
    bytes: Vec<u8>,
}

impl View for PeerId {
    type V = Seq<u8>;

    closed spec fn view(&self) -> Seq<u8> {
        self.bytes@
    }
}

impl PeerId {
    /// A peer id with the given canonical bytes.
    pub fn from_bytes(bytes: Vec<u8>) -> (r: PeerId)
        ensures
            r@ == bytes@,
    {
        PeerId { bytes }
    }

    /// The canonical bytes of the peer id.
    pub fn to_bytes(&self) -> (r: Vec<u8>)
        ensures
            r@ == self@,
    {
        copy_bytes(&self.bytes)
    }

    /// The canonical bytes of the peer id, consuming it.
    pub fn into_bytes(self) -> (r: Vec<u8>)
        ensures
            r@ == self@,
    {
        self.bytes
    }

    /// The base-58 rendering of the peer id.
    pub fn to_base58(&self) -> (r: String)
        ensures
            r@ == base58_of(self@),
    {
        base58_encode(&self.bytes)
    }

    /// Whether two peer ids are the same.
    pub fn same(&self, other: &PeerId) -> (r: bool)
        ensures
            r == (self@ == other@),
    {
        bytes_equal(&self.bytes, &other.bytes)
    }

    /// A copy of the peer id.
    pub fn duplicate(&self) -> (r: PeerId)
        ensures
            r@ == self@,
    {
        PeerId { bytes: copy_bytes(&self.bytes) }
    }
}

/// Identifier of a topic, held as its canonical string.
#[derive(Debug, Clone, PartialEq, Eq, Hash)]
pub struct TopicHash {
    hash: String,
}

impl View for TopicHash {
    type V = Seq<char>;

    closed spec fn view(&self) -> Seq<char> {
        self.hash@
    }
}

impl TopicHash {
    /// A topic hash with the given canonical string.
    pub fn from_raw(hash: String) -> (r: TopicHash)
        ensures
            r@ == hash@,
    {
        TopicHash { hash }
    }

    /// The canonical string of the topic hash.
    pub fn into_string(self) -> (r: String)
        ensures
            r@ == self@,
    {
        self.hash
    }

    /// The canonical string of the topic hash, borrowed.
    pub fn as_str(&self) -> (r: &str)
        ensures
            r@ == self@,
    {
        self.hash.as_str()
    }

    /// Whether two topic hashes are the same.
    pub fn same(&self, other: &TopicHash) -> (r: bool)
        ensures
            r == (self@ == other@),
    {
        self.hash == other.hash
    }

    /// A copy of the topic hash.
    pub fn duplicate(&self) -> (r: TopicHash)
        ensures
            r@ == self@,
    {
        TopicHash { hash: self.hash.clone() }
    }
}

} // verus!
