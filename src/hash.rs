//! 32-byte identities, the double-SHA-256 primitive and the merkle reduction.
use vstd::prelude::*;

verus! {

/// What double SHA-256 gives for a byte string.
pub uninterp spec fn sha256d_of(data: Seq<u8>) -> Seq<u8>;

/// A 32-byte identifier, compared byte for byte.
#[derive(Clone, Copy, Debug, PartialEq, Eq)]
pub struct Hash256(pub [u8; 32]);

/// The all-zero identifier.
pub open spec fn zero_hash() -> Seq<u8> {
    Seq::new(32, |i: int| 0u8)
}

/// Relies on bitcoin_hashes::sha256d::hash: SHA-256 applied twice to `data`.
#[verifier::external_body]
fn double_sha256(data: &Vec<u8>) -> (r: Hash256)
    ensures
        r.0@ == sha256d_of(data@),
{
    Hash256(bitcoin_hashes::sha256d::hash(data.as_slice()).to_byte_array())
}

impl Hash256 {
    pub fn all_zeros() -> (r: Hash256)
        ensures
            r.0@ == zero_hash(),
    {
        let r = Hash256([0u8; 32]);
        assert(r.0@ =~= zero_hash());
        r
    }

    /// Byte-for-byte equality.
    pub fn same_as(&self, other: &Hash256) -> (r: bool)
        ensures
            r == (self.0@ == other.0@),
    {
        let mut i: usize = 0;
        while i < 32
            invariant
                i <= 32,
                forall|j: int| 0 <= j < i ==> self.0@[j] == other.0@[j],
            decreases 32 - i,
        {
            if self.0[i] != other.0[i] {
                return false;
            }
            i = i + 1;
        }
        assert(self.0@ =~= other.0@);
        true
    }
}

/// Appends the 32 bytes of `h` to `buf`.
pub fn push_hash(buf: &mut Vec<u8>, h: &Hash256)
    ensures
        final(buf)@ == old(buf)@ + h.0@,
{
    let mut i: usize = 0;
    while i < 32
        invariant
            i <= 32,
            buf@ == old(buf)@ + h.0@.subrange(0, i as int),
        decreases 32 - i,
    {
        buf.push(h.0[i]);
        assert(h.0@.subrange(0, i + 1) =~= h.0@.subrange(0, i as int).push(h.0@[i as int]));
        i = i + 1;
    }
    assert(h.0@.subrange(0, 32) =~= h.0@);
}

/// Reads 32 bytes at `off` as an identifier.
pub fn read_hash(bytes: &Vec<u8>, off: usize) -> (r: Hash256)
    requires
        off + 32 <= bytes.len(),
    ensures
        r.0@ == bytes@.subrange(off as int, off + 32),
{
    let mut a = [0u8; 32];
    let mut i: usize = 0;
    while i < 32
        invariant
            i <= 32,
            off + 32 <= bytes.len(),
            forall|j: int| 0 <= j < i ==> a@[j] == bytes@[off + j],
        decreases 32 - i,
    {
        a[i] = bytes[off + i];
        i = i + 1;
    }
    let r = Hash256(a);
    assert(r.0@ =~= bytes@.subrange(off as int, off + 32));
    r
}

/// Hash of a byte string.
pub fn hash_of_bytes(data: &Vec<u8>) -> (r: Hash256)
    ensures
        r.0@ == sha256d_of(data@),
{
    double_sha256(data)
}

/// Hash of two identities written one after the other.
pub open spec fn merkle_pair_of(a: Seq<u8>, b: Seq<u8>) -> Seq<u8> {
    sha256d_of(a + b)
}

/// One level of the reduction: adjacent pairs hashed, the last element
/// paired with itself when the count is odd.
pub open spec fn merkle_level(s: Seq<Seq<u8>>) -> Seq<Seq<u8>> {
    Seq::new(
        (s.len() / 2 + s.len() % 2) as nat,
        |i: int| merkle_pair_of(s[2 * i], s[if 2 * i + 1 < s.len() { 2 * i + 1 } else { s.len() - 1 }]),
    )
}

/// Merkle root of a sequence of identities.
pub open spec fn merkle_root_of(s: Seq<Seq<u8>>) -> Seq<u8>
    decreases s.len(),
{
    if s.len() == 0 {
        zero_hash()
    } else if s.len() == 1 {
        s[0]
    } else {
        merkle_root_of(merkle_level(s))
    }
}

/// The bytes of each identity in a list.
pub open spec fn hashes_view(v: Seq<Hash256>) -> Seq<Seq<u8>> {
    v.map_values(|h: Hash256| h.0@)
}

/// Hash of `a` followed by `b`.
pub fn merkle_pair(a: &Hash256, b: &Hash256) -> (r: Hash256)
    ensures
        r.0@ == merkle_pair_of(a.0@, b.0@),
{
    let mut buf: Vec<u8> = Vec::new();
    push_hash(&mut buf, a);
    push_hash(&mut buf, b);
    assert(buf@ =~= a.0@ + b.0@);
    double_sha256(&buf)
}

fn merkle_next_level(level: &Vec<Hash256>) -> (r: Vec<Hash256>)
    ensures
        hashes_view(r@) == merkle_level(hashes_view(level@)),
        r.len() == level.len() / 2 + level.len() % 2,
{
    let n = level.len();
    let half = n / 2 + n % 2;
    let mut next: Vec<Hash256> = Vec::new();
    let mut i: usize = 0;
    while i < half
        invariant
            n == level.len(),
            half == n / 2 + n % 2,
            i <= half,
            next.len() == i,
            forall|j: int| 0 <= j < i ==> #[trigger] next@[j].0@ == merkle_level(hashes_view(level@))[j],
        decreases half - i,
    {
        let first = 2 * i;
        let second = if first + 1 < n { first + 1 } else { n - 1 };
        let h = merkle_pair(&level[first], &level[second]);
        next.push(h);
        i = i + 1;
    }
    assert(hashes_view(next@) =~= merkle_level(hashes_view(level@)));
    next
}

/// Merkle root of identities, first to last.
pub fn blockchain_merkle_root(data: Vec<Hash256>) -> (r: Hash256)
    ensures
        r.0@ == merkle_root_of(hashes_view(data@)),
{
    let mut level = data;
    while level.len() > 1
        invariant
            merkle_root_of(hashes_view(level@)) == merkle_root_of(hashes_view(data@)),
        decreases level.len(),
    {
        level = merkle_next_level(&level);
    }
    if level.len() == 0 {
        Hash256::all_zeros()
    } else {
        level[0]
    }
}

/// The root of one identity is that identity.
pub proof fn lemma_merkle_single(h: Seq<u8>)
    ensures
        merkle_root_of(seq![h]) == h,
{
}

/// The root of two identities is the hash of the two written in order.
pub proof fn lemma_merkle_two(a: Seq<u8>, b: Seq<u8>)
    ensures
        merkle_root_of(seq![a, b]) == sha256d_of(a + b),
{
    let l = merkle_level(seq![a, b]);
    assert(l =~= seq![merkle_pair_of(a, b)]);
    assert(merkle_root_of(seq![a, b]) == merkle_root_of(l));
    assert(merkle_root_of(l) == l[0]);
}

/// With an odd count the last identity is paired with itself.
pub proof fn lemma_merkle_odd_duplicates(a: Seq<u8>, b: Seq<u8>, c: Seq<u8>)
    ensures
        merkle_root_of(seq![a, b, c]) == merkle_root_of(
            seq![merkle_pair_of(a, b), merkle_pair_of(c, c)],
        ),
{
    assert(merkle_level(seq![a, b, c]) =~= seq![merkle_pair_of(a, b), merkle_pair_of(c, c)]);
}

/// The root of no identities is all zeros.
pub proof fn lemma_merkle_empty()
    ensures
        merkle_root_of(Seq::<Seq<u8>>::empty()) == zero_hash(),
{
}

} // verus!
