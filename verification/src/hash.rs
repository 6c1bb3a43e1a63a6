use vstd::prelude::*;

verus! {

/// Number of bytes in a hash digest
pub const HASH_LEN: usize = 32;

/// Error type for hash conversion errors
#[derive(Debug, PartialEq, Eq, Structural)]
pub enum Error {
    /// The byte slice does not hold exactly [`HASH_LEN`] bytes
    TryFromSlice,
}

/// A 32-byte digest, as produced by BLAKE3
#[derive(Clone, Copy, Debug, PartialEq, Eq, Hash, PartialOrd, Ord)]
pub struct Hash([u8; HASH_LEN]);

impl View for Hash {
    type V = Seq<u8>;

    closed spec fn view(&self) -> Seq<u8> {
        self.0@
    }
}

/// A hash is determined by its bytes, and always holds [`HASH_LEN`] of them
pub broadcast proof fn lemma_hash_view(a: Hash, b: Hash)
    ensures
        #![trigger a@, b@]
        a@.len() == HASH_LEN,
        a@ == b@ <==> a == b,
{
    broadcast use vstd::array::group_array_axioms;
    if a@ == b@ {
        assert(a.0 == b.0);
    }
}

/// The character of a hex digit (`0..16`), lower case as `hex::encode` writes it
pub open spec fn hex_digit(n: int) -> char {
    if n < 10 {
        (48 + n) as char
    } else {
        (87 + n) as char
    }
}

/// Lower-case hexadecimal rendering of a byte sequence: two digits per byte, high nibble first
pub open spec fn spec_hex(bytes: Seq<u8>) -> Seq<char> {
    Seq::new(
        2 * bytes.len(),
        |i: int|
            if i % 2 == 0 {
                hex_digit(bytes[i / 2] as int / 16)
            } else {
                hex_digit(bytes[i / 2] as int % 16)
            },
    )
}

/// What BLAKE3 computes on the given input; 32 bytes long
pub uninterp spec fn blake3_hash(data: Seq<u8>) -> Seq<u8>;

/// Lexicographic order on byte sequences of equal length, as the derived `Ord` of a byte array
pub open spec fn spec_bytes_lt(a: Seq<u8>, b: Seq<u8>) -> bool {
    exists|i: int|
        0 <= i < a.len() && i < b.len() && a[i] < b[i] && #[trigger] a.take(i) == b.take(i)
}

/// Calls `blake3::hash`: the result is the BLAKE3 digest of `data`.
#[verifier::external_body]
pub(crate) fn blake3_digest(data: &[u8]) -> (h: Hash)
    ensures
        h@ == blake3_hash(data@),
{
    Hash(*blake3::hash(data).as_bytes())
}

/// Calls `hex::encode`: two lower-case hex digits per byte, high nibble first.
#[verifier::external_body]
fn hex_encode(data: &[u8]) -> (s: String)
    ensures
        s@ == spec_hex(data@),
{
    hex::encode(data)
}

impl Hash {
    /// Instantiate a hash object from the given bytes
    pub fn with_bytes(bytes: [u8; HASH_LEN]) -> (h: Hash)
        ensures
            h@ == bytes@,
    {
        Hash(bytes)
    }

    /// Yield a reference to the inner bytes
    pub fn as_slice(&self) -> (b: &[u8; HASH_LEN])
        ensures
            b@ == self@,
    {
        &self.0
    }

    /// Format the Hash as a hex string
    pub fn to_hex(&self) -> (s: String)
        ensures
            s@ == spec_hex(self@),
    {
        hex_encode(self.0.as_slice())
    }
}

impl crate::collections::MapKey for Hash {
    /// Byte-wise comparison; agrees with the derived `PartialEq`
    fn key_eq(&self, other: &Hash) -> (r: bool) {
        broadcast use lemma_hash_view;

        let mut i: usize = 0;
        while i < HASH_LEN
            invariant
                i <= HASH_LEN,
                forall|j: int| 0 <= j < i ==> self.0[j] == other.0[j],
            decreases HASH_LEN - i,
        {
            if self.0[i] != other.0[i] {
                assert(self@[i as int] != other@[i as int]);
                return false;
            }
            i += 1;
        }
        assert(self.0@ =~= other.0@);
        assert(self@ == other@);
        true
    }
}

impl Default for Hash {
    fn default() -> (h: Hash)
        ensures
            h@ == Seq::new(HASH_LEN as nat, |i: int| 0u8),
    {
        let h = Hash([0; HASH_LEN]);
        assert(h@ =~= Seq::new(HASH_LEN as nat, |i: int| 0u8));
        h
    }
}

/// Lexicographic order is irreflexive, asymmetric and total on sequences of equal length
pub proof fn lemma_bytes_lt_order(a: Seq<u8>, b: Seq<u8>)
    requires
        a.len() == b.len(),
    ensures
        !spec_bytes_lt(a, a),
        spec_bytes_lt(a, b) ==> !spec_bytes_lt(b, a),
        a != b ==> spec_bytes_lt(a, b) || spec_bytes_lt(b, a),
{
    if spec_bytes_lt(a, b) && spec_bytes_lt(b, a) {
        let i = choose|i: int| 0 <= i < a.len() && i < b.len() && a[i] < b[i] && #[trigger] a.take(i) == b.take(i);
        let j = choose|j: int| 0 <= j < b.len() && j < a.len() && b[j] < a[j] && #[trigger] b.take(j) == a.take(j);
        if i < j {
            assert(b.take(j)[i] == a.take(j)[i]);
        } else if j < i {
            assert(a.take(i)[j] == b.take(i)[j]);
        }
    }
    if a != b {
        assert(exists|k: int| 0 <= k < a.len() && a[k] != b[k]) by {
            if forall|k: int| 0 <= k < a.len() ==> a[k] == b[k] {
                assert(a =~= b);
            }
        }
        let k = choose|k: int| 0 <= k < a.len() && a[k] != b[k];
        first_difference(a, b, k);
    }
}

proof fn first_difference(a: Seq<u8>, b: Seq<u8>, k: int)
    requires
        a.len() == b.len(),
        0 <= k < a.len(),
        a[k] != b[k],
    ensures
        spec_bytes_lt(a, b) || spec_bytes_lt(b, a),
    decreases k,
{
    if exists|m: int| 0 <= m < k && a[m] != b[m] {
        let m = choose|m: int| 0 <= m < k && a[m] != b[m];
        first_difference(a, b, m);
    } else {
        assert(a.take(k) =~= b.take(k));
        if a[k] < b[k] {
            assert(spec_bytes_lt(a, b));
        } else {
            assert(b.take(k) == a.take(k));
            assert(spec_bytes_lt(b, a));
        }
    }
}

/// Calls `rand::Rng::fill` on `rand::thread_rng()`: the bytes are random, so nothing is known of
/// them.
#[verifier::external_body]
fn random_bytes() -> [u8; HASH_LEN] {
    let mut bytes = [0u8; HASH_LEN];
    rand::Rng::fill(&mut rand::thread_rng(), &mut bytes);
    bytes
}

impl Hash {
    /// Lexicographic comparison of the bytes; agrees with the derived `Ord`
    pub fn bytes_lt(&self, other: &Hash) -> (r: bool)
        ensures
            r == spec_bytes_lt(self@, other@),
    {
        let mut i: usize = 0;
        while i < HASH_LEN
            invariant
                i <= HASH_LEN,
                self.0@.take(i as int) == other.0@.take(i as int),
            decreases HASH_LEN - i,
        {
            if self.0[i] != other.0[i] {
                proof {
                    if self.0[i as int] > other.0[i as int] {
                        lemma_bytes_lt_order(other@, self@);
                        assert(spec_bytes_lt(other@, self@));
                    }
                }
                return self.0[i] < other.0[i];
            }
            assert(self.0@.take(i + 1) =~= self.0@.take(i as int).push(self.0[i as int]));
            assert(other.0@.take(i + 1) =~= other.0@.take(i as int).push(other.0[i as int]));
            i += 1;
        }
        assert(self.0@ =~= other.0@.take(HASH_LEN as int));
        proof {
            assert(self@ =~= other@);
            lemma_bytes_lt_order(self@, self@);
        }
        false
    }

    /// Construct a hash from a byte slice holding exactly [`HASH_LEN`] bytes
    pub fn from_slice(bytes: &[u8]) -> (r: Result<Hash, Error>)
        ensures
            match r {
                Ok(h) => bytes@.len() == HASH_LEN && h@ == bytes@,
                Err(e) => bytes@.len() != HASH_LEN && e == Error::TryFromSlice,
            },
    {
        if bytes.len() != HASH_LEN {
            return Err(Error::TryFromSlice);
        }
        let mut out = [0u8; HASH_LEN];
        let mut i: usize = 0;
        while i < HASH_LEN
            invariant
                i <= HASH_LEN,
                bytes@.len() == HASH_LEN,
                forall|j: int| 0 <= j < i ==> out[j] == bytes@[j],
            decreases HASH_LEN - i,
        {
            out.set(i, bytes[i]);
            i += 1;
        }
        let h = Hash(out);
        assert(h@ =~= bytes@);
        Ok(h)
    }

    /// A hash of random bytes
    pub fn random() -> Hash {
        Hash(random_bytes())
    }

    /// Format the Hash as a short hex string, better for displaying Hashes in large
    /// collections of data: the hex of the first four bytes, followed by `..`
    pub fn to_short_hex(&self) -> (s: String)
        ensures
            s@ == spec_hex(self@.take(4)) + seq!['.', '.'],
    {
        let prefix = [self.0[0], self.0[1], self.0[2], self.0[3]];
        assert(prefix@ =~= self@.take(4));
        let mut s = hex_encode(prefix.as_slice());
        s.append("..");
        proof {
            reveal_strlit("..");
        }
        s
    }
}

} // verus!
