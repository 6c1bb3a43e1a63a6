use crate::collections::{distinct, MapKey};
use crate::consensus::namespace::{Namespace, NamespaceId};
use crate::consensus::transaction::TxRoot;
use crate::hash::{blake3_digest, blake3_hash, lemma_bytes_lt_order, lemma_hash_view, spec_bytes_lt};
use std::sync::Arc;
use vstd::prelude::*;

verus! {

broadcast use lemma_hash_view;

/// Current revision of the vertex structure
pub const VERSION: u32 = 1;

/// Error type for vertex errors
#[derive(Debug, PartialEq, Eq)]
pub enum Error {
    BadVersion(u32, u32),
    DuplicateParents,
    MissingField(String),
    /// The bytes do not hold a well-formed vertex encoding
    Decode,
    Hash(crate::hash::Error),
}

/// Type alias for vertex hashes
pub type VertexHash = crate::hash::Hash;

/// Transaction vertex, representing a batch of transactions within the graph
#[derive(Debug, PartialEq, Eq)]
pub struct Vertex {
    /// Revision number of the vertex structure
    pub version: u32,
    /// Height of this vertex in the DAG
    pub height: u64,
    /// Vertex parents ordered according to sequence of observation
    pub parents: Vec<VertexHash>,
    /// ID of the transaction namespace this vertex belongs to
    pub namespace_id: NamespaceId,
    /// Root hash of the transactions contained in this vertex
    pub root: TxRoot,
    /// The time at which we first observed this vertex, in microseconds since the UNIX epoch
    pub timestamp: i64,
}

/// Mathematical model of a [`Vertex`]
pub ghost struct VertexView {
    pub version: u32,
    pub height: u64,
    pub parents: Seq<VertexHash>,
    pub namespace_id: NamespaceId,
    pub root: TxRoot,
    pub timestamp: i64,
}

impl View for Vertex {
    type V = VertexView;

    open spec fn view(&self) -> VertexView {
        VertexView {
            version: self.version,
            height: self.height,
            parents: self.parents@,
            namespace_id: self.namespace_id,
            root: self.root,
            timestamp: self.timestamp,
        }
    }
}

/// Copy a list of hashes
pub fn copy_hashes(hashes: &Vec<VertexHash>) -> (r: Vec<VertexHash>)
    ensures
        r@ == hashes@,
{
    let mut r: Vec<VertexHash> = Vec::new();
    let mut i: usize = 0;
    while i < hashes.len()
        invariant
            i <= hashes@.len(),
            r@ == hashes@.take(i as int),
        decreases hashes.len() - i,
    {
        r.push(hashes[i]);
        i += 1;
        assert(r@ =~= hashes@.take(i as int));
    }
    assert(r@ =~= hashes@);
    r
}

impl Clone for Vertex {
    fn clone(&self) -> (r: Self)
        ensures
            r@ == self@,
    {
        let r = Vertex {
            version: self.version,
            height: self.height,
            parents: copy_hashes(&self.parents),
            namespace_id: self.namespace_id,
            root: self.root,
            timestamp: self.timestamp,
        };
        assert(r.parents@ =~= self.parents@);
        r
    }
}

/// Little-endian encoding of `x` in `width` bytes
pub open spec fn le_bytes(x: nat, width: nat) -> Seq<u8>
    decreases width,
{
    if width == 0 {
        Seq::empty()
    } else {
        seq![(x % 256) as u8] + le_bytes(x / 256, (width - 1) as nat)
    }
}

/// The bytes of each hash, one after the other
pub open spec fn hashes_bytes(hashes: Seq<VertexHash>) -> Seq<u8>
    decreases hashes.len(),
{
    if hashes.len() == 0 {
        Seq::empty()
    } else {
        hashes_bytes(hashes.drop_last()) + hashes.last()@
    }
}

/// Wire encoding of a vertex: version (4 bytes), height (8 bytes) and number of parents (8 bytes),
/// each little-endian, then the parent hashes, the namespace id and the transaction root. The
/// timestamp is local information and is not encoded.
pub open spec fn spec_wire(v: VertexView) -> Seq<u8> {
    le_bytes(v.version as nat, 4) + le_bytes(v.height as nat, 8) + le_bytes(v.parents.len(), 8)
        + hashes_bytes(v.parents) + v.namespace_id@ + v.root@
}

/// The hash of a vertex: the BLAKE3 digest of its wire encoding
pub open spec fn spec_vertex_hash(v: VertexView) -> VertexHash {
    choose|h: VertexHash| h@ == blake3_hash(spec_wire(v))
}

/// Append the little-endian encoding of `x` in `width` bytes
fn push_le(out: &mut Vec<u8>, x: u64, width: usize)
    ensures
        final(out)@ == old(out)@ + le_bytes(x as nat, width as nat),
{
    let mut cur: u64 = x;
    let mut i: usize = 0;
    while i < width
        invariant
            i <= width,
            old(out)@ + le_bytes(x as nat, width as nat) == out@ + le_bytes(
                cur as nat,
                (width - i) as nat,
            ),
        decreases width - i,
    {
        let ghost before = out@;
        out.push((cur % 256) as u8);
        proof {
            let rest = le_bytes((cur / 256) as nat, (width - i - 1) as nat);
            assert(le_bytes(cur as nat, (width - i) as nat) == seq![(cur % 256) as u8] + rest);
            assert(before + (seq![(cur % 256) as u8] + rest) =~= out@ + rest);
        }
        cur = cur / 256;
        i += 1;
    }
    assert(le_bytes(cur as nat, 0) =~= Seq::<u8>::empty());
    assert(out@ + Seq::<u8>::empty() =~= out@);
}

/// Append the bytes of a hash
fn push_hash(out: &mut Vec<u8>, h: &VertexHash)
    ensures
        final(out)@ == old(out)@ + h@,
{
    let bytes = h.as_slice();
    let mut i: usize = 0;
    while i < 32
        invariant
            i <= 32,
            bytes@ == h@,
            bytes@.len() == 32,
            out@ == old(out)@ + h@.take(i as int),
        decreases 32 - i,
    {
        out.push(bytes[i]);
        i += 1;
        assert(out@ =~= old(out)@ + h@.take(i as int));
    }
    assert(h@.take(32) =~= h@);
}

/// Whether the hashes are pairwise distinct
fn all_unique(hashes: &Vec<VertexHash>) -> (r: bool)
    ensures
        r == distinct(hashes@),
{
    let mut i: usize = 0;
    while i < hashes.len()
        invariant
            i <= hashes@.len(),
            forall|a: int, b: int| 0 <= a < b < hashes@.len() && a < i ==> hashes@[a] != hashes@[b],
        decreases hashes.len() - i,
    {
        let mut j: usize = i + 1;
        while j < hashes.len()
            invariant
                i < j <= hashes@.len(),
                forall|a: int, b: int|
                    0 <= a < b < hashes@.len() && a < i ==> hashes@[a] != hashes@[b],
                forall|b: int| i < b < j ==> hashes@[i as int] != hashes@[b],
            decreases hashes.len() - j,
        {
            if hashes[i].key_eq(&hashes[j]) {
                return false;
            }
            j += 1;
        }
        i += 1;
    }
    true
}

/// Calls `chrono::Utc::now`: the current time in microseconds since the UNIX epoch. It depends
/// on the clock, so nothing is stated of it.
#[verifier::external_body]
pub(crate) fn now_micros() -> i64 {
    chrono::Utc::now().timestamp_micros()
}

/// Largest height among the given vertices, or 0 if there are none
pub open spec fn max_height(vs: Seq<VertexView>) -> u64
    decreases vs.len(),
{
    if vs.len() == 0 {
        0
    } else {
        let m = max_height(vs.drop_last());
        if vs.last().height > m {
            vs.last().height
        } else {
            m
        }
    }
}

/// The vertices behind a list of shared references
pub open spec fn views_of(ps: Seq<&Arc<Vertex>>) -> Seq<VertexView> {
    ps.map_values(|p: &Arc<Vertex>| p@)
}

/// Hashes of the given vertices, in order
pub open spec fn hashes_of(vs: Seq<VertexView>) -> Seq<VertexHash> {
    vs.map_values(|v: VertexView| spec_vertex_hash(v))
}

/// The error that says the named field is missing
pub open spec fn is_missing_field(e: Error, name: Seq<char>) -> bool {
    e matches Error::MissingField(s) && s@ == name
}

impl VertexView {
    /// The vertex passes all basic sanity checks
    pub open spec fn sane(self) -> bool {
        self.version == VERSION && self.parents.len() > 0 && distinct(self.parents)
    }

    /// `e` is the error that the sanity checks report for this vertex
    pub open spec fn sanity_error(self, e: Error) -> bool {
        if self.version != VERSION {
            e == Error::BadVersion(VERSION, self.version)
        } else if self.parents.len() == 0 {
            is_missing_field(e, "parents"@)
        } else {
            !distinct(self.parents) && e == Error::DuplicateParents
        }
    }
}

impl Vertex {
    /// The vertex passes all basic sanity checks
    pub open spec fn spec_sane(&self) -> bool {
        self@.sane()
    }

    /// `e` is the error that the sanity checks report for this vertex
    pub open spec fn spec_sanity_error(&self, e: Error) -> bool {
        self@.sanity_error(e)
    }

    /// Wire encoding of this vertex, without sanity checks
    pub fn encode(&self) -> (bytes: Vec<u8>)
        ensures
            bytes@ == spec_wire(self@),
    {
        let mut out: Vec<u8> = Vec::new();
        push_le(&mut out, self.version as u64, 4);
        push_le(&mut out, self.height, 8);
        push_le(&mut out, self.parents.len() as u64, 8);
        let ghost head = out@;
        let mut i: usize = 0;
        while i < self.parents.len()
            invariant
                i <= self.parents@.len(),
                out@ == head + hashes_bytes(self.parents@.take(i as int)),
            decreases self.parents.len() - i,
        {
            push_hash(&mut out, &self.parents[i]);
            proof {
                let t = self.parents@.take(i + 1);
                assert(t.drop_last() =~= self.parents@.take(i as int));
                assert(out@ =~= head + hashes_bytes(t));
            }
            i += 1;
        }
        assert(self.parents@.take(self.parents@.len() as int) =~= self.parents@);
        push_hash(&mut out, &self.namespace_id);
        push_hash(&mut out, &self.root);
        assert(out@ =~= spec_wire(self@));
        out
    }

    /// Compute the hash of the vertex: the BLAKE3 digest of its wire encoding
    pub fn hash(&self) -> (h: VertexHash)
        ensures
            h == spec_vertex_hash(self@),
            h@ == blake3_hash(spec_wire(self@)),
    {
        let bytes = self.encode();
        let h = blake3_digest(bytes.as_slice());
        assert(h@ == blake3_hash(spec_wire(self@)));
        h
    }

    /// Make sure the vertex passes all basic sanity checks
    pub fn sanity_checks(&self) -> (r: Result<(), Error>)
        ensures
            r is Ok <==> self.spec_sane(),
            r matches Err(e) ==> self.spec_sanity_error(e),
    {
        if self.version != VERSION {
            Err(Error::BadVersion(VERSION, self.version))
        } else if self.parents.len() == 0 {
            Err(Error::MissingField("parents".to_owned()))
        } else if !all_unique(&self.parents) {
            Err(Error::DuplicateParents)
        } else {
            Ok(())
        }
    }

    /// Wire encoding of this vertex, optionally performing the sanity checks first
    pub fn to_wire(&self, check: bool) -> (r: Result<Vec<u8>, Error>)
        ensures
            match r {
                Ok(bytes) => bytes@ == spec_wire(self@) && (check ==> self.spec_sane()),
                Err(e) => check && !self.spec_sane() && self.spec_sanity_error(e),
            },
    {
        if check {
            self.sanity_checks()?;
        }
        Ok(self.encode())
    }

    /// Create an empty [`Vertex`], observed now
    pub fn empty() -> (v: Vertex)
        ensures
            v.version == VERSION,
            v.height == 0,
            v.parents@ == Seq::<VertexHash>::empty(),
            v.namespace_id@ == Seq::new(32, |i: int| 0u8),
            v.root@ == Seq::new(32, |i: int| 0u8),
    {
        Vertex {
            version: VERSION,
            height: 0,
            parents: Vec::new(),
            namespace_id: NamespaceId::default(),
            root: TxRoot::default(),
            timestamp: now_micros(),
        }
    }

    /// Assign this vertex to a namespace
    pub fn in_namespace(self, namespace: Namespace) -> (r: Result<Vertex, Error>)
        ensures
            r matches Ok(v) && v@ == (VertexView { namespace_id: v.namespace_id, ..self@ })
                && v.namespace_id@ == blake3_hash(vstd::utf8::encode_utf8(namespace@)),
    {
        let mut v = self;
        v.namespace_id = namespace.id();
        Ok(v)
    }
}

impl Vertex {
    /// Assign new parents to the given vertex. The height becomes one more than the largest
    /// height among the parents.
    pub fn with_parents(self, parents: &[&Arc<Vertex>]) -> (r: Result<Vertex, Error>)
        requires
            forall|i: int| 0 <= i < parents@.len() ==> parents@[i].height < u64::MAX,
        ensures
            parents@.len() == 0 ==> (r matches Err(e) && is_missing_field(e, "parents"@)),
            parents@.len() > 0 && !distinct(hashes_of(views_of(parents@))) ==> r == Err::<
                Vertex,
                Error,
            >(Error::DuplicateParents),
            parents@.len() > 0 && distinct(hashes_of(views_of(parents@))) ==> (r matches Ok(v)
                && v@ == (VertexView {
                height: (max_height(views_of(parents@)) + 1) as u64,
                parents: hashes_of(views_of(parents@)),
                ..self@
            })),
    {
        let ghost vs = views_of(parents@);
        let mut hashes: Vec<VertexHash> = Vec::new();
        let mut max: u64 = 0;
        let mut i: usize = 0;
        while i < parents.len()
            invariant
                i <= parents@.len(),
                vs == views_of(parents@),
                hashes@ == hashes_of(vs.take(i as int)),
                max == max_height(vs.take(i as int)),
                forall|j: int| 0 <= j < parents@.len() ==> parents@[j].height < u64::MAX,
            decreases parents.len() - i,
        {
            let p: &Arc<Vertex> = parents[i];
            let h = p.hash();
            hashes.push(h);
            if p.height > max {
                max = p.height;
            }
            proof {
                let t = vs.take(i + 1);
                assert(t.drop_last() =~= vs.take(i as int));
                assert(t.last() == p@);
                assert(hashes@ =~= hashes_of(t));
            }
            i += 1;
        }
        assert(vs.take(parents@.len() as int) =~= vs);
        if parents.len() == 0 {
            Err(Error::MissingField("parents".to_owned()))
        } else if !all_unique(&hashes) {
            Err(Error::DuplicateParents)
        } else {
            proof {
                lemma_max_height_member(vs);
            }
            let mut v = self;
            v.height = 1 + max;
            v.parents = hashes;
            Ok(v)
        }
    }

    /// Return the parent ordering [`Constraint`]s this [`Vertex`] commits to
    pub fn parent_constraints(&self) -> (cs: Constraints)
        ensures
            cs.wf(),
            cs.remaining() == constraint_seq(self.parents@),
    {
        Constraints::new(copy_hashes(&self.parents))
    }
}

/// The largest height is the height of one of the vertices
proof fn lemma_max_height_member(vs: Seq<VertexView>)
    requires
        vs.len() > 0,
    ensures
        exists|i: int| 0 <= i < vs.len() && vs[i].height == max_height(vs),
    decreases vs.len(),
{
    if vs.len() > 1 {
        lemma_max_height_member(vs.drop_last());
        let i = choose|i: int| 0 <= i < vs.drop_last().len() && vs.drop_last()[i].height
            == max_height(vs.drop_last());
        if vs.last().height <= max_height(vs.drop_last()) {
            assert(vs[i].height == max_height(vs));
        } else {
            assert(vs[vs.len() - 1].height == max_height(vs));
        }
    } else {
        assert(vs.drop_last().len() == 0);
        assert(max_height(vs.drop_last()) == 0);
        assert(vs[0].height == max_height(vs));
    }
}

/// Key used to map a constraint to the conflict set it belongs to
#[derive(Copy, Clone, Debug, PartialEq, Eq, Hash)]
pub struct ConflictSetKey([u8; 64]);

impl View for ConflictSetKey {
    type V = Seq<u8>;

    closed spec fn view(&self) -> Seq<u8> {
        self.0@
    }
}

/// A conflict set key is determined by its bytes, and always holds 64 of them
pub broadcast proof fn lemma_key_view(a: ConflictSetKey, b: ConflictSetKey)
    ensures
        #![trigger a@, b@]
        a@.len() == 64,
        a@ == b@ <==> a == b,
{
    broadcast use vstd::array::group_array_axioms;

    if a@ == b@ {
        assert(a.0 == b.0);
    }
}

impl ConflictSetKey {
    /// The bytes of the key
    pub fn as_bytes(&self) -> (b: &[u8; 64])
        ensures
            b@ == self@,
    {
        &self.0
    }
}

impl MapKey for ConflictSetKey {
    fn key_eq(&self, other: &Self) -> (r: bool) {
        broadcast use lemma_key_view;

        let mut i: usize = 0;
        while i < 64
            invariant
                i <= 64,
                forall|j: int| 0 <= j < i ==> self.0[j] == other.0[j],
            decreases 64 - i,
        {
            if self.0[i] != other.0[i] {
                assert(self@[i as int] != other@[i as int]);
                return false;
            }
            i += 1;
        }
        assert(self.0@ =~= other.0@);
        assert(self@ == other@);
        true
    }
}

/// A [`Constraint`] describes an ordered [`Vertex`] pair, and is used to reach consensus on the
/// total ordering of vertices in the graph. The left [`Vertex`] is constrained to come in
/// sequence before the right.
#[derive(Copy, Clone, Debug, PartialEq, Eq, Hash, PartialOrd, Ord)]
pub struct Constraint(pub VertexHash, pub VertexHash);

impl MapKey for Constraint {
    fn key_eq(&self, other: &Self) -> (r: bool) {
        self.0.key_eq(&other.0) && self.1.key_eq(&other.1)
    }
}

/// Bytes of the conflict set key of a constraint: the smaller hash first, then the larger
pub open spec fn spec_key(c: Constraint) -> Seq<u8> {
    if spec_bytes_lt(c.0@, c.1@) {
        c.0@ + c.1@
    } else {
        c.1@ + c.0@
    }
}

/// The constraint for the opposite ordering of the same pair
pub open spec fn spec_opposite(c: Constraint) -> Constraint {
    Constraint(c.1, c.0)
}

/// A unity constraint references only one vertex
pub open spec fn spec_is_unity(c: Constraint) -> bool {
    c.0 == c.1
}

/// Two constraints map to the same conflict set exactly when they are equal or opposite
pub proof fn lemma_key_eq(a: Constraint, b: Constraint)
    ensures
        spec_key(a) == spec_key(b) <==> (b == a || b == spec_opposite(a)),
{
    lemma_bytes_lt_order(a.0@, a.1@);
    lemma_bytes_lt_order(a.1@, a.0@);
    lemma_bytes_lt_order(b.0@, b.1@);
    lemma_bytes_lt_order(b.1@, b.0@);
    if spec_key(a) == spec_key(b) {
        let (x, y) = if spec_bytes_lt(a.0@, a.1@) { (a.0, a.1) } else { (a.1, a.0) };
        let (u, v) = if spec_bytes_lt(b.0@, b.1@) { (b.0, b.1) } else { (b.1, b.0) };
        assert(x@ + y@ == u@ + v@);
        assert((x@ + y@).subrange(0, 32) =~= x@);
        assert((u@ + v@).subrange(0, 32) =~= u@);
        assert((x@ + y@).subrange(32, 64) =~= y@);
        assert((u@ + v@).subrange(32, 64) =~= v@);
        assert(x == u && y == v);
    }
}

/// The conflict set key of a constraint
pub open spec fn key_of(c: Constraint) -> ConflictSetKey {
    choose|k: ConflictSetKey| k@ == spec_key(c)
}

proof fn lemma_array_exists(s: Seq<u8>, i: int)
    requires
        s.len() == 64,
        0 <= i <= 64,
    ensures
        exists|a: [u8; 64]| #[trigger] a@.take(i) == s.take(i),
    decreases i,
{
    broadcast use vstd::array::group_array_axioms;

    if i == 0 {
        let a = vstd::array::spec_array_fill_for_copy_type::<u8, 64>(0u8);
        assert(a@.take(0) =~= s.take(0));
    } else {
        lemma_array_exists(s, i - 1);
        let a = choose|a: [u8; 64]| #[trigger] a@.take(i - 1) == s.take(i - 1);
        let b = vstd::array::spec_array_update(a, i - 1, s[i - 1]);
        assert(a@.len() == 64);
        assert(b@.take(i) =~= s.take(i)) by {
            assert forall|j: int| 0 <= j < i - 1 implies b@[j] == s[j] by {
                assert(a@.take(i - 1)[j] == s.take(i - 1)[j]);
            }
        }
    }
}

/// The key of a constraint has the bytes of [`spec_key`]; two constraints share a key exactly
/// when they are equal or opposite
pub proof fn lemma_key_of(a: Constraint, b: Constraint)
    ensures
        key_of(a)@ == spec_key(a),
        key_of(a) == key_of(b) <==> (b == a || b == spec_opposite(a)),
{
    broadcast use vstd::array::group_array_axioms;

    let s = spec_key(a);
    assert(s.len() == 64) by {
        if spec_bytes_lt(a.0@, a.1@) {
        } else {
        }
    }
    lemma_array_exists(s, 64);
    let arr = choose|arr: [u8; 64]| #[trigger] arr@.take(64) == s.take(64);
    assert(arr@ =~= s) by {
        assert(arr@.take(64) =~= arr@);
        assert(s.take(64) =~= s);
    }
    let k = ConflictSetKey(arr);
    assert(k@ == s);
    let t = spec_key(b);
    assert(t.len() == 64) by {
        if spec_bytes_lt(b.0@, b.1@) {
        } else {
        }
    }
    lemma_array_exists(t, 64);
    let arr2 = choose|arr2: [u8; 64]| #[trigger] arr2@.take(64) == t.take(64);
    assert(arr2@ =~= t) by {
        assert(arr2@.take(64) =~= arr2@);
        assert(t.take(64) =~= t);
    }
    let k2 = ConflictSetKey(arr2);
    assert(k2@ == t);
    lemma_key_eq(a, b);
    if key_of(a) == key_of(b) {
        lemma_key_view(key_of(a), key_of(b));
    }
    if s == t {
        assert(key_of(a) == key_of(b));
    }
}

impl Constraint {
    /// Compute a deterministic key that can be used to map any constraint to the same conflict set
    /// as its opposite.
    pub fn conflict_set_key(&self) -> (k: ConflictSetKey)
        ensures
            k@ == spec_key(*self),
            k == key_of(*self),
    {
        let (lt, gt) = if self.0.bytes_lt(&self.1) {
            (self.0, self.1)
        } else {
            (self.1, self.0)
        };
        let a = lt.as_slice();
        let b = gt.as_slice();
        let mut ret = ConflictSetKey([0; 64]);
        let mut i: usize = 0;
        while i < 32
            invariant
                i <= 32,
                a@ == lt@,
                b@ == gt@,
                a@.len() == 32,
                b@.len() == 32,
                forall|j: int| 0 <= j < i ==> ret.0[j] == a@[j],
                forall|j: int| 0 <= j < i ==> ret.0[32 + j] == b@[j],
            decreases 32 - i,
        {
            ret.0.set(i, a[i]);
            ret.0.set(32 + i, b[i]);
            i += 1;
        }
        assert(ret@ =~= lt@ + gt@);
        proof {
            lemma_key_of(*self, *self);
            lemma_key_view(ret, key_of(*self));
        }
        ret
    }

    /// Return a [`Constraint`] for the opposite [`Vertex`] ordering, if any. In the case of a
    /// unity constraint, there is no opposite.
    pub fn conflict(&self) -> (r: Option<Constraint>)
        ensures
            r == (if spec_is_unity(*self) {
                None::<Constraint>
            } else {
                Some(spec_opposite(*self))
            }),
    {
        if !self.is_unity() {
            Some(Constraint(self.1, self.0))
        } else {
            None
        }
    }

    /// Same as [`Constraint::conflict`]
    pub fn opposite(&self) -> (r: Option<Constraint>)
        ensures
            r == (if spec_is_unity(*self) {
                None::<Constraint>
            } else {
                Some(spec_opposite(*self))
            }),
    {
        self.conflict()
    }

    /// Returns true if this is a unity constraint; i.e. it only references one vertex
    pub fn is_unity(&self) -> (r: bool)
        ensures
            r == spec_is_unity(*self),
    {
        self.0.key_eq(&self.1)
    }
}

/// Constraints `(v[i], v[k])` for `j <= k < v.len()`
pub open spec fn row_from(v: Seq<VertexHash>, i: int, j: int) -> Seq<Constraint> {
    Seq::new((v.len() - j) as nat, |k: int| Constraint(v[i], v[j + k]))
}

/// Constraints `(v[a], v[b])` for `i <= a < b < v.len()`, ordered by `a`, then `b`
pub open spec fn pairs_from(v: Seq<VertexHash>, i: int) -> Seq<Constraint>
    decreases v.len() - i,
{
    if i < 0 || i + 1 >= v.len() {
        Seq::empty()
    } else {
        row_from(v, i, i + 1) + pairs_from(v, i + 1)
    }
}

/// Unity constraints of each hash, last hash first
pub open spec fn unity_rev(v: Seq<VertexHash>) -> Seq<Constraint>
    decreases v.len(),
{
    if v.len() == 0 {
        Seq::empty()
    } else {
        seq![Constraint(v.last(), v.last())] + unity_rev(v.drop_last())
    }
}

/// Every ordering constraint a list of parents commits to: each pair in observed order, then the
/// unity constraint of each parent, last parent first
pub open spec fn constraint_seq(v: Seq<VertexHash>) -> Seq<Constraint> {
    pairs_from(v, 0) + unity_rev(v)
}

/// Number of pairs `(a, b)` with `a < i` and `a < b < n`: the pairs of the rows before row `i`
pub open spec fn row_start(n: int, i: int) -> int
    decreases i,
{
    if i <= 0 {
        0
    } else {
        row_start(n, i - 1) + (n - i)
    }
}

/// Position of the pair `(a, b)` among the pairs of `n` parents, ordered by `a`, then `b`
pub open spec fn pair_position(n: int, a: int, b: int) -> int {
    row_start(n, a) + (b - a - 1)
}

proof fn lemma_row_start(n: int, i: int)
    requires
        0 <= i <= n,
    ensures
        2 * row_start(n, i) == i * (2 * n - i - 1),
        forall|j: int| 0 <= j <= i ==> #[trigger] row_start(n, j) <= row_start(n, i),
    decreases i,
{
    if i > 0 {
        lemma_row_start(n, i - 1);
        assert(2 * row_start(n, i) == i * (2 * n - i - 1)) by (nonlinear_arith)
            requires
                2 * row_start(n, i - 1) == (i - 1) * (2 * n - (i - 1) - 1),
                row_start(n, i) == row_start(n, i - 1) + (n - i);
    }
}

proof fn lemma_pairs_from(v: Seq<VertexHash>, i: int)
    requires
        0 <= i <= v.len(),
    ensures
        pairs_from(v, i).len() == row_start(v.len() as int, v.len() as int) - row_start(
            v.len() as int,
            i,
        ),
        forall|a: int, b: int|
            i <= a < b < v.len() ==> pairs_from(v, i)[pair_position(v.len() as int, a, b) - row_start(
                v.len() as int,
                i,
            )] == Constraint(v[a], v[b]),
    decreases v.len() - i,
{
    let n = v.len() as int;
    lemma_row_start(n, n);
    if i + 1 >= n {
        if i + 1 == n {
            assert(row_start(n, n) == row_start(n, n - 1));
        }
    } else {
        lemma_pairs_from(v, i + 1);
        let r = row_from(v, i, i + 1);
        let rest = pairs_from(v, i + 1);
        assert(pairs_from(v, i) == r + rest);
        assert(r.len() == row_start(n, i + 1) - row_start(n, i));
        assert forall|a: int, b: int| i <= a < b < n implies pairs_from(v, i)[pair_position(
            n,
            a,
            b,
        ) - row_start(n, i)] == Constraint(v[a], v[b]) by {
            if a == i {
                assert(r[b - a - 1] == Constraint(v[i], v[b]));
            } else {
                lemma_row_start(n, a + 1);
                lemma_row_start(n, a);
                assert(row_start(n, i + 1) <= row_start(n, a));
                assert(row_start(n, a + 1) == row_start(n, a) + (n - a - 1));
                assert(rest[pair_position(n, a, b) - row_start(n, i + 1)] == Constraint(v[a], v[b]));
            }
        }
    }
}

proof fn lemma_unity_rev(v: Seq<VertexHash>)
    ensures
        unity_rev(v).len() == v.len(),
        forall|k: int| 0 <= k < v.len() ==> #[trigger] unity_rev(v)[k] == Constraint(
            v[v.len() - 1 - k],
            v[v.len() - 1 - k],
        ),
    decreases v.len(),
{
    if v.len() > 0 {
        lemma_unity_rev(v.drop_last());
        assert forall|k: int| 0 <= k < v.len() implies #[trigger] unity_rev(v)[k] == Constraint(
            v[v.len() - 1 - k],
            v[v.len() - 1 - k],
        ) by {
            if k > 0 {
                assert(unity_rev(v)[k] == unity_rev(v.drop_last())[k - 1]);
            }
        }
    }
}

/// The constraints a list of `n` parents commits to, as the iterator yields them: first the pair
/// `(v[a], v[b])` for every `a < b`, in lexicographic order of `(a, b)`, then the unity constraint
/// of each parent, last parent first; `n * (n + 1) / 2` constraints in all
pub proof fn lemma_constraint_seq_enumeration(v: Seq<VertexHash>)
    ensures
        2 * constraint_seq(v).len() == v.len() * (v.len() + 1),
        forall|a: int, b: int|
            0 <= a < b < v.len() ==> constraint_seq(v)[pair_position(v.len() as int, a, b)]
                == Constraint(v[a], v[b]),
        forall|a: int, b: int, a2: int, b2: int|
            0 <= a < b < v.len() && 0 <= a2 < b2 < v.len() && (a < a2 || (a == a2 && b < b2))
                ==> #[trigger] pair_position(v.len() as int, a, b) < #[trigger] pair_position(
                v.len() as int,
                a2,
                b2,
            ),
        forall|a: int, b: int|
            0 <= a < b < v.len() ==> 0 <= #[trigger] pair_position(v.len() as int, a, b) < row_start(
                v.len() as int,
                v.len() as int,
            ),
        forall|k: int|
            0 <= k < v.len() ==> #[trigger] constraint_seq(v)[row_start(v.len() as int, v.len() as int) + k]
                == Constraint(v[v.len() - 1 - k], v[v.len() - 1 - k]),
{
    let n = v.len() as int;
    lemma_row_start(n, n);
    lemma_pairs_from(v, 0);
    lemma_unity_rev(v);
    let p = pairs_from(v, 0);
    let u = unity_rev(v);
    assert(constraint_seq(v) == p + u);
    assert(row_start(n, 0) == 0);
    assert(2 * constraint_seq(v).len() == v.len() * (v.len() + 1)) by (nonlinear_arith)
        requires
            constraint_seq(v).len() == p.len() + u.len(),
            p.len() == row_start(n, n),
            u.len() == n,
            2 * row_start(n, n) == n * (2 * n - n - 1),
            n == v.len(),
    ;
    assert forall|a: int, b: int| 0 <= a < b < n implies 0 <= #[trigger] pair_position(n, a, b) < row_start(n, n) by {
        lemma_row_start(n, a + 1);
        lemma_row_start(n, a);
        assert(row_start(n, 0) <= row_start(n, a));
        assert(row_start(n, a + 1) <= row_start(n, n));
        assert(row_start(n, a + 1) == row_start(n, a) + (n - a - 1));
    }
    assert forall|a: int, b: int| 0 <= a < b < n implies constraint_seq(v)[pair_position(n, a, b)]
        == Constraint(v[a], v[b]) by {
        lemma_row_start(n, a + 1);
        assert(row_start(n, a + 1) == row_start(n, a) + (n - a - 1));
        assert(p[pair_position(n, a, b)] == Constraint(v[a], v[b]));
    }
    assert forall|a: int, b: int, a2: int, b2: int|
        0 <= a < b < n && 0 <= a2 < b2 < n && (a < a2 || (a == a2 && b < b2)) implies #[trigger] pair_position(
        n,
        a,
        b,
    ) < #[trigger] pair_position(n, a2, b2) by {
        if a < a2 {
            lemma_row_start(n, a2);
            lemma_row_start(n, a + 1);
            assert(row_start(n, a + 1) == row_start(n, a) + (n - a - 1));
            assert(row_start(n, a + 1) <= row_start(n, a2));
        }
    }
    assert forall|k: int| 0 <= k < n implies #[trigger] constraint_seq(v)[row_start(n, n) + k]
        == Constraint(v[n - 1 - k], v[n - 1 - k]) by {
        assert(u[k] == Constraint(v[n - 1 - k], v[n - 1 - k]));
    }
}

/// An iterator which yields every permutation of parent [`Constraint`]s a [`Vertex`] commits to.
pub struct Constraints {
    vertices: Vec<VertexHash>,
    idx1: usize,
    idx2: usize,
}

impl Constraints {
    pub closed spec fn wf(&self) -> bool {
        &&& self.idx1 < usize::MAX
        &&& (self.idx1 + 1 >= self.vertices@.len() || (self.idx1 < self.idx2
            < self.vertices@.len()))
    }

    /// The constraints this iterator has yet to yield
    pub closed spec fn remaining(&self) -> Seq<Constraint> {
        let v = self.vertices@;
        if self.idx1 + 1 >= v.len() {
            unity_rev(v)
        } else {
            row_from(v, self.idx1 as int, self.idx2 as int) + pairs_from(v, self.idx1 + 1)
                + unity_rev(v)
        }
    }

    /// Iterate over the constraints that a list of parents commits to
    pub fn new(vertices: Vec<VertexHash>) -> (cs: Constraints)
        ensures
            cs.wf(),
            cs.remaining() == constraint_seq(vertices@),
    {
        let cs = Constraints { vertices, idx1: 0, idx2: 1 };
        proof {
            let v = cs.vertices@;
            if v.len() >= 2 {
                assert(pairs_from(v, 0) == row_from(v, 0, 1) + pairs_from(v, 1));
                assert(cs.remaining() =~= constraint_seq(v));
            } else {
                assert(pairs_from(v, 0) =~= Seq::<Constraint>::empty());
                assert(cs.remaining() =~= constraint_seq(v));
            }
        }
        cs
    }

    /// Yield the next constraint, if any
    pub fn next(&mut self) -> (r: Option<Constraint>)
        requires
            old(self).wf(),
        ensures
            final(self).wf(),
            match r {
                None => old(self).remaining().len() == 0 && final(self).remaining() == old(
                    self,
                ).remaining(),
                Some(c) => old(self).remaining().len() > 0 && c == old(self).remaining()[0]
                    && final(self).remaining() == old(self).remaining().drop_first(),
            },
    {
        let ghost v = self.vertices@;
        if self.idx1 + 1 >= self.vertices.len() {
            let r = self.vertices.pop();
            proof {
                if v.len() > 0 {
                    assert(self.vertices@ =~= v.drop_last());
                    assert(unity_rev(v) == seq![Constraint(v.last(), v.last())] + unity_rev(
                        v.drop_last(),
                    ));
                    assert(unity_rev(v).drop_first() =~= unity_rev(v.drop_last()));
                }
            }
            match r {
                Some(vhash) => Some(Constraint(vhash, vhash)),
                None => None,
            }
        } else {
            let c = Constraint(self.vertices[self.idx1], self.vertices[self.idx2]);
            let ghost i1 = self.idx1 as int;
            let ghost i2 = self.idx2 as int;
            let ghost tail = pairs_from(v, i1 + 1) + unity_rev(v);
            assert(old(self).remaining() == row_from(v, i1, i2) + tail);
            self.idx2 += 1;
            if self.idx2 == self.vertices.len() {
                self.idx1 += 1;
                self.idx2 = self.idx1 + 1;
                proof {
                    assert(row_from(v, i1, i2) =~= seq![c]);
                    assert((row_from(v, i1, i2) + tail).drop_first() =~= tail);
                    if i1 + 2 < v.len() {
                        assert(pairs_from(v, i1 + 1) == row_from(v, i1 + 1, i1 + 2) + pairs_from(
                            v,
                            i1 + 2,
                        ));
                        assert(self.remaining() =~= tail);
                    } else {
                        assert(pairs_from(v, i1 + 1) =~= Seq::<Constraint>::empty());
                        assert(self.remaining() =~= tail);
                    }
                }
            } else {
                proof {
                    assert(row_from(v, i1, i2).drop_first() =~= row_from(v, i1, i2 + 1));
                    assert((row_from(v, i1, i2) + tail).drop_first() =~= row_from(v, i1, i2 + 1)
                        + tail);
                }
            }
            Some(c)
        }
    }

    /// Collect every remaining constraint, in order
    pub fn to_vec(self) -> (r: Vec<Constraint>)
        requires
            self.wf(),
        ensures
            r@ == self.remaining(),
    {
        let ghost all = self.remaining();
        let mut it = self;
        let mut r: Vec<Constraint> = Vec::new();
        loop
            invariant
                it.wf(),
                r@ + it.remaining() == all,
                all == self.remaining(),
            decreases it.remaining().len(),
        {
            let ghost before = it.remaining();
            match it.next() {
                Some(c) => {
                    r.push(c);
                    assert(r@ + it.remaining() =~= all) by {
                        assert(before == seq![c] + before.drop_first());
                    }
                },
                None => {
                    assert(r@ =~= all);
                    assert(all == self.remaining());
                    return r;
                },
            }
        }
    }
}

impl Default for Vertex {
    fn default() -> (v: Vertex)
        ensures
            v.version == 0,
            v.height == 0,
            v.parents@ == Seq::<VertexHash>::empty(),
            v.namespace_id@ == Seq::new(32, |i: int| 0u8),
            v.root@ == Seq::new(32, |i: int| 0u8),
            v.timestamp == 0,
    {
        Vertex {
            version: 0,
            height: 0,
            parents: Vec::new(),
            namespace_id: NamespaceId::default(),
            root: TxRoot::default(),
            timestamp: 0,
        }
    }
}

/// The hash of a vertex does not depend on the time it was observed
pub proof fn lemma_hash_ignores_timestamp(v: VertexView, t: i64)
    ensures
        spec_vertex_hash(VertexView { timestamp: t, ..v }) == spec_vertex_hash(v),
{
    assert(spec_wire(VertexView { timestamp: t, ..v }) == spec_wire(v));
}

} // verus!
