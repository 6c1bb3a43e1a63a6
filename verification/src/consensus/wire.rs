//! Reading vertices back from their wire encoding, and the facts that make the encoding
//! unambiguous
use crate::consensus::vertex::{
    hashes_bytes, le_bytes, now_micros, spec_wire, Error, Vertex, VertexHash, VertexView,
};
use crate::hash::lemma_hash_view;
use vstd::prelude::*;

verus! {

broadcast use lemma_hash_view;

/// Number held by little-endian bytes
pub open spec fn le_value(s: Seq<u8>) -> nat
    decreases s.len(),
{
    if s.len() == 0 {
        0
    } else {
        s[0] as nat + 256 * le_value(s.drop_first())
    }
}

/// Number of distinct values `w` bytes can hold
pub open spec fn byte_bound(w: nat) -> nat
    decreases w,
{
    if w == 0 {
        1
    } else {
        256 * byte_bound((w - 1) as nat)
    }
}

/// The little-endian encoding of a number has the given width
pub proof fn lemma_le_bytes_len(x: nat, w: nat)
    ensures
        le_bytes(x, w).len() == w,
    decreases w,
{
    if w > 0 {
        lemma_le_bytes_len(x / 256, (w - 1) as nat);
    }
}

/// Reading back the little-endian encoding of a number that fits gives the number
pub proof fn lemma_le_value_of_bytes(x: nat, w: nat)
    requires
        x < byte_bound(w),
    ensures
        le_value(le_bytes(x, w)) == x,
    decreases w,
{
    if w > 0 {
        let b = byte_bound((w - 1) as nat);
        assert(x / 256 < b) by (nonlinear_arith)
            requires
                x < 256 * b,
        ;
        lemma_le_value_of_bytes(x / 256, (w - 1) as nat);
        let s = le_bytes(x, w);
        assert(s.drop_first() =~= le_bytes(x / 256, (w - 1) as nat));
        assert(x == (x % 256) + 256 * (x / 256)) by (nonlinear_arith);
    } else {
        assert(x == 0);
    }
}

/// Encoding the number held by some bytes gives the bytes back, and the number fits their width
pub proof fn lemma_bytes_of_le_value(s: Seq<u8>)
    ensures
        le_bytes(le_value(s), s.len()) == s,
        le_value(s) < byte_bound(s.len()),
    decreases s.len(),
{
    if s.len() > 0 {
        let r = le_value(s.drop_first());
        lemma_bytes_of_le_value(s.drop_first());
        let x = le_value(s);
        let b0 = s[0] as nat;
        assert(x == b0 + 256 * r);
        assert(x % 256 == b0 && x / 256 == r) by (nonlinear_arith)
            requires
                x == b0 + 256 * r,
                b0 < 256,
        ;
        let e = le_bytes(x, s.len());
        assert(e =~= seq![(x % 256) as u8] + le_bytes(r, (s.len() - 1) as nat));
        assert(e =~= s);
        let b = byte_bound((s.len() - 1) as nat);
        assert(x < 256 * b) by (nonlinear_arith)
            requires
                x == b0 + 256 * r,
                b0 < 256,
                r < b,
        ;
    }
}

/// Widths of the numbers in a vertex header
pub proof fn lemma_byte_bounds()
    ensures
        byte_bound(4) == 0x1_0000_0000,
        byte_bound(7) == 0x100_0000_0000_0000,
        byte_bound(8) == 0x1_0000_0000_0000_0000,
{
    reveal_with_fuel(byte_bound, 9);
}

/// The bytes of a sequence of hashes: 32 for each, in order
pub proof fn lemma_hashes_bytes(hs: Seq<VertexHash>)
    ensures
        hashes_bytes(hs).len() == 32 * hs.len(),
        forall|i: int|
            0 <= i < hs.len() ==> #[trigger] hashes_bytes(hs).subrange(32 * i, 32 * i + 32)
                == hs[i]@,
    decreases hs.len(),
{
    if hs.len() > 0 {
        let hs0 = hs.drop_last();
        lemma_hashes_bytes(hs0);
        let a = hashes_bytes(hs0);
        let s = hashes_bytes(hs);
        assert(s == a + hs.last()@);
        assert forall|i: int| 0 <= i < hs.len() implies #[trigger] s.subrange(32 * i, 32 * i + 32)
            == hs[i]@ by {
            if i < hs.len() - 1 {
                assert(s.subrange(32 * i, 32 * i + 32) =~= a.subrange(32 * i, 32 * i + 32));
                assert(hs0[i] == hs[i]);
            } else {
                assert(s.subrange(32 * i, 32 * i + 32) =~= hs.last()@);
            }
        }
    }
}

/// Two sequences of hashes with the same bytes are the same
proof fn lemma_hashes_bytes_injective(a: Seq<VertexHash>, b: Seq<VertexHash>)
    requires
        hashes_bytes(a) == hashes_bytes(b),
    ensures
        a == b,
{
    lemma_hashes_bytes(a);
    lemma_hashes_bytes(b);
    assert(a.len() == b.len());
    assert forall|i: int| 0 <= i < a.len() implies a[i] == b[i] by {
        assert(hashes_bytes(a).subrange(32 * i, 32 * i + 32) == a[i]@);
        assert(hashes_bytes(b).subrange(32 * i, 32 * i + 32) == b[i]@);
    }
    assert(a =~= b);
}

/// Layout of the wire encoding of a vertex with `n` parents
pub proof fn lemma_wire_layout(v: VertexView)
    ensures
        spec_wire(v).len() == 84 + 32 * v.parents.len(),
        spec_wire(v).subrange(0, 4) == le_bytes(v.version as nat, 4),
        spec_wire(v).subrange(4, 12) == le_bytes(v.height as nat, 8),
        spec_wire(v).subrange(12, 20) == le_bytes(v.parents.len(), 8),
        spec_wire(v).subrange(20, 20 + 32 * (v.parents.len() as int)) == hashes_bytes(v.parents),
        spec_wire(v).subrange(20 + 32 * (v.parents.len() as int), 52 + 32 * (v.parents.len() as int))
            == v.namespace_id@,
        spec_wire(v).subrange(52 + 32 * (v.parents.len() as int), 84 + 32 * (v.parents.len() as int)) == v.root@,
{
    lemma_le_bytes_len(v.version as nat, 4);
    lemma_le_bytes_len(v.height as nat, 8);
    lemma_le_bytes_len(v.parents.len(), 8);
    lemma_hashes_bytes(v.parents);
    let n = v.parents.len() as int;
    let s = spec_wire(v);
    let a = le_bytes(v.version as nat, 4);
    let b = le_bytes(v.height as nat, 8);
    let c = le_bytes(v.parents.len(), 8);
    let d = hashes_bytes(v.parents);
    assert(s == a + b + c + d + v.namespace_id@ + v.root@);
    assert(s.subrange(0, 4) =~= a);
    assert(s.subrange(4, 12) =~= b);
    assert(s.subrange(12, 20) =~= c);
    assert(s.subrange(20, 20 + 32 * n) =~= d);
    assert(s.subrange(20 + 32 * n, 52 + 32 * n) =~= v.namespace_id@);
    assert(s.subrange(52 + 32 * n, 84 + 32 * n) =~= v.root@);
}

/// Vertices with the same wire encoding agree on everything but the time they were observed: the
/// encoding is unambiguous
pub proof fn lemma_wire_injective(v1: VertexView, v2: VertexView)
    requires
        spec_wire(v1) == spec_wire(v2),
        spec_wire(v1).len() < 0x1_0000_0000_0000_0000,
    ensures
        v1 == (VertexView { timestamp: v1.timestamp, ..v2 }),
{
    lemma_wire_layout(v1);
    lemma_wire_layout(v2);
    lemma_byte_bounds();
    let s = spec_wire(v1);
    lemma_le_value_of_bytes(v1.version as nat, 4);
    lemma_le_value_of_bytes(v2.version as nat, 4);
    lemma_le_value_of_bytes(v1.height as nat, 8);
    lemma_le_value_of_bytes(v2.height as nat, 8);
    lemma_le_value_of_bytes(v1.parents.len(), 8);
    lemma_le_value_of_bytes(v2.parents.len(), 8);
    assert(v1.version == v2.version);
    assert(v1.height == v2.height);
    assert(v1.parents.len() == v2.parents.len());
    lemma_hashes_bytes_injective(v1.parents, v2.parents);
    assert(v1.namespace_id@ == v2.namespace_id@);
    assert(v1.root@ == v2.root@);
}

/// Bytes hold at least one value
proof fn lemma_bound_pos(a: nat)
    ensures
        byte_bound(a) >= 1,
    decreases a,
{
    if a > 0 {
        lemma_bound_pos((a - 1) as nat);
    }
}

/// More bytes hold more values
proof fn lemma_bound_mono(a: nat, b: nat)
    requires
        a <= b,
    ensures
        1 <= byte_bound(a) <= byte_bound(b),
    decreases b,
{
    lemma_bound_pos(a);
    if a < b {
        lemma_bound_mono(a, (b - 1) as nat);
    }
}

/// Number held by `width` little-endian bytes of `bytes`, from `start`
pub(crate) fn read_le(bytes: &[u8], start: usize, width: usize) -> (r: u64)
    requires
        start + width <= bytes@.len(),
        width <= 8,
    ensures
        r == le_value(bytes@.subrange(start as int, start + width)),
{
    proof {
        lemma_byte_bounds();
    }
    let blen = bytes.len();
    let mut val: u64 = 0;
    let mut i: usize = width;
    assert(bytes@.subrange(start + width, start + width) =~= Seq::<u8>::empty());
    while i > 0
        invariant
            blen == bytes@.len(),
            i <= width <= 8,
            start + width <= bytes@.len(),
            val == le_value(bytes@.subrange(start + i, start + width)),
            val < byte_bound((width - i) as nat),
            byte_bound(7) == 0x100_0000_0000_0000,
        decreases i,
    {
        let ghost s = bytes@.subrange(start + i - 1, start + width);
        assert(s.drop_first() =~= bytes@.subrange(start + i, start + width));
        let ghost prev = val;
        let ghost bw = byte_bound((width - i) as nat);
        proof {
            lemma_bound_mono((width - i) as nat, 7);
        }
        let b = bytes[start + i - 1];
        assert(s[0] == b);
        assert(prev * 256 + b < 0x1_0000_0000_0000_0000) by (nonlinear_arith)
            requires
                prev < 0x100_0000_0000_0000,
                b < 256,
        ;
        val = val * 256 + b as u64;
        assert(val < 256 * bw) by (nonlinear_arith)
            requires
                val == prev * 256 + b,
                prev < bw,
                b < 256,
        ;
        assert(byte_bound((width - i + 1) as nat) == 256 * bw);
        i -= 1;
    }
    val
}

/// The hash held by the 32 bytes of `bytes` from `start`
pub(crate) fn read_hash(bytes: &[u8], start: usize) -> (h: VertexHash)
    requires
        start + 32 <= bytes@.len(),
    ensures
        h@ == bytes@.subrange(start as int, start + 32),
{
    let blen = bytes.len();
    let mut out = [0u8; 32];
    let mut i: usize = 0;
    while i < 32
        invariant
            blen == bytes@.len(),
            i <= 32,
            start + 32 <= bytes@.len(),
            forall|j: int| 0 <= j < i ==> out[j] == bytes@[start + j],
        decreases 32 - i,
    {
        out[i] = bytes[start + i];
        i += 1;
    }
    let h = VertexHash::with_bytes(out);
    assert(h@ =~= bytes@.subrange(start as int, start + 32));
    h
}

impl Vertex {
    /// Read a vertex back from its wire encoding, observed now, optionally performing the sanity
    /// checks. Fails with [`Error::Decode`] exactly when the bytes encode no vertex.
    pub fn from_wire(bytes: &[u8], check: bool) -> (r: Result<Vertex, Error>)
        ensures
            match r {
                Ok(vx) => spec_wire(vx@) == bytes@ && (check ==> vx@.sane()),
                Err(Error::Decode) => forall|v: VertexView| spec_wire(v) != bytes@,
                Err(e) => check && spec_wire(decoded(bytes@)) == bytes@ && !decoded(bytes@).sane()
                    && decoded(bytes@).sanity_error(e),
            },
    {
        let len = bytes.len();
        proof {
            lemma_byte_bounds();
            lemma_no_encoding(bytes@);
        }
        if len < 84 {
            return Err(Error::Decode);
        }
        let version = read_le(bytes, 0, 4);
        let height = read_le(bytes, 4, 8);
        let n = read_le(bytes, 12, 8);
        let body = len - 84;
        if body % 32 != 0 || (body / 32) as u64 != n {
            return Err(Error::Decode);
        }
        proof {
            lemma_bytes_of_le_value(bytes@.subrange(0, 4));
            lemma_bytes_of_le_value(bytes@.subrange(4, 12));
            lemma_bytes_of_le_value(bytes@.subrange(12, 20));
        }
        let count = body / 32;
        let mut parents: Vec<VertexHash> = Vec::new();
        let mut i: usize = 0;
        while i < count
            invariant
                i <= count,
                len == bytes@.len(),
                body == len - 84,
                count == body / 32,
                body % 32 == 0,
                parents@.len() == i,
                hashes_bytes(parents@) == bytes@.subrange(20, 20 + 32 * i),
            decreases count - i,
        {
            let h = read_hash(bytes, 20 + 32 * i);
            let ghost before = parents@;
            parents.push(h);
            assert(parents@.drop_last() =~= before);
            assert(bytes@.subrange(20, 20 + 32 * (i + 1)) =~= bytes@.subrange(20, 20 + 32 * i)
                + bytes@.subrange(20 + 32 * i, 20 + 32 * i + 32));
            i += 1;
        }
        let namespace_id = read_hash(bytes, len - 64);
        let root = read_hash(bytes, len - 32);
        let vx = Vertex {
            version: version as u32,
            height,
            parents,
            namespace_id,
            root,
            timestamp: now_micros(),
        };
        proof {
            let v = vx@;
            lemma_wire_layout(v);
            assert(spec_wire(v) =~= bytes@.subrange(0, 4) + bytes@.subrange(4, 12)
                + bytes@.subrange(12, 20) + bytes@.subrange(20, len - 64)
                + bytes@.subrange(len - 64, len - 32) + bytes@.subrange(len - 32, len as int));
            assert(bytes@ =~= bytes@.subrange(0, 4) + bytes@.subrange(4, 12)
                + bytes@.subrange(12, 20) + bytes@.subrange(20, len - 64)
                + bytes@.subrange(len - 64, len - 32) + bytes@.subrange(len - 32, len as int));
            lemma_wire_injective(v, decoded(bytes@));
        }
        if check {
            match vx.sanity_checks() {
                Ok(()) => {},
                Err(e) => {
                    return Err(e);
                },
            }
        }
        Ok(vx)
    }
}

/// The vertex that bytes encode, if they encode one
pub open spec fn decoded(bytes: Seq<u8>) -> VertexView {
    choose|v: VertexView| spec_wire(v) == bytes
}

/// Bytes too short for a header, or whose length disagrees with the number of parents in the
/// header, encode no vertex
proof fn lemma_no_encoding(bytes: Seq<u8>)
    requires
        bytes.len() < 0x1_0000_0000_0000_0000,
    ensures
        (bytes.len() < 84 || (bytes.len() - 84) % 32 != 0 || (bytes.len() - 84) / 32 != le_value(
            bytes.subrange(12, 20),
        )) ==> forall|v: VertexView| spec_wire(v) != bytes,
{
    assert forall|v: VertexView| spec_wire(v) == bytes implies bytes.len() >= 84 && (bytes.len()
        - 84) % 32 == 0 && (bytes.len() - 84) / 32 == le_value(bytes.subrange(12, 20)) by {
        lemma_wire_layout(v);
        lemma_byte_bounds();
        lemma_le_value_of_bytes(v.parents.len(), 8);
        let n = v.parents.len() as int;
        assert((32 * n) % 32 == 0 && (32 * n) / 32 == n) by (nonlinear_arith);
    }
}

/// Reading back the encoding of a vertex gives the vertex, but for the time it was observed
pub proof fn lemma_decoded_encoding(v: VertexView)
    requires
        spec_wire(v).len() < 0x1_0000_0000_0000_0000,
    ensures
        spec_wire(decoded(spec_wire(v))) == spec_wire(v),
        decoded(spec_wire(v)) == (VertexView { timestamp: decoded(spec_wire(v)).timestamp, ..v }),
{
    let w = decoded(spec_wire(v));
    assert(spec_wire(w) == spec_wire(v));
    lemma_wire_injective(w, v);
}

} // verus!
