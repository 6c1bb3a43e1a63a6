//! Messages of the peer request protocol
use crate::consensus::vertex::{self, le_bytes, spec_wire, Vertex, VertexHash, VertexView};
use crate::consensus::wire::{
    decoded, lemma_byte_bounds, lemma_bytes_of_le_value, lemma_le_value_of_bytes,
    lemma_wire_injective, le_value, read_hash, read_le,
};
use std::sync::Arc;
use vstd::prelude::*;

verus! {

broadcast use crate::hash::lemma_hash_view;

/// Name of the peer request protocol
pub const PROTOCOL_NAME: &'static str = "/taurus_request/0.1.0";

/// Errors of the peer request protocol
#[derive(Debug, PartialEq, Eq)]
pub enum Error {
    Hash(crate::hash::Error),
    IncompleteResponse,
    IncompleteRequest,
    InvalidErrorCode(i32),
    Vertex(vertex::Error),
    /// The bytes do not hold a well-formed message
    Decode,
}

/// The peer request protocol
#[derive(Clone, Copy, Debug, Default)]
pub struct Protocol {}

impl Protocol {
    /// Name of the protocol
    pub fn name(&self) -> (r: &'static str)
        ensures
            r@ == PROTOCOL_NAME@,
    {
        PROTOCOL_NAME
    }
}

/// Message type defining the peer RPC request messages
#[derive(Debug, Clone, Copy, PartialEq, Eq)]
pub enum Request {
    GetVertex(VertexHash),
    GetPreference(VertexHash),
}

/// Error codes
#[derive(Debug, Clone, Copy, PartialEq, Eq, Structural)]
pub enum ErrorCode {
    Unknown,
    NotFound,
}

impl Default for ErrorCode {
    fn default() -> (r: ErrorCode)
        ensures
            r == ErrorCode::Unknown,
    {
        ErrorCode::Unknown
    }
}

/// Number of an error code on the wire
pub open spec fn code_number(c: ErrorCode) -> i32 {
    match c {
        ErrorCode::Unknown => 0,
        ErrorCode::NotFound => 1,
    }
}

impl<'a> From<&'a ErrorCode> for i32 {
    fn from(value: &'a ErrorCode) -> (r: i32) {
        match value {
            ErrorCode::Unknown => 0,
            ErrorCode::NotFound => 1,
        }
    }
}

impl<'a> vstd::std_specs::convert::FromSpecImpl<&'a ErrorCode> for i32 {
    open spec fn obeys_from_spec() -> bool {
        true
    }

    open spec fn from_spec(value: &'a ErrorCode) -> i32 {
        code_number(*value)
    }
}

impl ErrorCode {
    /// The error code with the given number on the wire
    pub fn from_number(value: i32) -> (r: Result<ErrorCode, Error>)
        ensures
            match r {
                Ok(c) => code_number(c) == value,
                Err(e) => e == Error::InvalidErrorCode(value) && value != 0 && value != 1,
            },
    {
        match value {
            0 => Ok(ErrorCode::Unknown),
            1 => Ok(ErrorCode::NotFound),
            _ => Err(Error::InvalidErrorCode(value)),
        }
    }

    /// Number of the error code on the wire
    pub fn number(&self) -> (r: i32)
        ensures
            r == code_number(*self),
    {
        match self {
            ErrorCode::Unknown => 0,
            ErrorCode::NotFound => 1,
        }
    }
}

/// Message type defining the peer RPC response messages
#[derive(Debug, Clone)]
pub enum Response {
    Error(ErrorCode),
    Vertex(Arc<Vertex>),
    Preference(bool),
}

/// Different error codes have different numbers
pub proof fn lemma_code_number_injective(a: ErrorCode, b: ErrorCode)
    ensures
        code_number(a) == code_number(b) <==> a == b,
        0 <= code_number(a) <= 1,
{
}

/// Wire encoding of a request: a tag byte (0 to get a vertex, 1 to get a preference), then the
/// bytes of the hash
pub open spec fn request_wire(r: Request) -> Seq<u8> {
    match r {
        Request::GetVertex(h) => seq![0u8] + h@,
        Request::GetPreference(h) => seq![1u8] + h@,
    }
}

/// The error that refuses bytes holding no request: no known tag, or no hash after it
pub open spec fn request_refusal(bytes: Seq<u8>, e: Error) -> bool {
    if bytes.len() == 0 || bytes[0] > 1 {
        e == Error::IncompleteRequest
    } else {
        bytes.len() != 33 && e == Error::Hash(crate::hash::Error::TryFromSlice)
    }
}

/// Different requests have different encodings
pub proof fn lemma_request_wire_injective(a: Request, b: Request)
    ensures
        request_wire(a) == request_wire(b) <==> a == b,
{
    if request_wire(a) == request_wire(b) {
        let (ha, hb) = match (a, b) {
            (Request::GetVertex(x), Request::GetVertex(y)) => (x, y),
            (Request::GetVertex(x), Request::GetPreference(y)) => (x, y),
            (Request::GetPreference(x), Request::GetVertex(y)) => (x, y),
            (Request::GetPreference(x), Request::GetPreference(y)) => (x, y),
        };
        assert(request_wire(a)[0] == request_wire(b)[0]);
        assert(request_wire(a).drop_first() =~= ha@);
        assert(request_wire(b).drop_first() =~= hb@);
        crate::hash::lemma_hash_view(ha, hb);
    }
}

impl Request {
    /// Wire encoding of the request
    pub fn to_wire(&self) -> (b: Vec<u8>)
        ensures
            b@ == request_wire(*self),
    {
        let (tag, h) = match self {
            Request::GetVertex(h) => (0u8, h),
            Request::GetPreference(h) => (1u8, h),
        };
        let mut out: Vec<u8> = Vec::new();
        out.push(tag);
        let bytes = h.as_slice();
        let mut i: usize = 0;
        while i < 32
            invariant
                i <= 32,
                bytes@ == h@,
                bytes@.len() == 32,
                out@ == seq![tag] + h@.take(i as int),
            decreases 32 - i,
        {
            out.push(bytes[i]);
            i += 1;
            assert(out@ =~= seq![tag] + h@.take(i as int));
        }
        assert(h@.take(32) =~= h@);
        out
    }

    /// Read a request back from its wire encoding
    pub fn from_wire(bytes: &[u8]) -> (r: Result<Request, Error>)
        ensures
            match r {
                Ok(q) => request_wire(q) == bytes@,
                Err(e) => request_refusal(bytes@, e) && forall|q: Request| request_wire(q) != bytes@,
            },
    {
        proof {
            assert forall|q: Request| #[trigger] request_wire(q).len() == 33 && request_wire(q)[0] <= 1 by {
                match q {
                    Request::GetVertex(h) => assert(h@.len() == 32),
                    Request::GetPreference(h) => assert(h@.len() == 32),
                }
            }
        }
        if bytes.len() == 0 || bytes[0] > 1 {
            return Err(Error::IncompleteRequest);
        }
        if bytes.len() != 33 {
            return Err(Error::Hash(crate::hash::Error::TryFromSlice));
        }
        let h = read_hash(bytes, 1);
        assert(bytes@ =~= seq![bytes@[0]] + h@);
        if bytes[0] == 0 {
            Ok(Request::GetVertex(h))
        } else {
            Ok(Request::GetPreference(h))
        }
    }
}

/// Number of an error code in a response: the two's complement reading of four little-endian
/// bytes
pub open spec fn code_of_bytes(b: Seq<u8>) -> i32 {
    (le_value(b) as u32) as i32
}

/// Wire encoding of a response: a tag byte (0 for an error, 1 for a vertex, 2 for a
/// preference), then the number of the error code in four little-endian bytes, the wire encoding
/// of the vertex, or one byte for the preference
pub open spec fn response_wire(r: Response) -> Seq<u8> {
    match r {
        Response::Error(c) => seq![0u8] + le_bytes(code_number(c) as nat, 4),
        Response::Vertex(v) => seq![1u8] + spec_wire(v@),
        Response::Preference(b) => seq![
            2u8,
            if b {
                1u8
            } else {
                0u8
            },
        ],
    }
}

/// The error that refuses bytes holding no response
pub open spec fn response_refusal(bytes: Seq<u8>, check: bool, e: Error) -> bool {
    if bytes.len() == 0 || bytes[0] > 2 {
        e == Error::IncompleteResponse
    } else if bytes[0] == 0 {
        if bytes.len() != 5 {
            e == Error::Decode
        } else {
            let n = code_of_bytes(bytes.subrange(1, 5));
            n != 0 && n != 1 && e == Error::InvalidErrorCode(n)
        }
    } else if bytes[0] == 1 {
        let rest = bytes.drop_first();
        e matches Error::Vertex(ve) && if ve == vertex::Error::Decode {
            forall|v: VertexView| spec_wire(v) != rest
        } else {
            check && spec_wire(decoded(rest)) == rest && !decoded(rest).sane()
                && decoded(rest).sanity_error(ve)
        }
    } else {
        (bytes.len() != 2 || bytes[1] > 1) && e == Error::Decode
    }
}

impl Response {
    /// Wire encoding of the response, optionally performing the sanity checks of a vertex first
    pub fn to_wire(&self, check: bool) -> (r: Result<Vec<u8>, Error>)
        ensures
            match r {
                Ok(b) => b@ == response_wire(*self) && match self {
                    Response::Vertex(v) => check ==> v@.sane(),
                    _ => true,
                },
                Err(e) => match self {
                    Response::Vertex(v) => check && !v@.sane() && (e matches Error::Vertex(ve)
                        && v@.sanity_error(ve)),
                    _ => false,
                },
            },
    {
        let mut out: Vec<u8> = Vec::new();
        match self {
            Response::Error(code) => {
                out.push(0u8);
                let n = code.number();
                let b: u8 = if n == 0 {
                    0
                } else {
                    1
                };
                out.push(b);
                out.push(0u8);
                out.push(0u8);
                out.push(0u8);
                proof {
                    reveal_with_fuel(le_bytes, 5);
                    assert(out@ =~= response_wire(*self));
                }
            },
            Response::Vertex(vx) => {
                let bytes = match vx.to_wire(check) {
                    Ok(b) => b,
                    Err(e) => {
                        return Err(Error::Vertex(e));
                    },
                };
                out.push(1u8);
                let mut i: usize = 0;
                while i < bytes.len()
                    invariant
                        i <= bytes@.len(),
                        out@ == seq![1u8] + bytes@.take(i as int),
                    decreases bytes@.len() - i,
                {
                    out.push(bytes[i]);
                    i += 1;
                    assert(out@ =~= seq![1u8] + bytes@.take(i as int));
                }
                assert(bytes@.take(bytes@.len() as int) =~= bytes@);
            },
            Response::Preference(p) => {
                out.push(2u8);
                out.push(
                    if *p {
                        1u8
                    } else {
                        0u8
                    },
                );
                assert(out@ =~= response_wire(*self));
            },
        }
        Ok(out)
    }

    /// Read a response back from its wire encoding, optionally performing the sanity checks of a
    /// vertex
    pub fn from_wire(bytes: &[u8], check: bool) -> (r: Result<Response, Error>)
        ensures
            match r {
                Ok(resp) => response_wire(resp) == bytes@ && match resp {
                    Response::Vertex(v) => check ==> v@.sane(),
                    _ => true,
                },
                Err(e) => response_refusal(bytes@, check, e),
            },
    {
        let len = bytes.len();
        if len == 0 || bytes[0] > 2 {
            return Err(Error::IncompleteResponse);
        }
        if bytes[0] == 0 {
            if len != 5 {
                return Err(Error::Decode);
            }
            let u = read_le(bytes, 1, 4);
            proof {
                lemma_byte_bounds();
                lemma_bytes_of_le_value(bytes@.subrange(1, 5));
            }
            let n = (u as u32) as i32;
            match ErrorCode::from_number(n) {
                Ok(c) => {
                    proof {
                        assert(u < 0x1_0000_0000);
                        assert(n == 0 || n == 1);
                        assert((u as u32) as i32 == u) by (bit_vector)
                            requires
                                u < 0x1_0000_0000u64,
                                (u as u32) as i32 == 0i32 || (u as u32) as i32 == 1i32,
                        ;
                        assert(le_bytes(code_number(c) as nat, 4) == bytes@.subrange(1, 5));
                        assert(bytes@ =~= seq![0u8] + bytes@.subrange(1, 5));
                    }
                    Ok(Response::Error(c))
                },
                Err(e) => Err(e),
            }
        } else if bytes[0] == 1 {
            let mut rest: Vec<u8> = Vec::new();
            let mut i: usize = 1;
            while i < len
                invariant
                    1 <= i <= len,
                    len == bytes@.len(),
                    rest@ == bytes@.subrange(1, i as int),
                decreases len - i,
            {
                rest.push(bytes[i]);
                i += 1;
                assert(rest@ =~= bytes@.subrange(1, i as int));
            }
            assert(rest@ =~= bytes@.drop_first());
            match Vertex::from_wire(rest.as_slice(), check) {
                Ok(vx) => {
                    assert(bytes@ =~= seq![1u8] + rest@);
                    Ok(Response::Vertex(Arc::new(vx)))
                },
                Err(e) => Err(Error::Vertex(e)),
            }
        } else {
            if len != 2 || bytes[1] > 1 {
                return Err(Error::Decode);
            }
            assert(bytes@ =~= seq![2u8, bytes@[1]]);
            Ok(Response::Preference(bytes[1] == 1))
        }
    }
}

/// Responses with the same encoding are the same, but for the time a vertex was observed
pub proof fn lemma_response_wire_injective(a: Response, b: Response)
    requires
        response_wire(a) == response_wire(b),
        response_wire(a).len() < 0x1_0000_0000_0000_0000,
    ensures
        match (a, b) {
            (Response::Error(x), Response::Error(y)) => x == y,
            (Response::Preference(x), Response::Preference(y)) => x == y,
            (Response::Vertex(x), Response::Vertex(y)) => x@ == (VertexView {
                timestamp: x@.timestamp,
                ..y@
            }),
            _ => false,
        },
{
    let s = response_wire(a);
    assert(s[0] == response_wire(b)[0]);
    match (a, b) {
        (Response::Error(x), Response::Error(y)) => {
            lemma_byte_bounds();
            lemma_code_number_injective(x, y);
            assert(s.drop_first() =~= le_bytes(code_number(x) as nat, 4));
            assert(response_wire(b).drop_first() =~= le_bytes(code_number(y) as nat, 4));
            lemma_le_value_of_bytes(code_number(x) as nat, 4);
            lemma_le_value_of_bytes(code_number(y) as nat, 4);
        },
        (Response::Preference(x), Response::Preference(y)) => {
            assert(s[1] == response_wire(b)[1]);
        },
        (Response::Vertex(x), Response::Vertex(y)) => {
            assert(s.drop_first() =~= spec_wire(x@));
            assert(response_wire(b).drop_first() =~= spec_wire(y@));
            lemma_wire_injective(x@, y@);
        },
        _ => {},
    }
}

} // verus!
