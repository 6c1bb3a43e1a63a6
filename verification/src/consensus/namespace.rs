use crate::hash::{blake3_digest, blake3_hash};
use vstd::prelude::*;
use vstd::utf8::encode_utf8;

verus! {

/// Unique identifier for a [`Namespace`]
pub type NamespaceId = crate::hash::Hash;

/// Identifier of the default, unnamed [`Namespace`]: the BLAKE3 digest of the empty string
pub fn nullspace_id() -> (id: NamespaceId)
    ensures
        id@ == seq![
            175u8, 19, 73, 185, 245, 249, 161, 166, 160, 64, 77, 234, 54, 220, 201, 73, 155, 203,
            37, 201, 173, 193, 18, 183, 204, 154, 147, 202, 228, 31, 50, 98,
        ],
{
    let bytes: [u8; 32] = [
        175, 19, 73, 185, 245, 249, 161, 166, 160, 64, 77, 234, 54, 220, 201, 73, 155, 203, 37, 201,
        173, 193, 18, 183, 204, 154, 147, 202, 228, 31, 50, 98,
    ];
    let id = crate::hash::Hash::with_bytes(bytes);
    assert(id@ =~= seq![
        175u8, 19, 73, 185, 245, 249, 161, 166, 160, 64, 77, 234, 54, 220, 201, 73, 155, 203,
        37, 201, 173, 193, 18, 183, 204, 154, 147, 202, 228, 31, 50, 98,
    ]);
    id
}

/// Event namespace
#[derive(Clone, Debug)]
pub struct Namespace(String);

impl View for Namespace {
    type V = Seq<char>;

    closed spec fn view(&self) -> Seq<char> {
        self.0@
    }
}

impl Default for Namespace {
    fn default() -> (ns: Namespace)
        ensures
            ns@ == Seq::<char>::empty(),
    {
        Namespace(String::new())
    }
}

impl Namespace {
    /// Create a new [`Namespace`] instance
    pub fn new(name: &str) -> (ns: Namespace)
        ensures
            ns@ == name@,
    {
        Namespace(name.to_owned())
    }

    /// Compute the [`NamespaceId`] for the given [`Namespace`]: the BLAKE3 digest of its UTF-8
    /// bytes
    pub fn id(&self) -> (id: NamespaceId)
        ensures
            id@ == blake3_hash(encode_utf8(self@)),
    {
        blake3_digest(self.0.as_str().as_bytes())
    }
}

} // verus!
