use vstd::prelude::*;

verus! {

/// Type alias for transaction hashes
pub type TxHash = crate::hash::Hash;

/// Type alias for txo hashes
pub type TxoHash = crate::hash::Hash;

/// Root hash of the transactions contained in a vertex
pub type TxRoot = crate::hash::Hash;

/// Transaction output object
#[derive(Debug, Clone, Copy, Default, PartialEq, Eq, Structural, Hash)]
pub struct Txo {
    value: u64,
}

impl Txo {
    /// A transaction output of the given value
    pub fn new(value: u64) -> (t: Txo)
        ensures
            t.spec_value() == value,
    {
        Txo { value }
    }

    pub closed spec fn spec_value(&self) -> u64 {
        self.value
    }

    /// Value of this output
    pub fn value(&self) -> (v: u64)
        ensures
            v == self.spec_value(),
    {
        self.value
    }
}

/// A transaction, spending a list of transaction outputs
#[derive(Clone, Debug, Default, PartialEq, Eq)]
pub struct Transaction {
    inputs: Vec<Txo>,
}

impl View for Transaction {
    type V = Seq<Txo>;

    closed spec fn view(&self) -> Seq<Txo> {
        self.inputs@
    }
}

impl Transaction {
    /// A transaction spending the given outputs
    pub fn new(inputs: Vec<Txo>) -> (t: Transaction)
        ensures
            t@ == inputs@,
    {
        Transaction { inputs }
    }

    /// Outputs spent by this transaction
    pub fn inputs(&self) -> (r: &Vec<Txo>)
        ensures
            r@ == self@,
    {
        &self.inputs
    }
}

} // verus!
