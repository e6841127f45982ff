use vstd::prelude::*;

verus! {

/// The kind of sequence that owns an interval tree.
#[derive(Clone, Copy, Debug, PartialEq, Eq, Structural)]
pub enum ContainerKind {
    /// A buffer: its first position is 1.
    Buffer,
    /// A string: its first position is 0.
    Text,
    /// Anything else: its first position is 0.
    Other,
}

/// What a root node knows of the sequence that owns its tree.
#[derive(Clone, Copy, Debug, PartialEq, Eq, Structural)]
pub struct Container {
    pub kind: ContainerKind,
    /// Number of unit positions in the sequence.
    pub length: usize,
}

impl Container {
    /// The first position of the sequence.
    pub open spec fn begin(self) -> nat {
        match self.kind {
            ContainerKind::Buffer => 1,
            _ => 0,
        }
    }

    /// A container of the given kind and length.
    pub fn new(kind: ContainerKind, length: usize) -> (c: Container)
        ensures
            c.kind == kind,
            c.length == length,
    {
        Container { kind, length }
    }

    /// The first position of the sequence: 1 for a buffer, 0 otherwise.
    pub fn begin_offset(&self) -> (b: usize)
        ensures
            b == self.begin(),
    {
        match self.kind {
            ContainerKind::Buffer => 1,
            _ => 0,
        }
    }

    /// The current length of the sequence.
    pub fn length(&self) -> (n: usize)
        ensures
            n == self.length,
    {
        self.length
    }

    /// Whether the container is a buffer.
    pub fn is_buffer(&self) -> (b: bool)
        ensures
            b == (self.kind == ContainerKind::Buffer),
    {
        match self.kind {
            ContainerKind::Buffer => true,
            _ => false,
        }
    }
}

} // verus!
