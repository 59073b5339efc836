//! A selection range of a document: an anchor and a head, both character offsets.
use vstd::prelude::*;

verus! {

#[derive(Clone, Copy, Debug, PartialEq, Eq, Structural)]
pub struct Range {
    pub anchor: usize,
    pub head: usize,
}

impl Range {
    pub open spec fn from_spec(&self) -> usize {
        if self.anchor <= self.head {
            self.anchor
        } else {
            self.head
        }
    }

    pub open spec fn to_spec(&self) -> usize {
        if self.anchor <= self.head {
            self.head
        } else {
            self.anchor
        }
    }

    pub fn new(anchor: usize, head: usize) -> (r: Range)
        ensures
            r.anchor == anchor,
            r.head == head,
    {
        Range { anchor, head }
    }

    /// The smaller end.
    pub fn from(&self) -> (r: usize)
        ensures
            r == self.from_spec(),
    {
        if self.anchor <= self.head {
            self.anchor
        } else {
            self.head
        }
    }

    /// The larger end.
    pub fn to(&self) -> (r: usize)
        ensures
            r == self.to_spec(),
    {
        if self.anchor <= self.head {
            self.head
        } else {
            self.anchor
        }
    }
}

} // verus!
