//! Vertices are identified by a byte-string name. The name also classifies
//! the vertex: a name without ASCII uppercase letters marks a small cave,
//! any other name a big cave.

use vstd::prelude::*;

verus! {

/// A node identifier in the graph. Two vertices denote the same node exactly
/// when their names are equal byte for byte.
pub struct Vertex {
    pub name: Vec<u8>,
}

impl View for Vertex {
    type V = Seq<u8>;

    open spec fn view(&self) -> Seq<u8> {
        self.name@
    }
}

/// An ASCII uppercase letter, `A` through `Z`.
pub open spec fn is_ascii_uppercase(b: u8) -> bool {
    65 <= b <= 90
}

/// A name classifies as small when it contains no ASCII uppercase letter.
pub open spec fn spec_is_small(name: Seq<u8>) -> bool {
    forall|i: int| 0 <= i < name.len() ==> !is_ascii_uppercase(#[trigger] name[i])
}

/// A name classifies as big exactly when it is not small.
pub open spec fn spec_is_big(name: Seq<u8>) -> bool {
    !spec_is_small(name)
}

impl Vertex {
    pub fn new(name: Vec<u8>) -> (v: Vertex)
        ensures
            v@ == name@,
    {
        Vertex { name }
    }

    /// A small cave: the name holds no ASCII uppercase letter.
    pub fn is_small_cave(&self) -> (r: bool)
        ensures
            r == spec_is_small(self@),
    {
        let n = self.name.len();
        for i in 0..n
            invariant
                n == self.name.len(),
                forall|j: int| 0 <= j < i ==> !is_ascii_uppercase(#[trigger] self.name@[j]),
        {
            let b = self.name[i];
            if 65 <= b && b <= 90 {
                return false;
            }
        }
        true
    }

    /// A big cave: the complement of a small cave, for every vertex.
    pub fn is_big_cave(&self) -> (r: bool)
        ensures
            r == spec_is_big(self@),
    {
        !self.is_small_cave()
    }

    /// Name equality, byte for byte.
    pub fn equals(&self, other: &Vertex) -> (r: bool)
        ensures
            r == (self@ == other@),
    {
        if self.name.len() != other.name.len() {
            return false;
        }
        let n = self.name.len();
        for i in 0..n
            invariant
                n == self.name.len(),
                n == other.name.len(),
                forall|j: int| 0 <= j < i ==> self.name@[j] == other.name@[j],
        {
            if self.name[i] != other.name[i] {
                return false;
            }
        }
        proof {
            assert(self@ =~= other@);
        }
        true
    }
}

impl Clone for Vertex {
    fn clone(&self) -> (v: Vertex)
        ensures
            v@ == self@,
    {
        let mut name: Vec<u8> = Vec::new();
        let n = self.name.len();
        for i in 0..n
            invariant
                n == self.name.len(),
                name@ == self.name@.take(i as int),
        {
            name.push(self.name[i]);
            proof {
                assert(name@ =~= self.name@.take(i + 1));
            }
        }
        proof {
            assert(self.name@.take(n as int) =~= self.name@);
        }
        Vertex { name }
    }
}

} // verus!
