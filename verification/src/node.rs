//! A node of the code tree: a branch joining two subtrees, or a leaf
//! holding one symbol.

use vstd::prelude::*;

use crate::code::HuffmanCode;
use crate::error::HuffcodeError;
use crate::error::NOT_FOUND;
use crate::error::STREAM_EXHAUSTED;

verus! {

/// A binary code-tree node. A bit path selects a leaf: `true` routes into
/// the left child of a branch, `false` into the right child.
#[derive(Debug, PartialEq, Eq, Hash)]
pub enum Node {
    Branch(Box<Node>, Box<Node>),
    Leaf(char),
}

impl Node {
    /// Some leaf of this subtree holds `ch`.
    pub open spec fn contains(self, ch: char) -> bool
        decreases self,
    {
        match self {
            Node::Branch(l, r) => l.contains(ch) || r.contains(ch),
            Node::Leaf(c) => c == ch,
        }
    }

    /// The bit path from this node to the first leaf holding `ch`: at a
    /// branch, `true` and the left path when the left subtree holds `ch`,
    /// else `false` and the right path; empty at a leaf.
    pub open spec fn path_of(self, ch: char) -> Seq<bool>
        decreases self,
    {
        match self {
            Node::Branch(l, r) => if l.contains(ch) {
                seq![true] + l.path_of(ch)
            } else {
                seq![false] + r.path_of(ch)
            },
            Node::Leaf(c) => Seq::empty(),
        }
    }

    /// The result of walking from this node by the bits of `bits` starting
    /// at `pos`: the symbol of the leaf reached and the position one past
    /// the last bit consumed, or `None` when the bits run out at a branch.
    pub open spec fn walk(self, bits: Seq<bool>, pos: nat) -> Option<(char, nat)>
        decreases self,
    {
        match self {
            Node::Leaf(c) => Some((c, pos)),
            Node::Branch(l, r) => if pos >= bits.len() {
                None
            } else if bits[pos as int] {
                l.walk(bits, pos + 1)
            } else {
                r.walk(bits, pos + 1)
            },
        }
    }

    /// Get the sequence of steps that arrives at `ch`, or `NOT_FOUND` when
    /// no leaf of this subtree holds it.
    pub fn get(&self, ch: char) -> (r: Result<Vec<bool>, HuffcodeError>)
        ensures
            self.contains(ch) ==> (r matches Ok(v) && v@ == self.path_of(ch)),
            !self.contains(ch) ==> r == Err::<Vec<bool>, HuffcodeError>(
                HuffcodeError(NOT_FOUND),
            ),
        decreases self,
    {
        match self {
            Node::Branch(l, r) => {
                match l.get(ch) {
                    Ok(sub) => {
                        let mut v: Vec<bool> = Vec::new();
                        v.push(true);
                        let mut rest = sub;
                        v.append(&mut rest);
                        proof {
                            assert(v@ =~= self.path_of(ch));
                        }
                        Ok(v)
                    },
                    Err(_) => match r.get(ch) {
                        Ok(sub) => {
                            let mut v: Vec<bool> = Vec::new();
                            v.push(false);
                            let mut rest = sub;
                            v.append(&mut rest);
                            proof {
                                assert(v@ =~= self.path_of(ch));
                            }
                            Ok(v)
                        },
                        Err(_) => Err(HuffcodeError(NOT_FOUND)),
                    },
                }
            },
            Node::Leaf(c) => if *c == ch {
                Ok(Vec::new())
            } else {
                Err(HuffcodeError(NOT_FOUND))
            },
        }
    }

    /// Follow bits from the stream toward a leaf and return its symbol,
    /// consuming one bit per branch; propagate `STREAM_EXHAUSTED` when the
    /// stream runs out before a leaf is reached.
    pub fn traverse(&self, code: &mut HuffmanCode) -> (r: Result<char, HuffcodeError>)
        requires
            old(code).wf(),
        ensures
            final(code).wf(),
            final(code).bits() == old(code).bits(),
            final(code).pos >= old(code).pos,
            match self.walk(old(code).bits(), old(code).pos as nat) {
                Some((c, p)) => r == Ok::<char, HuffcodeError>(c) && final(code).pos == p,
                None => r == Err::<char, HuffcodeError>(HuffcodeError(STREAM_EXHAUSTED))
                    && final(code).pos == final(code).bits().len(),
            },
        decreases self,
    {
        match self {
            Node::Branch(l, r) => {
                match code.next() {
                    Ok(b) => if b {
                        l.traverse(code)
                    } else {
                        r.traverse(code)
                    },
                    Err(e) => Err(e),
                }
            },
            Node::Leaf(c) => Ok(*c),
        }
    }
}

/// A successful walk never retreats, never passes the end of the bits, and
/// consumes at least one bit when it starts at a branch.
pub proof fn lemma_walk_pos(n: Node, bits: Seq<bool>, pos: nat, c: char, p: nat)
    requires
        pos <= bits.len(),
        n.walk(bits, pos) == Some((c, p)),
    ensures
        pos <= p <= bits.len(),
        n is Branch ==> pos < p,
    decreases n,
{
    match n {
        Node::Leaf(_) => {},
        Node::Branch(l, r) => {
            if bits[pos as int] {
                lemma_walk_pos(*l, bits, pos + 1, c, p);
            } else {
                lemma_walk_pos(*r, bits, pos + 1, c, p);
            }
        },
    }
}

/// Walking a stream that continues with the path of `ch` arrives at `ch`
/// and consumes exactly that path.
pub proof fn lemma_walk_path(n: Node, ch: char, bits: Seq<bool>, pos: nat)
    requires
        n.contains(ch),
        pos + n.path_of(ch).len() <= bits.len(),
        bits.subrange(pos as int, pos + n.path_of(ch).len() as int) == n.path_of(ch),
    ensures
        n.walk(bits, pos) == Some((ch, (pos + n.path_of(ch).len()) as nat)),
    decreases n,
{
    match n {
        Node::Leaf(_) => {},
        Node::Branch(l, r) => {
            let path = n.path_of(ch);
            assert(bits[pos as int] == bits.subrange(pos as int, pos + path.len() as int)[0]);
            if l.contains(ch) {
                let sub = l.path_of(ch);
                assert forall|i: int| 0 <= i < sub.len() implies bits[pos + 1 + i] == sub[i] by {
                    assert(path[i + 1] == sub[i]);
                    assert(bits.subrange(pos as int, pos + path.len() as int)[i + 1] == bits[pos
                        + 1 + i]);
                }
                assert(bits.subrange(pos as int + 1, pos + 1 + sub.len() as int) =~= sub);
                lemma_walk_path(*l, ch, bits, pos + 1);
            } else {
                let sub = r.path_of(ch);
                assert forall|i: int| 0 <= i < sub.len() implies bits[pos + 1 + i] == sub[i] by {
                    assert(path[i + 1] == sub[i]);
                    assert(bits.subrange(pos as int, pos + path.len() as int)[i + 1] == bits[pos
                        + 1 + i]);
                }
                assert(bits.subrange(pos as int + 1, pos + 1 + sub.len() as int) =~= sub);
                lemma_walk_path(*r, ch, bits, pos + 1);
            }
        },
    }
}


impl Clone for Node {
    /// A clone is structurally equal to the original subtree.
    fn clone(&self) -> (res: Self)
        ensures
            res == *self,
        decreases self,
    {
        match self {
            Node::Branch(l, r) => Node::Branch(
                Box::new((**l).clone()),
                Box::new((**r).clone()),
            ),
            Node::Leaf(c) => Node::Leaf(*c),
        }
    }
}

} // verus!
