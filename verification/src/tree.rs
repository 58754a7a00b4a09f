//! The code tree: frequency counting, greedy construction, per-symbol
//! lookup, string encoding and bit-stream decoding.

use vstd::prelude::*;

use crate::code::HuffmanCode;
use crate::error::HuffcodeError;
use crate::error::NOT_FOUND;
use crate::error::STREAM_EXHAUSTED;
use crate::builder::build_root;
use crate::builder::total_len;
use crate::builder::tree_of;
use crate::builder::views_of;
use crate::node::Node;
use crate::node::lemma_walk_pos;

verus! {

/// Every character of `s` has a leaf in `root`.
pub open spec fn all_found(root: Node, s: Seq<char>) -> bool {
    forall|i: int| 0 <= i < s.len() ==> root.contains(s[i])
}

/// The concatenation, in input order, of the bit path of every character
/// of `s`.
pub open spec fn encoded_bits(root: Node, s: Seq<char>) -> Seq<bool>
    decreases s.len(),
{
    if s.len() == 0 {
        Seq::empty()
    } else {
        root.path_of(s[0]) + encoded_bits(root, s.drop_first())
    }
}

/// As `encoded_bits`, but characters without a leaf are skipped.
pub open spec fn sanitized_bits(root: Node, s: Seq<char>) -> Seq<bool>
    decreases s.len(),
{
    if s.len() == 0 {
        Seq::empty()
    } else if root.contains(s[0]) {
        root.path_of(s[0]) + sanitized_bits(root, s.drop_first())
    } else {
        sanitized_bits(root, s.drop_first())
    }
}

/// The characters spelled by walking `root` over `bits` from `pos` until
/// the bits are exhausted, or `None` when the bits run out inside a path.
pub open spec fn decoded(root: Node, bits: Seq<bool>, pos: nat) -> Option<Seq<char>>
    decreases bits.len() - pos,
{
    if pos >= bits.len() {
        Some(Seq::empty())
    } else {
        match root.walk(bits, pos) {
            None => None,
            Some((c, p)) => if pos < p <= bits.len() {
                match decoded(root, bits, p) {
                    None => None,
                    Some(rest) => Some(seq![c] + rest),
                }
            } else {
                None
            },
        }
    }
}

proof fn lemma_encoded_bits_push(root: Node, s: Seq<char>, c: char)
    ensures
        encoded_bits(root, s.push(c)) == encoded_bits(root, s) + root.path_of(c),
    decreases s.len(),
{
    if s.len() == 0 {
        assert(s.push(c).drop_first() =~= Seq::<char>::empty());
        assert(encoded_bits(root, s.push(c).drop_first()) == Seq::<bool>::empty());
        assert(encoded_bits(root, s.push(c)) =~= encoded_bits(root, s) + root.path_of(c));
    } else {
        let tail = s.drop_first();
        assert(s.push(c).drop_first() =~= tail.push(c));
        lemma_encoded_bits_push(root, tail, c);
        assert(encoded_bits(root, s.push(c)) == root.path_of(s[0]) + (encoded_bits(root, tail)
            + root.path_of(c)));
        assert(root.path_of(s[0]) + (encoded_bits(root, tail) + root.path_of(c)) =~= (root.path_of(
            s[0],
        ) + encoded_bits(root, tail)) + root.path_of(c));
    }
}

proof fn lemma_sanitized_bits_push(root: Node, s: Seq<char>, c: char)
    ensures
        root.contains(c) ==> sanitized_bits(root, s.push(c)) == sanitized_bits(root, s)
            + root.path_of(c),
        !root.contains(c) ==> sanitized_bits(root, s.push(c)) == sanitized_bits(root, s),
    decreases s.len(),
{
    if s.len() == 0 {
        assert(s.push(c).drop_first() =~= Seq::<char>::empty());
        assert(sanitized_bits(root, s.push(c).drop_first()) == Seq::<bool>::empty());
        if root.contains(c) {
            assert(sanitized_bits(root, s.push(c)) =~= sanitized_bits(root, s) + root.path_of(c));
        }
    } else {
        let tail = s.drop_first();
        assert(s.push(c).drop_first() =~= tail.push(c));
        lemma_sanitized_bits_push(root, tail, c);
        if root.contains(s[0]) {
            if root.contains(c) {
                assert(sanitized_bits(root, s.push(c)) == root.path_of(s[0]) + (sanitized_bits(
                    root,
                    tail,
                ) + root.path_of(c)));
                assert(root.path_of(s[0]) + (sanitized_bits(root, tail) + root.path_of(c)) =~= (
                root.path_of(s[0]) + sanitized_bits(root, tail)) + root.path_of(c));
            }
        }
    }
}

/// Relies on `String::push`: appends the given character to the end of the
/// string.
#[verifier::external_body]
fn push_char(s: &mut String, c: char)
    ensures
        final(s)@ == old(s)@.push(c),
{
    s.push(c);
}

/// A code tree, owned whole through its root. Built once from frequency
/// data, then queried for encoding and decoding; never mutated.
#[derive(Debug, PartialEq, Eq, Hash)]
pub struct HuffmanTree {
    pub root: Node,
}

impl HuffmanTree {
    /// Construct a code tree from one string.
    ///
    /// The whole construction is deterministic: the tree is a function of
    /// the input alone.
    pub fn construct(text: String) -> (t: HuffmanTree)
        requires
            text@.len() <= usize::MAX,
        ensures
            t.root == tree_of(seq![text@]),
    {
        let ghost t0 = text@;
        let mut texts: Vec<String> = Vec::new();
        texts.push(text);
        proof {
            assert(views_of(texts@) =~= seq![t0]);
            assert(seq![t0].drop_first() =~= Seq::<Seq<char>>::empty());
            assert(total_len(seq![t0].drop_first()) == 0);
            assert(total_len(seq![t0]) == t0.len());
        }
        Self::construct_multi(texts)
    }

    /// Construct a code tree from a sequence of strings: count every
    /// character of every string, then greedily merge the two entries of
    /// lowest frequency — the earliest entry winning a tie — until one root
    /// remains. An empty corpus yields a single leaf holding the null
    /// character.
    ///
    /// The whole construction is deterministic: the tree is a function of
    /// the input alone.
    pub fn construct_multi(text: Vec<String>) -> (t: HuffmanTree)
        requires
            total_len(views_of(text@)) <= usize::MAX,
        ensures
            t.root == tree_of(views_of(text@)),
    {
        let root = build_root(&text);
        HuffmanTree { root }
    }

    /// Find the bit path for `ch`, or `NOT_FOUND` when the symbol was never
    /// observed during construction.
    pub fn find(&self, ch: char) -> (r: Result<HuffmanCode, HuffcodeError>)
        ensures
            self.root.contains(ch) ==> (r matches Ok(c) && c.bits() == self.root.path_of(ch)
                && c.pos == 0),
            !self.root.contains(ch) ==> r == Err::<HuffmanCode, HuffcodeError>(
                HuffcodeError(NOT_FOUND),
            ),
    {
        match self.root.get(ch) {
            Ok(v) => Ok(HuffmanCode::from_bits(v)),
            Err(e) => Err(e),
        }
    }

    /// Encode a string: the path of every character in input order, or
    /// `NOT_FOUND` on the first character without a leaf, discarding any
    /// partial output.
    pub fn encode(&self, text: String) -> (r: Result<HuffmanCode, HuffcodeError>)
        ensures
            all_found(self.root, text@) ==> (r matches Ok(c) && c.bits() == encoded_bits(
                self.root,
                text@,
            ) && c.pos == 0),
            !all_found(self.root, text@) ==> r == Err::<HuffmanCode, HuffcodeError>(
                HuffcodeError(NOT_FOUND),
            ),
    {
        let mut code = HuffmanCode::new();
        let stext = text.as_str();
        let n = stext.unicode_len();
        let mut i: usize = 0;
        while i < n
            invariant
                n == text@.len(),
                stext@ == text@,
                i <= n,
                forall|j: int| 0 <= j < i ==> self.root.contains(text@[j]),
                code.bits() == encoded_bits(self.root, text@.take(i as int)),
                code.pos == 0,
            decreases n - i,
        {
            let ch = stext.get_char(i);
            match self.find(ch) {
                Ok(path) => {
                    code.extend(path.vec());
                    proof {
                        lemma_encoded_bits_push(self.root, text@.take(i as int), text@[i as int]);
                        assert(text@.take(i + 1) =~= text@.take(i as int).push(text@[i as int]));
                    }
                },
                Err(e) => {
                    return Err(e);
                },
            }
            i = i + 1;
        }
        proof {
            assert(text@.take(n as int) =~= text@);
        }
        Ok(code)
    }

    /// Encode a string, silently skipping characters without a leaf instead
    /// of failing. Dropped characters are not recoverable by decoding, so
    /// this does not round-trip.
    pub fn encode_sanitized(&self, text: String) -> (r: HuffmanCode)
        ensures
            r.bits() == sanitized_bits(self.root, text@),
            r.pos == 0,
    {
        let mut code = HuffmanCode::new();
        let stext = text.as_str();
        let n = stext.unicode_len();
        let mut i: usize = 0;
        while i < n
            invariant
                n == text@.len(),
                stext@ == text@,
                i <= n,
                code.bits() == sanitized_bits(self.root, text@.take(i as int)),
                code.pos == 0,
            decreases n - i,
        {
            let ch = stext.get_char(i);
            match self.find(ch) {
                Ok(path) => {
                    code.extend(path.vec());
                },
                Err(_) => {},
            }
            proof {
                lemma_sanitized_bits_push(self.root, text@.take(i as int), text@[i as int]);
                assert(text@.take(i + 1) =~= text@.take(i as int).push(text@[i as int]));
            }
            i = i + 1;
        }
        proof {
            assert(text@.take(n as int) =~= text@);
        }
        code
    }

    /// Decode the remainder of a bit stream into a string: walk the tree
    /// from the root once per symbol until the stream is exhausted at a
    /// leaf boundary, or fail with `STREAM_EXHAUSTED` when the stream ends
    /// mid-path, discarding any partial output.
    ///
    /// A tree whose root is a leaf consumes no bits, so a stream with bits
    /// still to read is excluded for such a tree: the loop could not
    /// terminate on it.
    pub fn decode(&self, code: &mut HuffmanCode) -> (r: Result<String, HuffcodeError>)
        requires
            old(code).wf(),
            old(code).pos < old(code).bits().len() ==> self.root is Branch,
        ensures
            final(code).wf(),
            final(code).bits() == old(code).bits(),
            final(code).pos == old(code).bits().len(),
            match decoded(self.root, old(code).bits(), old(code).pos as nat) {
                Some(s) => r matches Ok(out) && out@ == s,
                None => r == Err::<String, HuffcodeError>(HuffcodeError(STREAM_EXHAUSTED)),
            },
    {
        let mut buffer = String::new();
        let ghost bits = code.bits();
        let ghost pos0 = code.pos as nat;
        while !code.exhausted()
            invariant
                code.wf(),
                code.bits() == bits,
                bits == old(code).bits(),
                pos0 == old(code).pos as nat,
                code.pos < bits.len() ==> self.root is Branch,
                match decoded(self.root, bits, code.pos as nat) {
                    Some(rest) => decoded(self.root, bits, pos0) == Some(buffer@ + rest),
                    None => decoded(self.root, bits, pos0) is None,
                },
            decreases bits.len() - code.pos,
        {
            let ghost cur = code.pos as nat;
            match self.root.traverse(code) {
                Ok(ch) => {
                    proof {
                        let (c, p) = self.root.walk(bits, cur).unwrap();
                        lemma_walk_pos(self.root, bits, cur, c, p);
                        match decoded(self.root, bits, p) {
                            Some(rest_p) => {
                                assert(decoded(self.root, bits, cur) == Some(seq![c] + rest_p));
                                assert(buffer@ + (seq![c] + rest_p) =~= buffer@.push(c) + rest_p);
                            },
                            None => {
                                assert(decoded(self.root, bits, cur) is None);
                            },
                        }
                    }
                    push_char(&mut buffer, ch);
                },
                Err(e) => {
                    proof {
                        assert(decoded(self.root, bits, cur) is None);
                    }
                    return Err(e);
                },
            }
        }
        proof {
            assert(decoded(self.root, bits, code.pos as nat) == Some(Seq::<char>::empty()));
            assert(buffer@ + Seq::<char>::empty() =~= buffer@);
        }
        Ok(buffer)
    }
}


impl Clone for HuffmanTree {
    /// A clone is structurally equal to the original tree.
    fn clone(&self) -> (res: Self)
        ensures
            res == *self,
    {
        HuffmanTree { root: self.root.clone() }
    }
}

} // verus!
