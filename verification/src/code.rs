//! An ordered, cursor-tracked sequence of bits.

use vstd::prelude::*;

use crate::error::HuffcodeError;
use crate::error::STREAM_EXHAUSTED;

verus! {

/// The eight bits of one byte, most-significant bit first.
pub open spec fn bits_of_byte(b: u8) -> Seq<bool> {
    seq![
        b & 0x80 != 0,
        b & 0x40 != 0,
        b & 0x20 != 0,
        b & 0x10 != 0,
        b & 0x08 != 0,
        b & 0x04 != 0,
        b & 0x02 != 0,
        b & 0x01 != 0,
    ]
}

/// The bits of a byte sequence: eight bits per byte, in input order.
pub open spec fn bits_of_bytes(bytes: Seq<u8>) -> Seq<bool>
    decreases bytes.len(),
{
    if bytes.len() == 0 {
        Seq::empty()
    } else {
        bits_of_byte(bytes[0]) + bits_of_bytes(bytes.drop_first())
    }
}

proof fn lemma_bits_of_bytes_push(bytes: Seq<u8>, b: u8)
    ensures
        bits_of_bytes(bytes.push(b)) == bits_of_bytes(bytes) + bits_of_byte(b),
    decreases bytes.len(),
{
    if bytes.len() == 0 {
        assert(bytes.push(b).drop_first() =~= Seq::<u8>::empty());
        assert(bits_of_bytes(bytes.push(b).drop_first()) == Seq::<bool>::empty());
        assert(bits_of_bytes(bytes.push(b)) == bits_of_byte(b) + Seq::<bool>::empty());
        assert(bits_of_bytes(bytes.push(b)) =~= bits_of_bytes(bytes) + bits_of_byte(b));
    } else {
        let tail = bytes.drop_first();
        assert(bytes.push(b).drop_first() =~= tail.push(b));
        lemma_bits_of_bytes_push(tail, b);
        assert(bits_of_bytes(bytes.push(b)) == bits_of_byte(bytes[0]) + (bits_of_bytes(tail)
            + bits_of_byte(b)));
        assert(bits_of_byte(bytes[0]) + (bits_of_bytes(tail) + bits_of_byte(b)) =~= (bits_of_byte(
            bytes[0],
        ) + bits_of_bytes(tail)) + bits_of_byte(b));
    }
}

/// Append the eight bits of one byte, most-significant bit first.
fn push_byte_bits(code: &mut Vec<bool>, b: u8)
    ensures
        final(code)@ == old(code)@ + bits_of_byte(b),
{
    code.push(b & 0x80 != 0);
    code.push(b & 0x40 != 0);
    code.push(b & 0x20 != 0);
    code.push(b & 0x10 != 0);
    code.push(b & 0x08 != 0);
    code.push(b & 0x04 != 0);
    code.push(b & 0x02 != 0);
    code.push(b & 0x01 != 0);
    proof {
        assert(code@ =~= old(code)@ + bits_of_byte(b));
    }
}

/// A bit sequence with a read cursor.
///
/// `code` holds the bits in order; `pos` is the index of the next bit that a
/// sequential read will return. The cursor never exceeds the length.
#[derive(Clone, Debug, PartialEq, Eq)]
pub struct HuffmanCode {
    pub code: Vec<bool>,
    pub pos: usize,
}

impl HuffmanCode {
    /// The bit contents, without the cursor.
    pub open spec fn bits(self) -> Seq<bool> {
        self.code@
    }

    /// The cursor is inside the sequence (one past the end at most).
    pub open spec fn wf(self) -> bool {
        self.pos <= self.code@.len()
    }

    /// The cursor has reached the end of the bits.
    pub open spec fn spec_exhausted(self) -> bool {
        self.pos >= self.bits().len()
    }

    /// Create an empty code, cursor at the start.
    pub fn new() -> (c: HuffmanCode)
        ensures
            c.bits() == Seq::<bool>::empty(),
            c.pos == 0,
    {
        HuffmanCode { code: Vec::new(), pos: 0 }
    }

    /// Wrap an existing bit vector, cursor at the start.
    pub fn from_bits(code: Vec<bool>) -> (c: HuffmanCode)
        ensures
            c.bits() == code@,
            c.pos == 0,
    {
        HuffmanCode { code, pos: 0 }
    }

    /// Expand each byte into its eight bits, most-significant bit first, in
    /// input order; cursor at the start.
    pub fn from_bytes(bytes: Vec<u8>) -> (c: HuffmanCode)
        ensures
            c.bits() == bits_of_bytes(bytes@),
            c.pos == 0,
    {
        let mut code: Vec<bool> = Vec::new();
        let mut i: usize = 0;
        while i < bytes.len()
            invariant
                i <= bytes@.len(),
                code@ == bits_of_bytes(bytes@.take(i as int)),
            decreases bytes@.len() - i,
        {
            push_byte_bits(&mut code, bytes[i]);
            proof {
                lemma_bits_of_bytes_push(bytes@.take(i as int), bytes@[i as int]);
                assert(bytes@.take(i + 1) =~= bytes@.take(i as int).push(bytes@[i as int]));
            }
            i = i + 1;
        }
        proof {
            assert(bytes@.take(bytes@.len() as int) =~= bytes@);
        }
        HuffmanCode { code, pos: 0 }
    }

    /// Append bits to the end; the cursor does not move.
    pub fn extend(&mut self, code: Vec<bool>)
        ensures
            final(self).bits() == old(self).bits() + code@,
            final(self).pos == old(self).pos,
    {
        let mut other = code;
        self.code.append(&mut other);
    }

    /// Return the bit at the cursor and advance the cursor; fail with
    /// `STREAM_EXHAUSTED` when the cursor has reached the end.
    pub fn next(&mut self) -> (r: Result<bool, HuffcodeError>)
        requires
            old(self).wf(),
        ensures
            final(self).wf(),
            final(self).bits() == old(self).bits(),
            old(self).pos < old(self).bits().len() ==> {
                &&& r == Ok::<bool, HuffcodeError>(old(self).bits()[old(self).pos as int])
                &&& final(self).pos == old(self).pos + 1
            },
            old(self).pos >= old(self).bits().len() ==> {
                &&& r == Err::<bool, HuffcodeError>(HuffcodeError(STREAM_EXHAUSTED))
                &&& final(self).pos == old(self).pos
            },
    {
        if !self.exhausted() {
            proof {
                assert(self.pos < self.code.len());
            }
            self.pos = self.pos + 1;
            Ok(self.code[self.pos - 1])
        } else {
            Err(HuffcodeError(STREAM_EXHAUSTED))
        }
    }

    /// True iff the cursor has reached the end; does not mutate.
    pub fn exhausted(&self) -> (r: bool)
        ensures
            r == self.spec_exhausted(),
    {
        self.pos >= self.code.len()
    }

    /// Consume the code and return its bit contents.
    pub fn vec(self) -> (v: Vec<bool>)
        ensures
            v@ == self.bits(),
    {
        self.code
    }

    /// Append a single bit; the cursor does not move.
    pub fn push(&mut self, b: bool)
        ensures
            final(self).bits() == old(self).bits().push(b),
            final(self).pos == old(self).pos,
    {
        self.code.push(b)
    }
}

} // verus!
