//! A reader over fields that are already decoded.

use vstd::prelude::*;
use crate::codes::{Decoder, Field};
use crate::sequential::{BitPosition, SequentialDecoderFactory};

verus! {

/// The error of a read behind the last word of a tape.
#[derive(Clone, Copy, Debug, PartialEq, Eq, Structural)]
pub struct TapeEnd {
    /// The number of words of the tape.
    pub len: usize,
}

/// A reader that hands out the words of a vector in order, whatever the
/// kind of field asked for. Behind the last word every read fails.
pub struct FieldTape {
    values: Vec<u64>,
    pos: usize,
}

/// Copies `src`.
pub fn copy_words(src: &Vec<u64>) -> (r: Vec<u64>)
    ensures
        r@ == src@,
{
    let mut r: Vec<u64> = Vec::new();
    let mut i: usize = 0;
    while i < src.len()
        invariant
            i <= src@.len(),
            r@ == src@.subrange(0, i as int),
        decreases src@.len() - i,
    {
        r.push(src[i]);
        proof {
            assert(r@ =~= src@.subrange(0, i + 1));
        }
        i += 1;
    }
    proof {
        assert(r@ =~= src@);
    }
    r
}

impl FieldTape {
    /// A reader at the first word of `values`.
    pub fn new(values: Vec<u64>) -> (r: Self)
        ensures
            r.abs() == (values@, 0nat),
    {
        FieldTape { values, pos: 0 }
    }

    /// The number of words read so far.
    pub fn position(&self) -> (r: usize)
        ensures
            r == self.abs().1,
    {
        self.pos
    }

    fn read(&mut self, Ghost(f): Ghost<Field>) -> (r: Result<u64, TapeEnd>)
        ensures
            match r {
                Ok(v) => Self::failure(old(self).abs(), f) is None && v == Self::peek(
                    old(self).abs(),
                    f,
                ) && final(self).abs() == Self::advance(old(self).abs(), f),
                Err(e) => Self::failure(old(self).abs(), f) == Some(e),
            },
    {
        if self.pos < self.values.len() {
            let v: u64 = self.values[self.pos];
            self.pos = self.pos + 1;
            Ok(v)
        } else {
            Err(TapeEnd { len: self.values.len() })
        }
    }
}

impl Decoder for FieldTape {
    type Abs = (Seq<u64>, nat);

    type Error = TapeEnd;

    closed spec fn abs(&self) -> (Seq<u64>, nat) {
        (self.values@, self.pos as nat)
    }

    open spec fn peek(a: (Seq<u64>, nat), f: Field) -> u64 {
        if a.1 < a.0.len() {
            a.0[a.1 as int]
        } else {
            0
        }
    }

    open spec fn failure(a: (Seq<u64>, nat), f: Field) -> Option<TapeEnd> {
        if a.1 < a.0.len() {
            None
        } else {
            Some(TapeEnd { len: a.0.len() as usize })
        }
    }

    open spec fn advance(a: (Seq<u64>, nat), f: Field) -> (Seq<u64>, nat) {
        (a.0, a.1 + 1)
    }

    fn read_outdegree(&mut self) -> (r: Result<u64, TapeEnd>) {
        self.read(Ghost(Field::Outdegree))
    }

    fn read_reference_offset(&mut self) -> (r: Result<u64, TapeEnd>) {
        self.read(Ghost(Field::ReferenceOffset))
    }

    fn read_block_count(&mut self) -> (r: Result<u64, TapeEnd>) {
        self.read(Ghost(Field::BlockCount))
    }

    fn read_block(&mut self) -> (r: Result<u64, TapeEnd>) {
        self.read(Ghost(Field::Block))
    }

    fn read_interval_count(&mut self) -> (r: Result<u64, TapeEnd>) {
        self.read(Ghost(Field::IntervalCount))
    }

    fn read_interval_start(&mut self) -> (r: Result<u64, TapeEnd>) {
        self.read(Ghost(Field::IntervalStart))
    }

    fn read_interval_len(&mut self) -> (r: Result<u64, TapeEnd>) {
        self.read(Ghost(Field::IntervalLen))
    }

    fn read_first_residual(&mut self) -> (r: Result<u64, TapeEnd>) {
        self.read(Ghost(Field::FirstResidual))
    }

    fn read_residual(&mut self) -> (r: Result<u64, TapeEnd>) {
        self.read(Ghost(Field::Residual))
    }
}

impl BitPosition for FieldTape {
    type PositionError = ();

    open spec fn position(a: (Seq<u64>, nat)) -> Result<u64, ()> {
        Ok(a.1 as u64)
    }

    /// The number of words read so far; never fails.
    fn get_bit_pos(&mut self) -> (r: Result<u64, ()>) {
        Ok(self.pos as u64)
    }
}

/// A source of `FieldTape` readers over one vector of words.
pub struct FieldTapeFactory {
    values: Vec<u64>,
}

impl FieldTapeFactory {
    /// The words that every reader starts from.
    pub closed spec fn view(&self) -> Seq<u64> {
        self.values@
    }

    /// A source of readers over `values`.
    pub fn new(values: Vec<u64>) -> (r: Self)
        ensures
            r@ == values@,
    {
        FieldTapeFactory { values }
    }
}

impl SequentialDecoderFactory for FieldTapeFactory {
    type Decoder = FieldTape;

    open spec fn fresh(&self) -> (Seq<u64>, nat) {
        (self@, 0nat)
    }

    fn new_decoder(&self) -> (d: FieldTape) {
        FieldTape::new(copy_words(&self.values))
    }
}

} // verus!
