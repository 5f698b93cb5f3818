use vstd::prelude::*;

use crate::error::Error;

verus! {

/// Total length of a list of pieces.
pub open spec fn total_length(pieces: Seq<u16>) -> int
    decreases pieces.len(),
{
    if pieces.len() == 0 {
        0
    } else {
        total_length(pieces.drop_last()) + pieces.last()
    }
}

/// Appending a piece adds its length to the total.
pub proof fn lemma_total_length_push(pieces: Seq<u16>, piece: u16)
    ensures
        total_length(pieces.push(piece)) == total_length(pieces) + piece,
{
    assert(pieces.push(piece).drop_last() =~= pieces);
}

/// The pieces of a prefix never add up to more than the whole list.
pub proof fn lemma_total_length_prefix(pieces: Seq<u16>, n: int)
    requires
        0 <= n <= pieces.len(),
    ensures
        0 <= total_length(pieces.take(n)) <= total_length(pieces),
    decreases pieces.len(),
{
    if pieces.len() > 0 {
        if n == pieces.len() {
            assert(pieces.take(n) =~= pieces);
            lemma_total_length_prefix(pieces.drop_last(), n - 1);
            assert(pieces.drop_last().take(n - 1) =~= pieces.drop_last());
        } else {
            lemma_total_length_prefix(pieces.drop_last(), n);
            assert(pieces.drop_last().take(n) =~= pieces.take(n));
        }
    }
}

/// Abstract state of one molding: its full length and the pieces cut from it, in cut order.
pub struct MoldingView {
    pub length: int,
    pub pieces: Seq<u16>,
}

impl MoldingView {
    /// Length still uncut.
    pub open spec fn remaining(self) -> int {
        self.length - total_length(self.pieces)
    }

    /// The pieces never exceed the molding, and the length fits a `u16`.
    pub open spec fn wf(self) -> bool {
        &&& 0 <= self.length <= u16::MAX
        &&& total_length(self.pieces) <= self.length
    }

    /// The molding after one more piece has been cut from it.
    pub open spec fn cut(self, piece: u16) -> MoldingView {
        MoldingView { length: self.length, pieces: self.pieces.push(piece) }
    }

    /// A fresh molding of the given length with one piece already cut.
    pub open spec fn starting_with(length: int, piece: u16) -> MoldingView {
        MoldingView { length, pieces: Seq::empty().push(piece) }
    }
}

/// One stock molding of fixed length and the pieces cut from it so far.
#[derive(Debug)]
pub struct Molding {
    /// Length of the full molding
    length: u16,
    /// Pieces cut from this particular molding
    pieces: Vec<u16>,
}

impl View for Molding {
    type V = MoldingView;

    closed spec fn view(&self) -> MoldingView {
        MoldingView { length: self.length as int, pieces: self.pieces@ }
    }
}

impl Molding {
    /// The pieces cut so far fit within the molding.
    pub open spec fn wf(&self) -> bool {
        self@.wf()
    }

    /// A molding of `length` with `piece` as its first cut.
    pub fn starting_with(length: u16, piece: u16) -> (m: Molding)
        requires
            piece <= length,
        ensures
            m@ == MoldingView::starting_with(length as int, piece),
            m.wf(),
    {
        let m = Molding { length, pieces: vec![piece] };
        proof {
            assert(m.pieces@ =~= Seq::<u16>::empty().push(piece));
            lemma_total_length_push(Seq::<u16>::empty(), piece);
        }
        m
    }

    /// Full length of the molding.
    pub fn length(&self) -> (r: u16)
        ensures
            r as int == self@.length,
    {
        self.length
    }

    /// Pieces cut so far, in cut order.
    pub fn pieces(&self) -> (r: &Vec<u16>)
        ensures
            r@ == self@.pieces,
    {
        &self.pieces
    }

    /// Returns remaining usable length of molding
    pub fn length_remaining(&self) -> (r: u16)
        requires
            self.wf(),
        ensures
            r as int == self@.remaining(),
    {
        let mut length: u16 = 0;
        let mut i: usize = 0;
        while i < self.pieces.len()
            invariant
                self.wf(),
                i <= self.pieces@.len(),
                length as int == total_length(self.pieces@.take(i as int)),
            decreases self.pieces@.len() - i,
        {
            proof {
                let s = self.pieces@;
                assert(s.take(i + 1).drop_last() =~= s.take(i as int));
                lemma_total_length_prefix(s, i + 1);
            }
            length = length + self.pieces[i];
            i = i + 1;
        }
        proof {
            assert(self.pieces@.take(i as int) =~= self.pieces@);
        }
        self.length - length
    }

    /// Try to cut piece from molding
    pub fn add_piece(&mut self, length: u16) -> (r: Result<(), Error>)
        requires
            old(self).wf(),
        ensures
            final(self).wf(),
            length <= old(self)@.remaining() ==> r == Ok::<(), Error>(()) && final(self)@ == old(self)@.cut(length),
            length > old(self)@.remaining() ==> r == Err::<(), Error>(Error::NotLongEnough) && final(self)@ == old(self)@,
    {
        if self.length_remaining() < length {
            Err(Error::NotLongEnough)
        } else {
            proof {
                lemma_total_length_push(self.pieces@, length);
            }
            self.pieces.push(length);
            Ok(())
        }
    }
}

} // verus!
