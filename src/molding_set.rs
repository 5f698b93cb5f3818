use vstd::prelude::*;

use vstd::arithmetic::div_mod::{lemma_fundamental_div_mod, lemma_fundamental_div_mod_converse};

use crate::error::Error;
use crate::molding::{lemma_total_length_push, total_length, Molding, MoldingView};

verus! {

/// Abstract state of a molding set: the stock length and the moldings in order of creation.
pub struct MoldingSetView {
    pub fixed_piece: u16,
    pub set: Seq<MoldingView>,
}

/// Molding `i` has room for `length`, the least room of all that do, and no earlier
/// molding with room has as little.
pub open spec fn is_best_fit(set: Seq<MoldingView>, length: u16, i: int) -> bool {
    &&& 0 <= i < set.len()
    &&& set[i].remaining() >= length
    &&& forall|j: int|
        0 <= j < set.len() && #[trigger] set[j].remaining() >= length ==> set[i].remaining()
            <= set[j].remaining()
    &&& forall|j: int|
        0 <= j < i && #[trigger] set[j].remaining() >= length ==> set[i].remaining()
            < set[j].remaining()
}

/// Index of the molding that a partial piece of `length` goes into, if any has room.
pub open spec fn best_fit(set: Seq<MoldingView>, length: u16) -> Option<int> {
    if exists|i: int| is_best_fit(set, length, i) {
        Some(choose|i: int| is_best_fit(set, length, i))
    } else {
        None
    }
}

/// Sum of all pieces cut from all moldings.
pub open spec fn total_used(set: Seq<MoldingView>) -> int
    decreases set.len(),
{
    if set.len() == 0 {
        0
    } else {
        total_used(set.drop_last()) + total_length(set.last().pieces)
    }
}

impl MoldingSetView {
    /// Stock length is positive and every molding is a sound molding of that length.
    pub open spec fn wf(self) -> bool {
        &&& self.fixed_piece > 0
        &&& forall|i: int|
            0 <= i < self.set.len() ==> #[trigger] self.set[i].wf() && self.set[i].length
                == self.fixed_piece
    }

    /// A molding used up whole by a single piece.
    pub open spec fn full(self) -> MoldingView {
        MoldingView::starting_with(self.fixed_piece as int, self.fixed_piece)
    }

    /// The set with `k` full moldings appended.
    pub open spec fn with_full(self, k: nat) -> MoldingSetView {
        MoldingSetView {
            fixed_piece: self.fixed_piece,
            set: self.set + Seq::new(k, |_i: int| self.full()),
        }
    }

    /// The set after a piece of `length` (at most the stock length) was placed by best fit:
    /// cut from the best fitting molding, or from a new one when none has room.
    pub open spec fn place(self, length: u16) -> MoldingSetView {
        match best_fit(self.set, length) {
            Some(i) => MoldingSetView {
                fixed_piece: self.fixed_piece,
                set: self.set.update(i, self.set[i].cut(length)),
            },
            None => MoldingSetView {
                fixed_piece: self.fixed_piece,
                set: self.set.push(MoldingView::starting_with(self.fixed_piece as int, length)),
            },
        }
    }

    /// The set after a request of `length`: one full molding per whole stock length, then
    /// the remainder, if any, placed by best fit.
    pub open spec fn after_add(self, length: u16) -> MoldingSetView {
        let peeled = self.with_full((length / self.fixed_piece) as nat);
        let rest = length % self.fixed_piece;
        if rest == 0 {
            peeled
        } else {
            peeled.place(rest)
        }
    }

    /// The set after requests of each length in turn.
    pub open spec fn after_add_all(self, lengths: Seq<u16>) -> MoldingSetView
        decreases lengths.len(),
    {
        if lengths.len() == 0 {
            self
        } else {
            self.after_add_all(lengths.drop_last()).after_add(lengths.last())
        }
    }
}

/// A molding started with one piece is sound when the piece fits.
pub proof fn lemma_starting_with_wf(length: int, piece: u16)
    requires
        piece <= length <= u16::MAX,
    ensures
        MoldingView::starting_with(length, piece).wf(),
        total_length(MoldingView::starting_with(length, piece).pieces) == piece,
{
    lemma_total_length_push(Seq::<u16>::empty(), piece);
}

/// Only one molding can be the best fit, and it is the one `best_fit` names.
pub proof fn lemma_best_fit_unique(set: Seq<MoldingView>, length: u16, i: int)
    requires
        is_best_fit(set, length, i),
    ensures
        best_fit(set, length) == Some(i),
{
    let k = choose|k: int| is_best_fit(set, length, k);
    assert(is_best_fit(set, length, k));
    if k < i {
        assert(set[k].remaining() >= length);
    } else if i < k {
        assert(set[i].remaining() >= length);
    }
}

/// With no molding having room, there is no best fit.
pub proof fn lemma_best_fit_none(set: Seq<MoldingView>, length: u16)
    requires
        forall|j: int| 0 <= j < set.len() ==> #[trigger] set[j].remaining() < length,
    ensures
        best_fit(set, length) == None::<int>,
{
    if exists|i: int| is_best_fit(set, length, i) {
        let i = choose|i: int| is_best_fit(set, length, i);
        assert(set[i].remaining() >= length);
    }
}

/// Best-fit placement keeps the set sound.
pub proof fn lemma_place_wf(s: MoldingSetView, length: u16)
    requires
        s.wf(),
        length <= s.fixed_piece,
    ensures
        s.place(length).wf(),
        s.place(length).fixed_piece == s.fixed_piece,
{
    lemma_starting_with_wf(s.fixed_piece as int, length);
    match best_fit(s.set, length) {
        Some(i) => {
            assert(is_best_fit(s.set, length, i));
            assert(s.set[i].wf());
            lemma_total_length_push(s.set[i].pieces, length);
            let t = s.place(length);
            assert forall|j: int| 0 <= j < t.set.len() implies #[trigger] t.set[j].wf()
                && t.set[j].length == t.fixed_piece by {
                if j != i {
                    assert(s.set[j].wf());
                }
            }
        },
        None => {
            let t = s.place(length);
            assert forall|j: int| 0 <= j < t.set.len() implies #[trigger] t.set[j].wf()
                && t.set[j].length == t.fixed_piece by {
                if j < s.set.len() {
                    assert(s.set[j].wf());
                }
            }
        },
    }
}

/// Appending full moldings keeps the set sound.
pub proof fn lemma_with_full_wf(s: MoldingSetView, k: nat)
    requires
        s.wf(),
    ensures
        s.with_full(k).wf(),
{
    lemma_starting_with_wf(s.fixed_piece as int, s.fixed_piece);
    let t = s.with_full(k);
    assert forall|j: int| 0 <= j < t.set.len() implies #[trigger] t.set[j].wf()
        && t.set[j].length == t.fixed_piece by {
        if j < s.set.len() {
            assert(s.set[j].wf());
        }
    }
}

/// Appending one more full molding.
pub proof fn lemma_with_full_step(s: MoldingSetView, k: nat)
    ensures
        s.with_full(k).set.push(s.full()) == s.with_full(k + 1).set,
{
    assert(s.with_full(k).set.push(s.full()) =~= s.with_full(k + 1).set);
}

/// A request keeps the set sound.
pub proof fn lemma_after_add_wf(s: MoldingSetView, length: u16)
    requires
        s.wf(),
    ensures
        s.after_add(length).wf(),
        s.after_add(length).fixed_piece == s.fixed_piece,
{
    let peeled = s.with_full((length / s.fixed_piece) as nat);
    lemma_with_full_wf(s, (length / s.fixed_piece) as nat);
    if length % s.fixed_piece != 0 {
        lemma_place_wf(peeled, length % s.fixed_piece);
    }
}

/// A new molding adds its pieces to the total.
pub proof fn lemma_total_used_push(set: Seq<MoldingView>, m: MoldingView)
    ensures
        total_used(set.push(m)) == total_used(set) + total_length(m.pieces),
{
    assert(set.push(m).drop_last() =~= set);
}

/// Replacing one molding changes the total by the difference of their pieces.
pub proof fn lemma_total_used_update(set: Seq<MoldingView>, i: int, m: MoldingView)
    requires
        0 <= i < set.len(),
    ensures
        total_used(set.update(i, m)) == total_used(set) - total_length(set[i].pieces)
            + total_length(m.pieces),
    decreases set.len(),
{
    let t = set.update(i, m);
    if i == set.len() - 1 {
        assert(t.drop_last() =~= set.drop_last());
    } else {
        lemma_total_used_update(set.drop_last(), i, m);
        assert(t.drop_last() =~= set.drop_last().update(i, m));
    }
}

/// Each full molding adds one stock length to the total.
pub proof fn lemma_total_used_with_full(s: MoldingSetView, k: nat)
    ensures
        total_used(s.with_full(k).set) == total_used(s.set) + k * s.fixed_piece,
    decreases k,
{
    lemma_total_length_push(Seq::<u16>::empty(), s.fixed_piece);
    if k == 0 {
        assert(s.with_full(0).set =~= s.set);
    } else {
        lemma_total_used_with_full(s, (k - 1) as nat);
        lemma_with_full_step(s, (k - 1) as nat);
        lemma_total_used_push(s.with_full((k - 1) as nat).set, s.full());
        assert(k * s.fixed_piece == (k - 1) * s.fixed_piece + s.fixed_piece) by (nonlinear_arith);
    }
}

/// Placing a piece adds its length to the total.
pub proof fn lemma_total_used_place(s: MoldingSetView, length: u16)
    ensures
        total_used(s.place(length).set) == total_used(s.set) + length,
{
    match best_fit(s.set, length) {
        Some(i) => {
            assert(is_best_fit(s.set, length, i));
            lemma_total_length_push(s.set[i].pieces, length);
            lemma_total_used_update(s.set, i, s.set[i].cut(length));
        },
        None => {
            lemma_total_length_push(Seq::<u16>::empty(), length);
            lemma_total_used_push(s.set, MoldingView::starting_with(s.fixed_piece as int, length));
        },
    }
}

/// A request adds exactly its length to the total.
pub proof fn lemma_total_used_after_add(s: MoldingSetView, length: u16)
    requires
        s.fixed_piece > 0,
    ensures
        total_used(s.after_add(length).set) == total_used(s.set) + length,
{
    let k = (length / s.fixed_piece) as nat;
    lemma_total_used_with_full(s, k);
    if length % s.fixed_piece != 0 {
        lemma_total_used_place(s.with_full(k), length % s.fixed_piece);
    }
    lemma_fundamental_div_mod(length as int, s.fixed_piece as int);
}

/// Moldings of one stock length, grown by best-fit placement of requested pieces.
#[derive(Debug)]
pub struct MoldingSet {
    /// Length of the fixed starting piece from which parts are cut from
    fixed_piece: u16,
    /// Set of Moldings
    set: Vec<Molding>,
}

impl View for MoldingSet {
    type V = MoldingSetView;

    closed spec fn view(&self) -> MoldingSetView {
        MoldingSetView {
            fixed_piece: self.fixed_piece,
            set: self.set@.map_values(|m: Molding| m@),
        }
    }
}

impl MoldingSet {
    /// Every molding fits within, and has, the positive stock length.
    pub open spec fn wf(&self) -> bool {
        self@.wf()
    }

    /// Create new molding set
    pub fn new(fixed_piece: u16) -> (r: MoldingSet)
        requires
            fixed_piece > 0,
        ensures
            r.wf(),
            r@.fixed_piece == fixed_piece,
            r@.set == Seq::<MoldingView>::empty(),
    {
        let r = MoldingSet { fixed_piece, set: Vec::new() };
        assert(r@.set =~= Seq::<MoldingView>::empty());
        r
    }

    /// Length of the stock moldings.
    pub fn fixed_piece(&self) -> (r: u16)
        ensures
            r == self@.fixed_piece,
    {
        self.fixed_piece
    }

    /// The moldings in order of creation.
    pub fn moldings(&self) -> (r: &Vec<Molding>)
        ensures
            r@.map_values(|m: Molding| m@) == self@.set,
    {
        &self.set
    }

    /// Add one full sized molding to set
    pub fn add_full(&mut self)
        requires
            old(self).wf(),
        ensures
            final(self).wf(),
            final(self)@ == old(self)@.with_full(1),
    {
        let ghost before = self@;
        self.set.push(Molding::starting_with(self.fixed_piece, self.fixed_piece));
        proof {
            lemma_with_full_step(before, 0);
            assert(before.with_full(0).set =~= before.set);
            assert(self@.set =~= before.with_full(1).set);
            lemma_with_full_wf(before, 1);
        }
    }

    /// Index of the best fitting molding for a piece of `length`, if any has room.
    fn best_fit_index(&self, length: u16) -> (r: Option<usize>)
        requires
            self.wf(),
        ensures
            match r {
                Some(i) => is_best_fit(self@.set, length, i as int),
                None => forall|j: int|
                    0 <= j < self@.set.len() ==> #[trigger] self@.set[j].remaining() < length,
            },
    {
        let mut best: Option<usize> = None;
        let mut best_rem: u16 = 0;
        let mut i: usize = 0;
        while i < self.set.len()
            invariant
                self.wf(),
                i <= self@.set.len(),
                self@.set.len() == self.set@.len(),
                match best {
                    Some(b) => {
                        &&& b < i
                        &&& self@.set[b as int].remaining() >= length
                        &&& best_rem as int == self@.set[b as int].remaining()
                        &&& forall|j: int|
                            0 <= j < i && #[trigger] self@.set[j].remaining() >= length
                                ==> best_rem <= self@.set[j].remaining()
                        &&& forall|j: int|
                            0 <= j < b && #[trigger] self@.set[j].remaining() >= length
                                ==> best_rem < self@.set[j].remaining()
                    },
                    None => forall|j: int|
                        0 <= j < i ==> #[trigger] self@.set[j].remaining() < length,
                },
            decreases self.set@.len() - i,
        {
            assert(self@.set[i as int] == self.set@[i as int]@);
            assert(self@.set[i as int].wf());
            let rem = self.set[i].length_remaining();
            if rem >= length {
                match best {
                    Some(_) => {
                        if rem < best_rem {
                            best = Some(i);
                            best_rem = rem;
                        }
                    },
                    None => {
                        best = Some(i);
                        best_rem = rem;
                    },
                }
            }
            i = i + 1;
        }
        best
    }

    /// Add part that is known to be equal or less than fixed size molding
    pub fn add_partial(&mut self, length: u16) -> (r: Result<(), Error>)
        requires
            old(self).wf(),
        ensures
            final(self).wf(),
            length > old(self)@.fixed_piece ==> r == Err::<(), Error>(Error::InvalidInput)
                && final(self)@ == old(self)@,
            length <= old(self)@.fixed_piece ==> r == Ok::<(), Error>(()) && final(self)@
                == old(self)@.place(length),
    {
        if length > self.fixed_piece {
            return Err(Error::InvalidInput);
        }
        let ghost before = self@;
        proof {
            lemma_place_wf(before, length);
        }
        match self.best_fit_index(length) {
            Some(i) => {
                proof {
                    lemma_best_fit_unique(before.set, length, i as int);
                    assert(before.set[i as int] == self.set@[i as int]@);
                    assert(before.set[i as int].wf());
                }
                let cut = self.set[i].add_piece(length);
                if let Err(e) = cut {
                    return Err(e);
                }
                proof {
                    assert(self@.set =~= before.place(length).set);
                }
            },
            None => {
                proof {
                    lemma_best_fit_none(before.set, length);
                }
                self.set.push(Molding::starting_with(self.fixed_piece, length));
                proof {
                    assert(self@.set =~= before.place(length).set);
                }
            },
        }
        Ok(())
    }

    /// Distribute one requested length: a full molding for each whole stock length it
    /// holds, then the remainder, if any, by best fit. The remainder is always shorter than
    /// the stock, so this never fails. No sorting is done here: packing is tightest when
    /// the caller makes its requests longest first.
    pub fn add(&mut self, length: u16) -> (r: Result<(), Error>)
        requires
            old(self).wf(),
        ensures
            final(self).wf(),
            r == Ok::<(), Error>(()),
            final(self)@ == old(self)@.after_add(length),
    {
        let ghost start = self@;
        let ghost mut count: nat = 0;
        let mut len: u16 = length;
        proof {
            assert(start.with_full(0).set =~= start.set);
        }
        while len >= self.fixed_piece
            invariant
                self.wf(),
                self@.fixed_piece == start.fixed_piece,
                start.wf(),
                self@ == start.with_full(count),
                len as int + count * start.fixed_piece == length,
            decreases len,
        {
            self.add_full();
            len = len - self.fixed_piece;
            proof {
                lemma_with_full_step(start, count);
                assert(start.with_full(count).with_full(1).set =~= start.with_full(count + 1).set);
                assert((count + 1) * start.fixed_piece == count * start.fixed_piece
                    + start.fixed_piece) by (nonlinear_arith);
                count = count + 1;
            }
        }
        proof {
            lemma_fundamental_div_mod_converse(
                length as int,
                start.fixed_piece as int,
                count as int,
                len as int,
            );
        }
        if len > 0 {
            let placed = self.add_partial(len);
            if let Err(e) = placed {
                return Err(e);
            }
        }
        Ok(())
    }
}

} // verus!
