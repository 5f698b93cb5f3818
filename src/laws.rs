use vstd::prelude::*;

use vstd::arithmetic::div_mod::lemma_fundamental_div_mod_converse;

use crate::molding::total_length;
use crate::molding_set::{
    best_fit,
    is_best_fit,
    lemma_after_add_wf,
    lemma_total_used_after_add,
    total_used,
    MoldingSetView,
};

verus! {

/// However many requests are made, every molding stays within its length and every
/// molding has the stock length.
pub proof fn lemma_add_all_keeps_moldings_sound(s: MoldingSetView, lengths: Seq<u16>)
    requires
        s.wf(),
    ensures
        s.after_add_all(lengths).wf(),
        s.after_add_all(lengths).fixed_piece == s.fixed_piece,
    decreases lengths.len(),
{
    if lengths.len() > 0 {
        lemma_add_all_keeps_moldings_sound(s, lengths.drop_last());
        lemma_after_add_wf(s.after_add_all(lengths.drop_last()), lengths.last());
    }
}

/// After a run of requests the pieces cut from all moldings add up to what was there
/// before plus the lengths requested: no length is lost or invented.
pub proof fn lemma_add_all_conserves_length(s: MoldingSetView, lengths: Seq<u16>)
    requires
        s.wf(),
    ensures
        total_used(s.after_add_all(lengths).set) == total_used(s.set) + total_length(lengths),
    decreases lengths.len(),
{
    if lengths.len() > 0 {
        let prev = s.after_add_all(lengths.drop_last());
        lemma_add_all_conserves_length(s, lengths.drop_last());
        lemma_add_all_keeps_moldings_sound(s, lengths.drop_last());
        lemma_total_used_after_add(prev, lengths.last());
    }
}

/// Of two moldings with the same room, enough for the piece, the later one is never the
/// one a partial piece is cut from.
pub proof fn lemma_tie_goes_to_earlier(s: MoldingSetView, length: u16, i: int, j: int)
    requires
        s.wf(),
        0 <= i < j < s.set.len(),
        s.set[i].remaining() == s.set[j].remaining(),
        s.set[j].remaining() >= length,
    ensures
        best_fit(s.set, length) != Some(j),
        s.place(length).set[j] == s.set[j],
{
    if best_fit(s.set, length) == Some(j) {
        assert(is_best_fit(s.set, length, j));
        assert(s.set[i].remaining() >= length);
    }
}

/// A request of exactly `k` stock lengths appends `k` full moldings and nothing else.
pub proof fn lemma_whole_multiple_peels_full_moldings(s: MoldingSetView, k: nat)
    requires
        s.wf(),
        k * s.fixed_piece <= u16::MAX,
    ensures
        s.after_add((k * s.fixed_piece) as u16) == s.with_full(k),
        s.after_add((k * s.fixed_piece) as u16).set.len() == s.set.len() + k,
        forall|n: int|
            s.set.len() <= n < s.set.len() + k ==> #[trigger] s.after_add(
                (k * s.fixed_piece) as u16,
            ).set[n] == s.full(),
{
    lemma_fundamental_div_mod_converse(
        (k * s.fixed_piece) as int,
        s.fixed_piece as int,
        k as int,
        0,
    );
}

} // verus!
