use vstd::prelude::*;
use crate::card::Card;

verus! {

/// The top card of a pile (its last element), if any.
pub open spec fn top_spec(p: Seq<Card>) -> Option<Card> {
    if p.len() == 0 {
        None
    } else {
        Some(p.last())
    }
}

/// Start of the maximal face-up suffix of a pile.
pub open spec fn run_start(p: Seq<Card>) -> int
    decreases p.len(),
{
    if p.len() == 0 || !p.last().face_up {
        p.len() as int
    } else {
        run_start(p.drop_last())
    }
}

/// The maximal face-up suffix of a pile, bottom card first.
pub open spec fn face_up_run(p: Seq<Card>) -> Seq<Card> {
    p.subrange(run_start(p), p.len() as int)
}

/// The pile with its top card turned face up (unchanged when empty).
pub open spec fn flip_top_spec(p: Seq<Card>) -> Seq<Card> {
    if p.len() == 0 {
        p
    } else {
        p.update(p.len() - 1, p.last().turned(true))
    }
}

/// Face-down cards of a pile form a prefix: no face-up card lies below a face-down one.
pub open spec fn face_down_prefix(p: Seq<Card>) -> bool {
    forall|a: int, b: int| 0 <= a < b < p.len() && #[trigger] p[a].face_up ==> #[trigger] p[b].face_up
}

pub proof fn lemma_run_start(p: Seq<Card>)
    ensures
        0 <= run_start(p) <= p.len(),
        forall|j: int| run_start(p) <= j < p.len() ==> #[trigger] p[j].face_up,
        run_start(p) == 0 || !p[run_start(p) - 1].face_up,
    decreases p.len(),
{
    if p.len() > 0 && p.last().face_up {
        lemma_run_start(p.drop_last());
        assert forall|j: int| run_start(p) <= j < p.len() implies #[trigger] p[j].face_up by {
            if j < p.len() - 1 {
                assert(p.drop_last()[j] == p[j]);
            }
        }
    }
}

pub fn get_top_of_pile_card(pile: &Vec<Card>) -> (r: Option<Card>)
    ensures
        r == top_spec(pile@),
{
    if pile.len() == 0 {
        None
    } else {
        Some(pile[pile.len() - 1])
    }
}

pub fn draw_card_from_pile(pile: &mut Vec<Card>) -> (r: Option<Card>)
    ensures
        r == top_spec(old(pile)@),
        old(pile)@.len() == 0 ==> final(pile)@ == old(pile)@,
        old(pile)@.len() > 0 ==> final(pile)@ == old(pile)@.drop_last(),
{
    pile.pop()
}

pub fn flip_top_card_in_pile(pile: &mut Vec<Card>)
    ensures
        final(pile)@ == flip_top_spec(old(pile)@),
{
    let n = pile.len();
    if n > 0 {
        let c = pile[n - 1];
        pile.set(n - 1, Card { suit: c.suit, rank: c.rank, face_up: true });
    }
}

/// Moves every card of `source`, in order, onto `target`.
pub fn place_pile_on_pile(source: Vec<Card>, target: &mut Vec<Card>)
    ensures
        final(target)@ == old(target)@ + source@,
{
    let mut source = source;
    target.append(&mut source);
}

/// Index where the maximal face-up suffix of the pile starts.
pub fn face_up_run_start(pile: &Vec<Card>) -> (k: usize)
    ensures
        k == run_start(pile@),
{
    let mut k = pile.len();
    proof {
        assert(pile@.subrange(0, k as int) =~= pile@);
    }
    while k > 0 && pile[k - 1].face_up
        invariant
            k <= pile@.len(),
            run_start(pile@) == run_start(pile@.subrange(0, k as int)),
        decreases k,
    {
        assert(pile@.subrange(0, k as int).drop_last() =~= pile@.subrange(0, k - 1));
        k = k - 1;
    }
    k
}

/// A copy of the pile's maximal face-up suffix.
pub fn get_flipped_pile(pile: &Vec<Card>) -> (r: Vec<Card>)
    ensures
        r@ == face_up_run(pile@),
{
    let k = face_up_run_start(pile);
    proof {
        lemma_run_start(pile@);
    }
    let mut r: Vec<Card> = Vec::new();
    let mut i = k;
    while i < pile.len()
        invariant
            k <= i <= pile@.len(),
            k == run_start(pile@),
            r@ == pile@.subrange(k as int, i as int),
        decreases pile@.len() - i,
    {
        r.push(pile[i]);
        i = i + 1;
        assert(r@ =~= pile@.subrange(k as int, i as int));
    }
    r
}

/// Removes the pile's maximal face-up suffix and returns it, bottom card first.
pub fn draw_flipped_pile(pile: &mut Vec<Card>) -> (r: Vec<Card>)
    ensures
        r@ == face_up_run(old(pile)@),
        final(pile)@ == old(pile)@.subrange(0, run_start(old(pile)@)),
{
    let k = face_up_run_start(pile);
    proof {
        lemma_run_start(pile@);
    }
    pile.split_off(k)
}

} // verus!
