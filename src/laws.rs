use vstd::prelude::*;
use vstd::multiset::group_multiset_axioms;
use vstd::multiset::Multiset;
use crate::card::{Card, Suit};
use crate::pile::{face_up_run, run_start, flip_top_spec, face_down_prefix, lemma_run_start};
use crate::model::{GameModel, Command, Selection, count, foundation_ok, draw_one, face_down_all, ident, pile_ids, all_ids};

verus! {

pub proof fn lemma_count_update(ps: Seq<Seq<Card>>, i: int, p: Seq<Card>)
    requires
        0 <= i < ps.len(),
    ensures
        count(ps.update(i, p)) == count(ps) - ps[i].len() + p.len(),
    decreases ps.len(),
{
    let q = ps.update(i, p);
    if i == ps.len() - 1 {
        assert(q.drop_last() =~= ps.drop_last());
    } else {
        assert(q.drop_last() =~= ps.drop_last().update(i, p));
        lemma_count_update(ps.drop_last(), i, p);
    }
}

proof fn lemma_prefix_flip(p: Seq<Card>)
    requires
        face_down_prefix(p),
    ensures
        face_down_prefix(flip_top_spec(p)),
{
}

proof fn lemma_prefix_append(p: Seq<Card>, q: Seq<Card>)
    requires
        face_down_prefix(p),
        forall|j: int| 0 <= j < q.len() ==> (#[trigger] q[j]).face_up,
    ensures
        face_down_prefix(p + q),
{
    let r = p + q;
    assert forall|a: int, b: int| 0 <= a < b < r.len() && #[trigger] r[a].face_up implies #[trigger] r[b].face_up by {
        if b >= p.len() {
            assert(r[b] == q[b - p.len()]);
        } else {
            assert(r[a] == p[a] && r[b] == p[b]);
        }
    }
}

proof fn lemma_prefix_prefix(p: Seq<Card>, k: int)
    requires
        face_down_prefix(p),
        0 <= k <= p.len(),
    ensures
        face_down_prefix(p.subrange(0, k)),
{
    let r = p.subrange(0, k);
    assert forall|a: int, b: int| 0 <= a < b < r.len() && #[trigger] r[a].face_up implies #[trigger] r[b].face_up by {
        assert(r[a] == p[a] && r[b] == p[b]);
    }
}

proof fn lemma_draw_one_len(stock: Seq<Card>, waste: Seq<Card>)
    ensures
        draw_one(stock, waste).0.len() + draw_one(stock, waste).1.len() == stock.len() + waste.len(),
{
    if stock.len() == 0 && waste.len() > 0 {
        assert(face_down_all(waste).len() == waste.len());
    }
}

proof fn lemma_foundation_push(f: Seq<Card>, c: Card, suit: Suit)
    requires
        foundation_ok(f, suit),
        c.suit == suit,
        f.len() == 0 ==> c.rank == 1,
        f.len() > 0 ==> c.rank == f.last().rank + 1,
    ensures
        foundation_ok(f.push(c.turned(true)), suit),
{
    let g = f.push(c.turned(true));
    assert forall|j: int| 0 <= j < g.len() implies (#[trigger] g[j]).suit == suit && g[j].rank == j + 1
        && g[j].face_up by {
        if j < f.len() {
            assert(g[j] == f[j]);
        }
    }
}

/// Every command keeps a well-formed game well-formed.
pub proof fn lemma_step_wf(m: GameModel, c: Command)
    requires
        m.wf(),
    ensures
        m.step(c).wf(),
{
    let n = m.step(c);
    match c {
        Command::Quit => {},
        Command::SelectWaste => {},
        Command::DrawThree => {
            let a = draw_one(m.stock, m.waste);
            let b = draw_one(a.0, a.1);
            lemma_draw_one_len(m.stock, m.waste);
            lemma_draw_one_len(a.0, a.1);
            lemma_draw_one_len(b.0, b.1);
        },
        Command::SelectTableau(iu) => {
            let i = iu as int;
            if 0 <= i < 7 {
                match m.selection {
                    Selection::Unselected => {},
                    Selection::WasteSelected => {
                        if m.waste.len() > 0 && crate::rules::can_place_on_tableau(m.waste.last(), m.tableau[i]) {
                            let p = m.tableau[i].push(m.waste.last().turned(true));
                            lemma_count_update(m.tableau, i, p);
                            assert(face_down_prefix(m.tableau[i]));
                            assert(p == m.tableau[i] + seq![m.waste.last().turned(true)]);
                            lemma_prefix_append(m.tableau[i], seq![m.waste.last().turned(true)]);
                            assert forall|k: int| 0 <= k < 7 implies face_down_prefix(#[trigger] n.tableau[k]) by {
                                if k != i {
                                    assert(n.tableau[k] == m.tableau[k]);
                                }
                            }
                        }
                    },
                    Selection::TableauSelected(ju) => {
                        let j = ju as int;
                        if j != i {
                            let src = m.tableau[j];
                            let run = face_up_run(src);
                            lemma_run_start(src);
                            let moved = run.len() > 0 && crate::rules::can_place_on_tableau(run[0], m.tableau[i]);
                            let left = src.subrange(0, run_start(src));
                            let t1 = m.tableau.update(j, left);
                            let t = if moved { t1.update(i, m.tableau[i] + run) } else { m.tableau };
                            assert(face_down_prefix(m.tableau[i]) && face_down_prefix(src));
                            if moved {
                                lemma_count_update(m.tableau, j, left);
                                lemma_count_update(t1, i, m.tableau[i] + run);
                                assert(left.len() + run.len() == src.len());
                                lemma_prefix_prefix(src, run_start(src));
                                assert forall|q: int| 0 <= q < run.len() implies (#[trigger] run[q]).face_up by {
                                    assert(run[q] == src[run_start(src) + q]);
                                }
                                lemma_prefix_append(m.tableau[i], run);
                            }
                            assert(forall|k: int| 0 <= k < 7 ==> face_down_prefix(#[trigger] t[k]));
                            lemma_prefix_flip(t[j]);
                            lemma_count_update(t, j, flip_top_spec(t[j]));
                            assert forall|k: int| 0 <= k < 7 implies face_down_prefix(#[trigger] n.tableau[k]) by {
                                if k != j {
                                    assert(n.tableau[k] == t[k]);
                                }
                            }
                        }
                    },
                }
            }
        },
        Command::SendToFoundation(su) => {
            let s = su as int;
            match m.selection {
                Selection::Unselected => {},
                Selection::WasteSelected => {
                    if 0 <= s < 4 && m.waste.len() > 0 && crate::rules::can_place_on_foundation(
                        m.waste.last(),
                        Suit::from_index_spec(s),
                        m.foundation[s],
                    ) {
                        let p = m.foundation[s].push(m.waste.last().turned(true));
                        lemma_count_update(m.foundation, s, p);
                        assert(foundation_ok(m.foundation[s], Suit::from_index_spec(s)));
                        lemma_foundation_push(m.foundation[s], m.waste.last(), Suit::from_index_spec(s));
                        assert forall|k: int| 0 <= k < 4 implies foundation_ok(
                            #[trigger] n.foundation[k],
                            Suit::from_index_spec(k),
                        ) by {
                            if k != s {
                                assert(n.foundation[k] == m.foundation[k]);
                            }
                        }
                    }
                },
                Selection::TableauSelected(ju) => {
                    let j = ju as int;
                    let src = m.tableau[j];
                    if 0 <= s < 4 && src.len() > 0 && crate::rules::can_place_on_foundation(
                        src.last(),
                        Suit::from_index_spec(s),
                        m.foundation[s],
                    ) {
                        let p = m.foundation[s].push(src.last().turned(true));
                        lemma_count_update(m.foundation, s, p);
                        lemma_count_update(m.tableau, j, flip_top_spec(src.drop_last()));
                        assert(foundation_ok(m.foundation[s], Suit::from_index_spec(s)));
                        lemma_foundation_push(m.foundation[s], src.last(), Suit::from_index_spec(s));
                        assert forall|k: int| 0 <= k < 4 implies foundation_ok(
                            #[trigger] n.foundation[k],
                            Suit::from_index_spec(k),
                        ) by {
                            if k != s {
                                assert(n.foundation[k] == m.foundation[k]);
                            }
                        }
                        assert(face_down_prefix(src));
                        assert(src.drop_last() == src.subrange(0, src.len() - 1));
                        lemma_prefix_prefix(src, src.len() - 1);
                        lemma_prefix_flip(src.drop_last());
                        assert forall|k: int| 0 <= k < 7 implies face_down_prefix(#[trigger] n.tableau[k]) by {
                            if k != j {
                                assert(n.tableau[k] == m.tableau[k]);
                            }
                        }
                    }
                },
            }
        },
    }
}

/// Any sequence of commands keeps a well-formed game well-formed.
pub proof fn lemma_run_wf(m: GameModel, cs: Seq<Command>)
    requires
        m.wf(),
    ensures
        m.run(cs).wf(),
    decreases cs.len(),
{
    if cs.len() > 0 {
        lemma_step_wf(m, cs[0]);
        lemma_run_wf(m.step(cs[0]), cs.drop_first());
    }
}

/// After any sequence of commands from a well-formed game, the piles hold 52 cards in all.
pub proof fn law_card_count_preserved(m: GameModel, cs: Seq<Command>)
    requires
        m.wf(),
    ensures
        m.run(cs).total_cards() == 52,
{
    lemma_run_wf(m, cs);
}

/// After any sequence of commands from a well-formed game, each foundation pile is empty or
/// Ace, 2, 3, ... of its slot's suit.
pub proof fn law_foundations_ordered(m: GameModel, cs: Seq<Command>)
    requires
        m.wf(),
    ensures
        forall|s: int| 0 <= s < 4 ==> foundation_ok(#[trigger] m.run(cs).foundation[s], Suit::from_index_spec(s)),
        forall|s: int, j: int| 0 <= s < 4 && 0 < j < m.run(cs).foundation[s].len()
            ==> #[trigger] m.run(cs).foundation[s][j].rank == m.run(cs).foundation[s][j - 1].rank + 1,
{
    lemma_run_wf(m, cs);
    let f = m.run(cs).foundation;
    assert forall|s: int, j: int| 0 <= s < 4 && 0 < j < f[s].len() implies #[trigger] f[s][j].rank == f[s][j - 1].rank + 1 by {
        assert(foundation_ok(f[s], Suit::from_index_spec(s)));
    }
}

/// After any sequence of commands from a well-formed game, no face-up card of a tableau pile
/// lies below a face-down one.
pub proof fn law_tableau_face_down_prefix(m: GameModel, cs: Seq<Command>)
    requires
        m.wf(),
    ensures
        forall|i: int| 0 <= i < 7 ==> face_down_prefix(#[trigger] m.run(cs).tableau[i]),
{
    lemma_run_wf(m, cs);
}

/// With nothing selected, selecting the same tableau pile twice leaves the game as it was.
pub proof fn law_select_tableau_twice(m: GameModel, i: usize)
    requires
        m.wf(),
        m.selection == Selection::Unselected,
        i < 7,
    ensures
        m.step(Command::SelectTableau(i)).step(Command::SelectTableau(i)) == m,
{
}

proof fn lemma_count_empty(ps: Seq<Seq<Card>>)
    requires
        forall|i: int| 0 <= i < ps.len() ==> (#[trigger] ps[i]).len() == 0,
    ensures
        count(ps) == 0,
    decreases ps.len(),
{
    if ps.len() > 0 {
        assert forall|i: int| 0 <= i < ps.drop_last().len() implies (#[trigger] ps.drop_last()[i]).len() == 0 by {
            assert(ps.drop_last()[i] == ps[i]);
        }
        lemma_count_empty(ps.drop_last());
    }
}

/// A won game holds all 52 cards on its foundations.
pub proof fn law_won_means_all_on_foundations(m: GameModel)
    requires
        m.wf(),
        m.is_won(),
    ensures
        count(m.foundation) == 52,
{
    lemma_count_empty(m.tableau);
}

proof fn lemma_pile_ids_concat(p: Seq<Card>, q: Seq<Card>)
    ensures
        pile_ids(p + q) == pile_ids(p).add(pile_ids(q)),
    decreases q.len(),
{
    broadcast use group_multiset_axioms;

    if q.len() == 0 {
        assert(p + q =~= p);
        assert(pile_ids(p).add(pile_ids(q)) =~= pile_ids(p));
    } else {
        assert((p + q).drop_last() =~= p + q.drop_last());
        lemma_pile_ids_concat(p, q.drop_last());
        assert(pile_ids(p + q) =~= pile_ids(p).add(pile_ids(q)));
    }
}

proof fn lemma_pile_ids_same_idents(p: Seq<Card>, q: Seq<Card>)
    requires
        p.len() == q.len(),
        forall|i: int| 0 <= i < p.len() ==> ident(#[trigger] p[i]) == ident(q[i]),
    ensures
        pile_ids(p) == pile_ids(q),
    decreases p.len(),
{
    if p.len() > 0 {
        assert forall|i: int| 0 <= i < p.drop_last().len() implies ident(#[trigger] p.drop_last()[i]) == ident(
            q.drop_last()[i],
        ) by {
            assert(p.drop_last()[i] == p[i] && q.drop_last()[i] == q[i]);
        }
        lemma_pile_ids_same_idents(p.drop_last(), q.drop_last());
        assert(ident(p.last()) == ident(q.last()));
    }
}

proof fn lemma_all_ids_update(ps: Seq<Seq<Card>>, i: int, p: Seq<Card>)
    requires
        0 <= i < ps.len(),
    ensures
        all_ids(ps.update(i, p)).add(pile_ids(ps[i])) == all_ids(ps).add(pile_ids(p)),
    decreases ps.len(),
{
    broadcast use group_multiset_axioms;

    let q = ps.update(i, p);
    if i == ps.len() - 1 {
        assert(q.drop_last() =~= ps.drop_last());
        assert(all_ids(q).add(pile_ids(ps[i])) =~= all_ids(ps).add(pile_ids(p)));
    } else {
        assert(q.drop_last() =~= ps.drop_last().update(i, p));
        lemma_all_ids_update(ps.drop_last(), i, p);
        assert(q.last() == ps.last());
        assert(ps.drop_last()[i] == ps[i]);
        let a = all_ids(q.drop_last());
        let b = all_ids(ps.drop_last());
        assert(all_ids(q) == a.add(pile_ids(ps.last())));
        assert(all_ids(ps) == b.add(pile_ids(ps.last())));
        assert(a.add(pile_ids(ps[i])) == b.add(pile_ids(p)));
        assert forall|x: (Suit, u8)| #[trigger] all_ids(q).add(pile_ids(ps[i])).count(x) == all_ids(ps).add(pile_ids(p)).count(x) by {
            assert(a.add(pile_ids(ps[i])).count(x) == b.add(pile_ids(p)).count(x));
        }
        assert(all_ids(q).add(pile_ids(ps[i])) =~= all_ids(ps).add(pile_ids(p)));
    }
}

pub proof fn lemma_flip_ids(p: Seq<Card>)
    ensures
        pile_ids(flip_top_spec(p)) == pile_ids(p),
{
    lemma_pile_ids_same_idents(flip_top_spec(p), p);
}

pub proof fn lemma_push_ids(p: Seq<Card>, c: Card)
    ensures
        pile_ids(p.push(c)) == pile_ids(p).insert(ident(c)),
{
    assert(p.push(c).drop_last() =~= p);
}

proof fn lemma_draw_one_ids(stock: Seq<Card>, waste: Seq<Card>)
    ensures
        pile_ids(draw_one(stock, waste).0).add(pile_ids(draw_one(stock, waste).1)) == pile_ids(stock).add(
            pile_ids(waste),
        ),
{
    broadcast use group_multiset_axioms;

    let r = draw_one(stock, waste);
    if stock.len() > 0 {
        lemma_push_ids(waste, stock.last().turned(true));
        assert(pile_ids(r.0).add(pile_ids(r.1)) =~= pile_ids(stock).add(pile_ids(waste)));
    } else if waste.len() > 0 {
        let s = face_down_all(waste);
        lemma_pile_ids_same_idents(s, waste);
        lemma_push_ids(Seq::empty(), s.last().turned(true));
        assert(seq![s.last().turned(true)] =~= Seq::<Card>::empty().push(s.last().turned(true)));
        assert(pile_ids(r.0).add(pile_ids(r.1)) =~= pile_ids(stock).add(pile_ids(waste)));
    }
}

proof fn lemma_add_cancel(a: Multiset<(Suit, u8)>, b: Multiset<(Suit, u8)>, c: Multiset<(Suit, u8)>, d: Multiset<(Suit, u8)>)
    requires
        a.add(b) == c.add(d),
    ensures
        b == d ==> a == c,
        forall|v: (Suit, u8)| d == b.insert(v) ==> a == c.insert(v),
{
    broadcast use group_multiset_axioms;

    if b == d {
        assert forall|x: (Suit, u8)| #[trigger] a.count(x) == c.count(x) by {
            assert(a.add(b).count(x) == a.count(x) + b.count(x));
            assert(c.add(d).count(x) == c.count(x) + d.count(x));
            assert(a.add(b).count(x) == c.add(d).count(x));
        }
        assert(a =~= c);
    }
    assert forall|v: (Suit, u8)| d == b.insert(v) implies a == c.insert(v) by {
        assert forall|x: (Suit, u8)| #[trigger] a.count(x) == c.insert(v).count(x) by {
            let one = Multiset::<(Suit, u8)>::singleton(v);
            assert(a.add(b).count(x) == a.count(x) + b.count(x));
            assert(c.add(d).count(x) == c.count(x) + d.count(x));
            assert(b.add(one).count(x) == b.count(x) + one.count(x));
            assert(c.add(one).count(x) == c.count(x) + one.count(x));
            assert(a.add(b).count(x) == c.add(d).count(x));
        }
        assert(a =~= c.insert(v));
    }
}

/// Every command keeps the multiset of card identities of a well-formed game.
pub proof fn lemma_step_ids(m: GameModel, c: Command)
    requires
        m.wf(),
    ensures
        m.step(c).ids() == m.ids(),
{
    broadcast use group_multiset_axioms;

    let n = m.step(c);
    match c {
        Command::Quit => {},
        Command::SelectWaste => {},
        Command::DrawThree => {
            let a = draw_one(m.stock, m.waste);
            let b = draw_one(a.0, a.1);
            lemma_draw_one_ids(m.stock, m.waste);
            lemma_draw_one_ids(a.0, a.1);
            lemma_draw_one_ids(b.0, b.1);
        },
        Command::SelectTableau(iu) => {
            let i = iu as int;
            if 0 <= i < 7 {
                match m.selection {
                    Selection::Unselected => {},
                    Selection::WasteSelected => {
                        if m.waste.len() > 0 && crate::rules::can_place_on_tableau(m.waste.last(), m.tableau[i]) {
                            let card = m.waste.last();
                            let p = m.tableau[i].push(card.turned(true));
                            lemma_push_ids(m.tableau[i], card.turned(true));
                            lemma_all_ids_update(m.tableau, i, p);
                            lemma_add_cancel(all_ids(n.tableau), pile_ids(m.tableau[i]), all_ids(m.tableau), pile_ids(p));
                            assert(pile_ids(m.waste) == pile_ids(m.waste.drop_last()).insert(ident(card)));
                        }
                    },
                    Selection::TableauSelected(ju) => {
                        let j = ju as int;
                        if j != i {
                            let src = m.tableau[j];
                            let run = face_up_run(src);
                            lemma_run_start(src);
                            let moved = run.len() > 0 && crate::rules::can_place_on_tableau(run[0], m.tableau[i]);
                            let left = src.subrange(0, run_start(src));
                            let t1 = m.tableau.update(j, left);
                            let t = if moved { t1.update(i, m.tableau[i] + run) } else { m.tableau };
                            if moved {
                                assert(src =~= left + run);
                                lemma_pile_ids_concat(left, run);
                                lemma_all_ids_update(m.tableau, j, left);
                                lemma_all_ids_update(t1, i, m.tableau[i] + run);
                                assert(t1[i] == m.tableau[i]);
                                lemma_pile_ids_concat(m.tableau[i], run);
                                assert forall|x: (Suit, u8)| #[trigger] all_ids(t).count(x) == all_ids(m.tableau).count(x) by {
                                    assert(all_ids(t1).add(pile_ids(src)).count(x) == all_ids(m.tableau).add(pile_ids(left)).count(x));
                                    assert(all_ids(t).add(pile_ids(m.tableau[i])).count(x) == all_ids(t1).add(pile_ids(m.tableau[i] + run)).count(x));
                                }
                                assert(all_ids(t) =~= all_ids(m.tableau));
                            }
                            lemma_flip_ids(t[j]);
                            lemma_all_ids_update(t, j, flip_top_spec(t[j]));
                            lemma_add_cancel(all_ids(n.tableau), pile_ids(t[j]), all_ids(t), pile_ids(flip_top_spec(t[j])));
                        }
                    },
                }
            }
        },
        Command::SendToFoundation(su) => {
            let s = su as int;
            match m.selection {
                Selection::Unselected => {},
                Selection::WasteSelected => {
                    if 0 <= s < 4 && m.waste.len() > 0 && crate::rules::can_place_on_foundation(
                        m.waste.last(),
                        Suit::from_index_spec(s),
                        m.foundation[s],
                    ) {
                        let card = m.waste.last();
                        let p = m.foundation[s].push(card.turned(true));
                        lemma_push_ids(m.foundation[s], card.turned(true));
                        lemma_all_ids_update(m.foundation, s, p);
                        lemma_add_cancel(all_ids(n.foundation), pile_ids(m.foundation[s]), all_ids(m.foundation), pile_ids(p));
                        assert(pile_ids(m.waste) == pile_ids(m.waste.drop_last()).insert(ident(card)));
                    }
                },
                Selection::TableauSelected(ju) => {
                    let j = ju as int;
                    let src = m.tableau[j];
                    if 0 <= s < 4 && src.len() > 0 && crate::rules::can_place_on_foundation(
                        src.last(),
                        Suit::from_index_spec(s),
                        m.foundation[s],
                    ) {
                        let p = m.foundation[s].push(src.last().turned(true));
                        lemma_push_ids(m.foundation[s], src.last().turned(true));
                        lemma_all_ids_update(m.foundation, s, p);
                        lemma_flip_ids(src.drop_last());
                        lemma_all_ids_update(m.tableau, j, flip_top_spec(src.drop_last()));
                        lemma_add_cancel(all_ids(n.foundation), pile_ids(m.foundation[s]), all_ids(m.foundation), pile_ids(p));
                        assert(pile_ids(src) == pile_ids(src.drop_last()).insert(ident(src.last())));
                        lemma_add_cancel(all_ids(m.tableau), pile_ids(src.drop_last()), all_ids(n.tableau), pile_ids(src));
                    }
                },
            }
        },
    }
    assert(n.ids() =~= m.ids());
}

/// After any sequence of commands from a well-formed game, the game holds the same cards:
/// none is lost or duplicated.
pub proof fn law_cards_preserved(m: GameModel, cs: Seq<Command>)
    requires
        m.wf(),
    ensures
        m.run(cs).ids() == m.ids(),
    decreases cs.len(),
{
    if cs.len() > 0 {
        lemma_step_ids(m, cs[0]);
        lemma_step_wf(m, cs[0]);
        law_cards_preserved(m.step(cs[0]), cs.drop_first());
    }
}

/// Moving one card of identity `v` from `a` to `b` keeps `a + b + rest`.
pub proof fn lemma_move_one(
    a_old: Multiset<(Suit, u8)>,
    a_new: Multiset<(Suit, u8)>,
    b_old: Multiset<(Suit, u8)>,
    b_new: Multiset<(Suit, u8)>,
    rest: Multiset<(Suit, u8)>,
    v: (Suit, u8),
)
    requires
        a_old == a_new.insert(v),
        b_new == b_old.insert(v),
    ensures
        a_new.add(b_new).add(rest) == a_old.add(b_old).add(rest),
{
    broadcast use group_multiset_axioms;

    let one = Multiset::<(Suit, u8)>::singleton(v);
    assert forall|x: (Suit, u8)| #[trigger] a_new.add(b_new).add(rest).count(x) == a_old.add(b_old).add(rest).count(x) by {
        assert(a_new.add(b_new).add(rest).count(x) == a_new.add(b_new).count(x) + rest.count(x));
        assert(a_old.add(b_old).add(rest).count(x) == a_old.add(b_old).count(x) + rest.count(x));
        assert(a_new.add(b_new).count(x) == a_new.count(x) + b_new.count(x));
        assert(a_old.add(b_old).count(x) == a_old.count(x) + b_old.count(x));
        assert(a_new.add(one).count(x) == a_new.count(x) + one.count(x));
        assert(b_old.add(one).count(x) == b_old.count(x) + one.count(x));
    }
    assert(a_new.add(b_new).add(rest) =~= a_old.add(b_old).add(rest));
}

/// `a + b + c` regrouped as `a + (c + b)`.
pub proof fn lemma_regroup(a: Multiset<(Suit, u8)>, b: Multiset<(Suit, u8)>, c: Multiset<(Suit, u8)>)
    ensures
        a.add(b).add(c) == a.add(c.add(b)),
{
    broadcast use group_multiset_axioms;

    assert forall|x: (Suit, u8)| #[trigger] a.add(b).add(c).count(x) == a.add(c.add(b)).count(x) by {
        assert(a.add(b).add(c).count(x) == a.add(b).count(x) + c.count(x));
        assert(a.add(b).count(x) == a.count(x) + b.count(x));
        assert(a.add(c.add(b)).count(x) == a.count(x) + c.add(b).count(x));
        assert(c.add(b).count(x) == c.count(x) + b.count(x));
    }
    assert(a.add(b).add(c) =~= a.add(c.add(b)));
}

proof fn lemma_pile_ids_remove(q: Seq<Card>, k: int)
    requires
        0 <= k < q.len(),
    ensures
        pile_ids(q) == pile_ids(q.remove(k)).insert(ident(q[k])),
{
    broadcast use group_multiset_axioms;

    let a = q.subrange(0, k);
    let b = q.subrange(k + 1, q.len() as int);
    let one = seq![q[k]];
    assert(q =~= a + (one + b));
    assert(q.remove(k) =~= a + b);
    lemma_pile_ids_concat(a, one + b);
    lemma_pile_ids_concat(one, b);
    lemma_pile_ids_concat(a, b);
    lemma_push_ids(Seq::empty(), q[k]);
    assert(one =~= Seq::<Card>::empty().push(q[k]));
    let single = Multiset::<(Suit, u8)>::singleton(ident(q[k]));
    assert forall|x: (Suit, u8)| #[trigger] pile_ids(q).count(x) == pile_ids(q.remove(k)).insert(ident(q[k])).count(x) by {
        assert(pile_ids(a).add(pile_ids(one + b)).count(x) == pile_ids(a).count(x) + pile_ids(one + b).count(x));
        assert(pile_ids(one).add(pile_ids(b)).count(x) == pile_ids(one).count(x) + pile_ids(b).count(x));
        assert(pile_ids(a).add(pile_ids(b)).count(x) == pile_ids(a).count(x) + pile_ids(b).count(x));
        assert(pile_ids(a + b).add(single).count(x) == pile_ids(a + b).count(x) + single.count(x));
        assert(Multiset::<(Suit, u8)>::empty().add(single).count(x) == single.count(x));
    }
    assert(pile_ids(q) =~= pile_ids(q.remove(k)).insert(ident(q[k])));
}

/// Two orderings of the same cards hold the same identities.
pub proof fn lemma_same_multiset_ids(p: Seq<Card>, q: Seq<Card>)
    requires
        p.to_multiset() == q.to_multiset(),
    ensures
        pile_ids(p) == pile_ids(q),
    decreases p.len(),
{
    broadcast use vstd::seq_lib::group_to_multiset_ensures;

    if p.len() == 0 {
        assert(p.to_multiset().len() == p.len());
        assert(q.to_multiset().len() == q.len());
        assert(p =~= q);
    } else {
        let x = p.last();
        let p1 = p.drop_last();
        assert(p1.push(x) =~= p);
        assert(p.to_multiset() =~= p1.to_multiset().insert(x));
        assert(q.to_multiset().count(x) > 0) by {
            broadcast use group_multiset_axioms;
        }
        assert(q.contains(x));
        let k = choose|k: int| 0 <= k < q.len() && q[k] == x;
        let q1 = q.remove(k);
        assert(q1.to_multiset() =~= q.to_multiset().remove(x));
        assert(p1.to_multiset() =~= q1.to_multiset()) by {
            broadcast use group_multiset_axioms;
        }
        lemma_same_multiset_ids(p1, q1);
        lemma_pile_ids_remove(q, k);
    }
}

} // verus!
