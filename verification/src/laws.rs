use vstd::prelude::*;

use crate::board::{
    chain_pair, cleared_utility, first_none_from, is_card, is_num_of, jacks_cleared,
    keeps_non_jack, move_applied, pile_ok, pile_suit, pile_weight, run_in_order, slot_weight,
    stack_chained, stack_weight, stacks_filtered, tail_jack_weight, util_jack_weight, Board,
};
use crate::card::{jack_of, Card, CardOrJacks, Jacks, NumCard, Suit};
use crate::counting::{
    count_where, lemma_count_range_split, lemma_count_where_concat, lemma_count_where_drop_last,
    lemma_count_where_filter_dropped, lemma_count_where_filter_kept, lemma_count_where_push,
    lemma_count_where_subrange, lemma_count_where_zero, lemma_filter_all_kept,
    lemma_filter_drops_last, lemma_sum_over_elemwise, lemma_sum_over_le,
    lemma_sum_over_one_changed, lemma_sum_over_squeeze, lemma_sum_over_zero, sum_over,
};
use crate::gamemove::{ClickTarget, Move};

verus! {

/// Where a slot search lands: inside the row, on an empty slot, with only
/// full slots before it.
proof fn lemma_first_none_from_props(us: Seq<Option<CardOrJacks>>, from: int)
    requires
        0 <= from,
    ensures
        match first_none_from(us, from) {
            Some(i) => from <= i < us.len() && us[i] is None,
            None => forall|j: int| from <= j < us.len() ==> !((#[trigger] us[j]) is None),
        },
    decreases us.len() - from,
{
    if from < us.len() && !(us[from] is None) {
        lemma_first_none_from_props(us, from + 1);
    }
}

/// Whether the move would start a foundation pile with a card of another
/// suit than the pile's fixed one. Only such moves can upset the fixed
/// suit-to-pile assignment that the autosweep relies on.
pub open spec fn keeps_alignment(pre: Board, m: Move) -> bool {
    match (m.src, m.dst) {
        (Some(ClickTarget::Utility(u)), Some(ClickTarget::Ordered(o))) => {
            pre.pile_seq(o.spec_idx()).len() > 0 || (match pre.slot(u.spec_idx()) {
                Some(CardOrJacks::Card(Card::Num(n))) => n.spec_suit() == pile_suit(o.spec_idx()),
                _ => true,
            })
        },
        (Some(ClickTarget::Stack(sp)), Some(ClickTarget::Ordered(o))) => {
            pre.pile_seq(o.spec_idx()).len() > 0 || (pre.stack_seq(sp.stack.spec_idx()).len() > 0
                && match pre.stack_seq(sp.stack.spec_idx()).last() {
                Card::Num(n) => n.spec_suit() == pile_suit(o.spec_idx()),
                _ => true,
            })
        },
        _ => true,
    }
}

/// Clearing a suit's jacks keeps every card count: the four jacks that
/// leave the stacks and slots live on inside the bundle.
proof fn lemma_clear_jacks_preserves(pre: Board, post: Board, s: Suit)
    requires
        pre.inv(),
        pre.spec_validate_jack(s) is Ok,
        jacks_cleared(pre, post, s),
        post.wf(),
    ensures
        forall|c: Card| #[trigger] post.card_count(c) == pre.card_count(c),
        post.foundations_ok(),
        post.aligned(),
        post.joker_ok(),
        pre.chains_ok() ==> post.chains_ok(),
{
    let jc = jack_of(s);
    let sv = pre.stacks_view();
    let us = pre.utility@;
    // The stacks hold at least one jack per jack tail, the slots at least
    // one per jack single.
    assert forall|i: int|
        0 <= i < 8 implies tail_jack_weight(s)(sv[i]) <= stack_weight(jc)(sv[i]) by {
        if sv[i].len() > 0 && sv[i].last() == jc {
            lemma_count_where_zero(sv[i], is_card(jc));
            assert(is_card(jc)(sv[i][sv[i].len() - 1]));
        }
    }
    lemma_sum_over_le(sv, tail_jack_weight(s), stack_weight(jc), 8);
    assert forall|i: int|
        0 <= i < 3 implies util_jack_weight(s)(us[i]) <= slot_weight(jc)(us[i]) by {}
    lemma_sum_over_le(us, util_jack_weight(s), slot_weight(jc), 3);
    // Piles and the joker slot never hold a jack.
    assert forall|i: int| 0 <= i < 3 implies pile_weight(jc)(pre.piles_view()[i]) == 0 by {
        lemma_count_where_zero(pre.piles_view()[i], is_num_of(jc));
    }
    lemma_sum_over_zero(pre.piles_view(), pile_weight(jc), 3);
    assert(pre.joker != Some(jc));
    // Exactly four jacks exist, and the validator saw all four on tails or
    // in slots: so none is buried and no second bundle exists.
    assert(pre.card_count(jc) == 4);
    assert(pre.tail_jacks(s) + pre.util_jacks(s) == 4);
    assert(sum_over(sv, stack_weight(jc), 8) == pre.tail_jacks(s));
    assert(sum_over(us, slot_weight(jc), 3) == pre.util_jacks(s));
    lemma_sum_over_squeeze(sv, tail_jack_weight(s), stack_weight(jc), 8);
    lemma_sum_over_squeeze(us, util_jack_weight(s), slot_weight(jc), 3);
    // The cleared utility row and the bundle slot.
    let cl = cleared_utility(us, s);
    assert(cl.len() == 3);
    // Some slot of the cleared row is open.
    assert(pre.util_jacks(s) + pre.open_slots() > 0);
    assert(exists|i: int| 0 <= i < 3 && (#[trigger] cl[i]) is None) by {
        if pre.util_jacks(s) > 0 {
            crate::counting::lemma_sum_over_pos(us, util_jack_weight(s), 3);
            let i = choose|i: int| 0 <= i < 3 && util_jack_weight(s)(us[i]) > 0;
            assert(us[i] == Some(CardOrJacks::Card(jc)));
            assert(cl[i] is None);
        } else {
            crate::counting::lemma_sum_over_pos(us, crate::board::open_slot_weight(), 3);
            let i = choose|i: int|
                0 <= i < 3 && crate::board::open_slot_weight()(us[i]) > 0;
            assert(us[i] is None);
            assert(cl[i] is None);
        }
    }
    lemma_first_none_from_props(cl, 0);
    let i0 = choose|i: int| 0 <= i < 3 && (#[trigger] cl[i]) is None;
    assert(first_none_from(cl, 0) is Some) by {
        if first_none_from(cl, 0) is None {
            assert(!(cl[i0] is None));
        }
    }
    let b0 = choose|i: int| first_none_from(cl, 0) == Some(i);
    assert(first_none_from(cl, 0) == Some(b0));
    assert(0 <= b0 < 3 && cl[b0] is None);
    assert(post.utility@ == cl.update(b0, Some(CardOrJacks::Jacks(Jacks::spec_from_suit(s)))));
    // Conservation, card by card.
    assert forall|c: Card| #[trigger] post.card_count(c) == pre.card_count(c) by {
        // stacks
        assert forall|t: int| 0 <= t < 8 implies post.stacks_view()[t] == (
        #[trigger] sv[t]).filter(keeps_non_jack(s)) by {
            assert(post.stacks_view()[t] == stacks_filtered(sv, s)[t]);
        }
        if c == jc {
            assert forall|t: int|
                0 <= t < 8 implies stack_weight(c)(post.stacks_view()[t]) == 0 by {
                lemma_count_where_filter_dropped(sv[t], keeps_non_jack(s), is_card(jc));
            }
            lemma_sum_over_zero(post.stacks_view(), stack_weight(c), 8);
            // utility: all jack singles cleared, one bundle of four added
            assert forall|i: int| 0 <= i < 3 implies slot_weight(jc)(cl[i]) == 0 by {
                assert(slot_weight(jc)(us[i]) == util_jack_weight(s)(us[i]));
            }
            lemma_sum_over_zero(cl, slot_weight(jc), 3);
            lemma_sum_over_one_changed(cl, post.utility@, slot_weight(jc), b0, 3);
            assert(slot_weight(jc)(post.utility@[b0]) == 4);
            assert(sum_over(post.utility@, slot_weight(jc), 3) == 4);
            // piles and joker unchanged
            assert(sum_over(post.piles_view(), pile_weight(c), 3) == sum_over(
                pre.piles_view(),
                pile_weight(c),
                3,
            ));
            assert(post.card_count(jc) == 4);
        } else {
            assert forall|t: int|
                0 <= t < 8 implies stack_weight(c)(post.stacks_view()[t]) == stack_weight(c)(
                sv[t],
            ) by {
                assert forall|x: Card| #[trigger] is_card(c)(x) ==> keeps_non_jack(s)(x) by {}
                lemma_count_where_filter_kept(sv[t], keeps_non_jack(s), is_card(c));
            }
            lemma_sum_over_elemwise(post.stacks_view(), sv, stack_weight(c), 8);
            assert forall|i: int| 0 <= i < 3 implies slot_weight(c)(cl[i]) == slot_weight(c)(
                us[i],
            ) by {}
            lemma_sum_over_elemwise(cl, us, slot_weight(c), 3);
            lemma_sum_over_one_changed(cl, post.utility@, slot_weight(c), b0, 3);
            assert(slot_weight(c)(post.utility@[b0]) == 0);
            assert(slot_weight(c)(cl[b0]) == 0);
        }
    }
    // Foundations, alignment, joker: piles and the joker slot are not
    // touched by a clearing.
    assert forall|t: int| 0 <= t < 3 implies pile_ok(#[trigger] post.pile_seq(t)) && post.pile_seq(
        t,
    ) == pre.pile_seq(t) by {
        assert(post.piles_view()[t] == post.pile_seq(t));
        assert(pre.piles_view()[t] == pre.pile_seq(t));
        assert(post.piles_view()[t] == pre.piles_view()[t]);
        assert(pile_ok(pre.pile_seq(t)));
    }
    assert(post.aligned()) by {
        assert forall|t: int|
            0 <= t < 3 && (#[trigger] post.pile_seq(t)).len() > 0 implies post.pile_seq(
            t,
        )[0].spec_suit() == pile_suit(t) by {
            assert(post.piles_view()[t] == post.pile_seq(t));
            assert(pre.piles_view()[t] == pre.pile_seq(t));
            assert(post.piles_view()[t] == pre.piles_view()[t]);
        }
    }
    // Chains: a cleared jack only ever sat on a stack top, so each stack
    // either keeps its cards or loses its top one.
    if pre.chains_ok() {
        assert forall|t: int| 0 <= t < 8 implies stack_chained(#[trigger] post.stack_seq(t)) by {
            assert(post.stacks_view()[t] == stacks_filtered(sv, s)[t]);
            assert(post.stack_seq(t) == sv[t].filter(keeps_non_jack(s)));
            assert(sv[t] == pre.stack_seq(t));
            let st = sv[t];
            assert(stack_weight(jc)(st) == tail_jack_weight(s)(st));
            if st.len() > 0 && st.last() == jc {
                assert(count_where(st, is_card(jc)) == 1);
                lemma_count_where_drop_last(st, is_card(jc));
                lemma_count_where_zero(st.drop_last(), is_card(jc));
                assert forall|i: int| 0 <= i < st.len() - 1 implies keeps_non_jack(s)(
                    st[i],
                ) by {
                    assert(st.drop_last()[i] == st[i]);
                    assert(!is_card(jc)(st.drop_last()[i]));
                }
                lemma_filter_drops_last(st, keeps_non_jack(s));
                assert(stack_chained(pre.stack_seq(t)));
                assert forall|i: int|
                    0 <= i < post.stack_seq(t).len() - 1 implies chain_pair(
                    #[trigger] post.stack_seq(t)[i],
                    post.stack_seq(t)[i + 1],
                ) by {
                    assert(post.stack_seq(t)[i] == st[i]);
                    assert(post.stack_seq(t)[i + 1] == st[i + 1]);
                    assert(chain_pair(st[i], st[i + 1]));
                }
            } else {
                assert(count_where(st, is_card(jc)) == 0);
                lemma_count_where_zero(st, is_card(jc));
                assert forall|i: int| 0 <= i < st.len() implies keeps_non_jack(s)(st[i]) by {
                    assert(!is_card(jc)(st[i]));
                }
                lemma_filter_all_kept(st, keeps_non_jack(s));
                assert(stack_chained(pre.stack_seq(t)));
            }
        }
    }
}

/// A chained stack stays chained when its top card leaves.
proof fn lemma_chained_truncate(s: Seq<Card>)
    requires
        s.len() > 0,
        stack_chained(s),
    ensures
        stack_chained(s.drop_last()),
{
    assert forall|i: int|
        0 <= i < s.drop_last().len() - 1 implies chain_pair(
        #[trigger] s.drop_last()[i],
        s.drop_last()[i + 1],
    ) by {
        assert(s.drop_last()[i] == s[i]);
        assert(s.drop_last()[i + 1] == s[i + 1]);
        assert(chain_pair(s[i], s[i + 1]));
    }
}

/// The pile-push half of an ordered move keeps the foundations sound.
proof fn lemma_pile_push_ok(p: Seq<NumCard>, n: NumCard)
    requires
        pile_ok(p),
        p.len() > 0 ==> p.last().spec_can_parent_ord(n),
        p.len() == 0 ==> n.spec_value() == 0,
    ensures
        pile_ok(p.push(n)),
{
    let q = p.push(n);
    assert forall|i: int|
        0 <= i < q.len() implies (#[trigger] q[i]).spec_value() == i && q[i].spec_suit()
            == q[0].spec_suit() by {
        if p.len() == 0 {
            assert(q[0] == n);
        } else {
            assert(q[0] == p[0]);
            assert(p.last() == p[p.len() - 1]);
            assert(p[p.len() - 1].spec_value() == p.len() - 1);
            if i < p.len() {
                assert(q[i] == p[i]);
            } else {
                assert(q[i] == n);
                assert(p[p.len() - 1].spec_suit() == p[0].spec_suit());
            }
        }
    }
}

/// One validated move never duplicates or drops a card, keeps every
/// foundation pile a contiguous one-suit run, and keeps the joker slot
/// honest. The fixed suit-to-pile alignment survives every move except
/// one that opens a pile with a rank-zero card of the wrong suit.
pub proof fn lemma_move_preserves_state(pre: Board, post: Board, m: Move)
    requires
        pre.inv(),
        pre.spec_validate(m) is Ok,
        move_applied(pre, post, m),
        post.wf(),
    ensures
        forall|c: Card| #[trigger] post.card_count(c) == pre.card_count(c),
        post.foundations_ok(),
        post.joker_ok(),
        keeps_alignment(pre, m) ==> post.aligned(),
        keeps_alignment(pre, m) ==> post.inv(),
{
    let sv = pre.stacks_view();
    let us = pre.utility@;
    let pv = pre.piles_view();
    match (m.src, m.dst) {
        (_, Some(ClickTarget::RedButton)) => {
            lemma_clear_jacks_preserves(pre, post, Suit::Red);
        },
        (_, Some(ClickTarget::GreenButton)) => {
            lemma_clear_jacks_preserves(pre, post, Suit::Green);
        },
        (_, Some(ClickTarget::BlackButton)) => {
            lemma_clear_jacks_preserves(pre, post, Suit::Black);
        },
        (Some(ClickTarget::Utility(u)), Some(ClickTarget::Stack(sp))) => {
            let ui = u.spec_idx();
            let di = sp.stack.spec_idx();
            let c = match pre.slot(ui) {
                Some(CardOrJacks::Card(c)) => c,
                _ => arbitrary(),
            };
            assert forall|cc: Card| #[trigger] post.card_count(cc) == pre.card_count(cc) by {
                assert(sv[di] == pre.stack_seq(di));
                assert(post.stacks_view()[di] == pre.stack_seq(di).push(c));
                lemma_sum_over_one_changed(sv, post.stacks_view(), stack_weight(cc), di, 8);
                lemma_count_where_push(pre.stack_seq(di), is_card(cc), c);
                lemma_sum_over_one_changed(us, post.utility@, slot_weight(cc), ui, 3);
                assert(slot_weight(cc)(us[ui]) == (if cc == c {
                    1nat
                } else {
                    0nat
                }));
                assert(slot_weight(cc)(post.utility@[ui]) == 0);
            }
            lemma_piles_untouched(pre, post);
        },
        (Some(ClickTarget::Stack(sp1)), Some(ClickTarget::Stack(sp2))) => {
            let si = sp1.stack.spec_idx();
            let di = sp2.stack.spec_idx();
            let srcseq = pre.stack_seq(si);
            Board::lemma_click_index_bounds(sp1.y, srcseq.len() as int);
            let idx = Board::click_index(sp1.y, srcseq.len() as int)->Some_0;
            let prefix = srcseq.subrange(0, idx);
            let seg = srcseq.subrange(idx, srcseq.len() as int);
            let midv = sv.update(si, prefix);
            assert(post.stacks_view() == midv.update(di, midv[di] + seg));
            assert forall|cc: Card| #[trigger] post.card_count(cc) == pre.card_count(cc) by {
                assert(sv[si] == srcseq);
                lemma_sum_over_one_changed(sv, midv, stack_weight(cc), si, 8);
                lemma_sum_over_one_changed(midv, post.stacks_view(), stack_weight(cc), di, 8);
                lemma_count_where_subrange(srcseq, is_card(cc), 0, idx);
                lemma_count_where_subrange(srcseq, is_card(cc), idx, srcseq.len() as int);
                lemma_count_range_split(srcseq, is_card(cc), 0, idx, srcseq.len() as int);
                lemma_count_where_concat(midv[di], seg, is_card(cc));
                assert(post.stacks_view()[di] == midv[di] + seg);
            }
            lemma_piles_untouched(pre, post);
        },
        (Some(ClickTarget::Utility(u)), Some(ClickTarget::Ordered(o))) => {
            let ui = u.spec_idx();
            let oi = o.spec_idx();
            let n = match pre.slot(ui) {
                Some(CardOrJacks::Card(Card::Num(n))) => n,
                _ => arbitrary(),
            };
            assert forall|cc: Card| #[trigger] post.card_count(cc) == pre.card_count(cc) by {
                lemma_sum_over_one_changed(us, post.utility@, slot_weight(cc), ui, 3);
                assert(slot_weight(cc)(us[ui]) == (if cc == Card::Num(n) {
                    1nat
                } else {
                    0nat
                }));
                assert(slot_weight(cc)(post.utility@[ui]) == 0);
                assert(pv[oi] == pre.pile_seq(oi));
                assert(post.piles_view()[oi] == pre.pile_seq(oi).push(n));
                lemma_sum_over_one_changed(pv, post.piles_view(), pile_weight(cc), oi, 3);
                lemma_count_where_push(pre.pile_seq(oi), is_num_of(cc), n);
            }
            lemma_ordered_push_state(pre, post, oi, n);
        },
        (Some(ClickTarget::Stack(sp)), Some(ClickTarget::Ordered(o))) => {
            let si = sp.stack.spec_idx();
            let oi = o.spec_idx();
            let srcseq = pre.stack_seq(si);
            Board::lemma_click_index_bounds(sp.y, srcseq.len() as int);
            let n = match srcseq.last() {
                Card::Num(n) => n,
                _ => arbitrary(),
            };
            assert forall|cc: Card| #[trigger] post.card_count(cc) == pre.card_count(cc) by {
                assert(sv[si] == srcseq);
                assert(post.stacks_view()[si] == srcseq.drop_last());
                lemma_sum_over_one_changed(sv, post.stacks_view(), stack_weight(cc), si, 8);
                lemma_count_where_drop_last(srcseq, is_card(cc));
                assert(pv[oi] == pre.pile_seq(oi));
                assert(post.piles_view()[oi] == pre.pile_seq(oi).push(n));
                lemma_sum_over_one_changed(pv, post.piles_view(), pile_weight(cc), oi, 3);
                lemma_count_where_push(pre.pile_seq(oi), is_num_of(cc), n);
            }
            lemma_ordered_push_state(pre, post, oi, n);
        },
        (Some(ClickTarget::Stack(sp)), Some(ClickTarget::Utility(u))) => {
            let si = sp.stack.spec_idx();
            let ui = u.spec_idx();
            let srcseq = pre.stack_seq(si);
            Board::lemma_click_index_bounds(sp.y, srcseq.len() as int);
            let c = srcseq.last();
            assert forall|cc: Card| #[trigger] post.card_count(cc) == pre.card_count(cc) by {
                assert(sv[si] == srcseq);
                assert(post.stacks_view()[si] == srcseq.drop_last());
                lemma_sum_over_one_changed(sv, post.stacks_view(), stack_weight(cc), si, 8);
                lemma_count_where_drop_last(srcseq, is_card(cc));
                lemma_sum_over_one_changed(us, post.utility@, slot_weight(cc), ui, 3);
                assert(slot_weight(cc)(us[ui]) == 0);
                assert(slot_weight(cc)(post.utility@[ui]) == (if cc == c {
                    1nat
                } else {
                    0nat
                }));
            }
            lemma_piles_untouched(pre, post);
        },
        _ => {
            assert(false);
        },
    }
}

/// Foundations and alignment carry over when no pile was touched.
proof fn lemma_piles_untouched(pre: Board, post: Board)
    requires
        pre.wf(),
        post.wf(),
        pre.foundations_ok(),
        pre.aligned(),
        post.piles_view() == pre.piles_view(),
    ensures
        post.foundations_ok(),
        post.aligned(),
{
    assert forall|t: int| 0 <= t < 3 implies pile_ok(#[trigger] post.pile_seq(t)) && post.pile_seq(
        t,
    ) == pre.pile_seq(t) by {
        assert(post.piles_view()[t] == post.pile_seq(t));
        assert(pre.piles_view()[t] == pre.pile_seq(t));
        assert(pile_ok(pre.pile_seq(t)));
    }
    assert forall|t: int|
        0 <= t < 3 && (#[trigger] post.pile_seq(t)).len() > 0 implies post.pile_seq(
        t,
    )[0].spec_suit() == pile_suit(t) by {
        assert(post.piles_view()[t] == post.pile_seq(t));
        assert(pre.piles_view()[t] == pre.pile_seq(t));
    }
}

/// Foundations stay sound when a move pushed an accepted card onto pile
/// `oi`, and the alignment survives unless that push opened the pile with
/// a foreign suit.
proof fn lemma_ordered_push_state(pre: Board, post: Board, oi: int, n: NumCard)
    requires
        pre.wf(),
        post.wf(),
        pre.foundations_ok(),
        pre.aligned(),
        0 <= oi < 3,
        pre.pile_seq(oi).len() > 0 ==> pre.pile_seq(oi).last().spec_can_parent_ord(n),
        pre.pile_seq(oi).len() == 0 ==> n.spec_value() == 0,
        post.piles_view() == pre.piles_view().update(oi, pre.pile_seq(oi).push(n)),
    ensures
        post.foundations_ok(),
        (pre.pile_seq(oi).len() > 0 || n.spec_suit() == pile_suit(oi)) ==> post.aligned(),
{
    assert(pre.piles_view()[oi] == pre.pile_seq(oi));
    assert(pile_ok(pre.pile_seq(oi)));
    lemma_pile_push_ok(pre.pile_seq(oi), n);
    assert forall|t: int| 0 <= t < 3 implies pile_ok(#[trigger] post.pile_seq(t)) by {
        assert(post.piles_view()[t] == post.pile_seq(t));
        assert(pre.piles_view()[t] == pre.pile_seq(t));
        assert(pile_ok(pre.pile_seq(t)));
        if t == oi {
            assert(post.pile_seq(oi) == pre.pile_seq(oi).push(n));
        } else {
            assert(post.pile_seq(t) == pre.pile_seq(t));
        }
    }
    if pre.pile_seq(oi).len() > 0 || n.spec_suit() == pile_suit(oi) {
        assert forall|t: int|
            0 <= t < 3 && (#[trigger] post.pile_seq(t)).len() > 0 implies post.pile_seq(
            t,
        )[0].spec_suit() == pile_suit(t) by {
            assert(post.piles_view()[t] == post.pile_seq(t));
            assert(pre.piles_view()[t] == pre.pile_seq(t));
            if t == oi {
                assert(post.pile_seq(oi) == pre.pile_seq(oi).push(n));
                if pre.pile_seq(oi).len() > 0 {
                    assert(post.pile_seq(oi)[0] == pre.pile_seq(oi)[0]);
                } else {
                    assert(post.pile_seq(oi)[0] == n);
                }
            }
        }
    }
}

/// One validated move keeps the chain rule on every play stack.
#[verifier::rlimit(80)]
pub proof fn lemma_move_preserves_chains(pre: Board, post: Board, m: Move)
    requires
        pre.inv(),
        pre.chains_ok(),
        pre.spec_validate(m) is Ok,
        move_applied(pre, post, m),
        post.wf(),
    ensures
        post.chains_ok(),
{
    let sv = pre.stacks_view();
    match (m.src, m.dst) {
        (_, Some(ClickTarget::RedButton)) => {
            lemma_clear_jacks_preserves(pre, post, Suit::Red);
        },
        (_, Some(ClickTarget::GreenButton)) => {
            lemma_clear_jacks_preserves(pre, post, Suit::Green);
        },
        (_, Some(ClickTarget::BlackButton)) => {
            lemma_clear_jacks_preserves(pre, post, Suit::Black);
        },
        (Some(ClickTarget::Utility(u)), Some(ClickTarget::Stack(sp))) => {
            let ui = u.spec_idx();
            let di = sp.stack.spec_idx();
            let c = match pre.slot(ui) {
                Some(CardOrJacks::Card(c)) => c,
                _ => arbitrary(),
            };
            let dst = pre.stack_seq(di);
            assert forall|t: int| 0 <= t < 8 implies stack_chained(
                #[trigger] post.stack_seq(t),
            ) by {
                assert(post.stacks_view()[t] == post.stack_seq(t));
                assert(sv[t] == pre.stack_seq(t));
                assert(stack_chained(pre.stack_seq(t)));
                if t == di {
                    assert(post.stack_seq(di) == dst.push(c));
                    assert forall|i: int|
                        0 <= i < post.stack_seq(t).len() - 1 implies chain_pair(
                        #[trigger] post.stack_seq(t)[i],
                        post.stack_seq(t)[i + 1],
                    ) by {
                        if i < dst.len() - 1 {
                            assert(post.stack_seq(t)[i] == dst[i]);
                            assert(post.stack_seq(t)[i + 1] == dst[i + 1]);
                            assert(chain_pair(dst[i], dst[i + 1]));
                        } else {
                            assert(post.stack_seq(t)[i] == dst.last());
                            assert(post.stack_seq(t)[i + 1] == c);
                            assert(dst.last().spec_can_parent(c));
                        }
                    }
                } else {
                    assert(post.stack_seq(t) == pre.stack_seq(t));
                }
            }
        },
        (Some(ClickTarget::Stack(sp1)), Some(ClickTarget::Stack(sp2))) => {
            let si = sp1.stack.spec_idx();
            let di = sp2.stack.spec_idx();
            let srcseq = pre.stack_seq(si);
            Board::lemma_click_index_bounds(sp1.y, srcseq.len() as int);
            let idx = Board::click_index(sp1.y, srcseq.len() as int)->Some_0;
            let prefix = srcseq.subrange(0, idx);
            let seg = srcseq.subrange(idx, srcseq.len() as int);
            let midv = sv.update(si, prefix);
            assert(post.stacks_view() == midv.update(di, midv[di] + seg));
            assert(run_in_order(srcseq, idx));
            assert forall|t: int| 0 <= t < 8 implies stack_chained(
                #[trigger] post.stack_seq(t),
            ) by {
                assert(post.stacks_view()[t] == post.stack_seq(t));
                assert(sv[t] == pre.stack_seq(t));
                assert(stack_chained(pre.stack_seq(t)));
                if t == di {
                    let base = midv[di];
                    assert(post.stack_seq(di) == base + seg);
                    assert forall|i: int|
                        0 <= i < post.stack_seq(t).len() - 1 implies chain_pair(
                        #[trigger] post.stack_seq(t)[i],
                        post.stack_seq(t)[i + 1],
                    ) by {
                        let q = post.stack_seq(t);
                        if i + 1 < base.len() {
                            assert(q[i] == base[i]);
                            assert(q[i + 1] == base[i + 1]);
                            if si == di {
                                assert(base == prefix);
                                assert(base[i] == srcseq[i]);
                                assert(base[i + 1] == srcseq[i + 1]);
                                assert(chain_pair(srcseq[i], srcseq[i + 1]));
                            } else {
                                assert(base == pre.stack_seq(di));
                                assert(chain_pair(base[i], base[i + 1]));
                            }
                        } else if i + 1 == base.len() {
                            // boundary between the old tail and the run
                            assert(q[i] == base[i]);
                            assert(q[i + 1] == seg[0]);
                            assert(seg[0] == srcseq[idx]);
                            if si == di {
                                assert(base == prefix);
                                assert(base[i] == srcseq[i]);
                                assert(i == idx - 1);
                                assert(chain_pair(srcseq[idx - 1], srcseq[idx]));
                            } else {
                                assert(base == pre.stack_seq(di));
                                assert(base.len() > 0);
                                assert(base[i] == base.last());
                                assert(base.last().spec_can_parent(srcseq[idx]));
                            }
                        } else {
                            // inside the moved run
                            assert(q[i] == seg[i - base.len()]);
                            assert(q[i + 1] == seg[i + 1 - base.len()]);
                            assert(seg[i - base.len()] == srcseq[idx + i - base.len()]);
                            assert(seg[i + 1 - base.len()] == srcseq[idx + i + 1 - base.len()]);
                            assert(srcseq[idx + i - base.len()].spec_can_parent(
                                srcseq[idx + i - base.len() + 1],
                            ));
                        }
                    }
                } else if t == si {
                    assert(post.stack_seq(si) == prefix);
                    assert forall|i: int|
                        0 <= i < post.stack_seq(t).len() - 1 implies chain_pair(
                        #[trigger] post.stack_seq(t)[i],
                        post.stack_seq(t)[i + 1],
                    ) by {
                        assert(prefix[i] == srcseq[i]);
                        assert(prefix[i + 1] == srcseq[i + 1]);
                        assert(chain_pair(srcseq[i], srcseq[i + 1]));
                    }
                } else {
                    assert(post.stack_seq(t) == pre.stack_seq(t));
                }
            }
        },
        (Some(ClickTarget::Utility(u)), Some(ClickTarget::Ordered(o))) => {
            assert forall|t: int| 0 <= t < 8 implies stack_chained(
                #[trigger] post.stack_seq(t),
            ) by {
                assert(post.stacks_view()[t] == post.stack_seq(t));
                assert(sv[t] == pre.stack_seq(t));
                assert(post.stack_seq(t) == pre.stack_seq(t));
                assert(stack_chained(pre.stack_seq(t)));
            }
        },
        (Some(ClickTarget::Stack(sp)), Some(ClickTarget::Ordered(o))) => {
            lemma_pop_keeps_chains(pre, post, sp.stack.spec_idx());
        },
        (Some(ClickTarget::Stack(sp)), Some(ClickTarget::Utility(u))) => {
            lemma_pop_keeps_chains(pre, post, sp.stack.spec_idx());
        },
        _ => {
            assert(false);
        },
    }
}

/// Losing a top card keeps every stack chained.
proof fn lemma_pop_keeps_chains(pre: Board, post: Board, si: int)
    requires
        pre.wf(),
        post.wf(),
        pre.chains_ok(),
        0 <= si < 8,
        pre.stack_seq(si).len() > 0,
        post.stacks_view() == pre.stacks_view().update(si, pre.stack_seq(si).drop_last()),
    ensures
        post.chains_ok(),
{
    assert forall|t: int| 0 <= t < 8 implies stack_chained(#[trigger] post.stack_seq(t)) by {
        assert(post.stacks_view()[t] == post.stack_seq(t));
        assert(pre.stacks_view()[t] == pre.stack_seq(t));
        assert(stack_chained(pre.stack_seq(t)));
        if t == si {
            lemma_chained_truncate(pre.stack_seq(si));
        } else {
            assert(post.stack_seq(t) == pre.stack_seq(t));
        }
    }
}

} // verus!
