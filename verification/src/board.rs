use vstd::prelude::*;

use rand::seq::SliceRandom;

use crate::card::{jack_of, Card, CardOrJacks, Jacks, NumCard, Suit};
use crate::counting::{
    count_where, lemma_count_where_drop_last, lemma_count_where_push, lemma_count_where_zero,
    lemma_sum_over_agree, lemma_sum_over_lower, lemma_sum_over_one_changed, lemma_sum_over_pos,
    lemma_sum_over_zero, sum_over,
};
use crate::error::Error;
use crate::gamemove::{ClickTarget, Move, Ordered, Stack, Utility, Valid};

verus! {

/// The whole game state: eight play stacks, three utility slots, three
/// foundation piles, and the joker's resting place.
pub struct Board {
    pub joker: Option<Card>,
    pub utility: Vec<Option<CardOrJacks>>,
    pub ordered: Vec<Vec<NumCard>>,
    pub in_play: Vec<Vec<Card>>,
}

/// The stacks as plain sequences of cards.
pub open spec fn views_of(stacks: Seq<Vec<Card>>) -> Seq<Seq<Card>> {
    stacks.map_values(|v: Vec<Card>| v@)
}

/// The suit whose bundle marker is `j`.
pub open spec fn suit_of_jacks(j: Jacks) -> Suit {
    match j {
        Jacks::Red => Suit::Red,
        Jacks::Green => Suit::Green,
        Jacks::Black => Suit::Black,
    }
}

/// The foundation pile the autosweep promotes suit `s` onto.
pub open spec fn pile_of_suit(s: Suit) -> int {
    match s {
        Suit::Red => 0,
        Suit::Green => 1,
        Suit::Black => 2,
    }
}

/// The suit the autosweep sends to pile `k`.
pub open spec fn pile_suit(k: int) -> Suit {
    if k == 0 {
        Suit::Red
    } else if k == 1 {
        Suit::Green
    } else {
        Suit::Black
    }
}

/// The numbered card of suit `s` and rank `v`.
pub open spec fn num_card(s: Suit, v: usize) -> NumCard {
    match s {
        Suit::Red => NumCard::Red(v),
        Suit::Green => NumCard::Green(v),
        Suit::Black => NumCard::Black(v),
    }
}

/// Recognizes exactly the card `c`.
pub open spec fn is_card(c: Card) -> spec_fn(Card) -> bool {
    |x: Card| x == c
}

/// Recognizes the numbered card that `c` is, if it is one.
pub open spec fn is_num_of(c: Card) -> spec_fn(NumCard) -> bool {
    |x: NumCard| Card::Num(x) == c
}

/// Counts copies of `c` inside one play stack.
pub open spec fn stack_weight(c: Card) -> spec_fn(Seq<Card>) -> nat {
    |s: Seq<Card>| count_where(s, is_card(c))
}

/// Counts copies of `c` inside one foundation pile.
pub open spec fn pile_weight(c: Card) -> spec_fn(Seq<NumCard>) -> nat {
    |s: Seq<NumCard>| count_where(s, is_num_of(c))
}

/// Counts copies of `c` inside one utility slot: a held card counts once,
/// and a cleared-jack bundle stands for all four jacks of its suit.
pub open spec fn slot_weight(c: Card) -> spec_fn(Option<CardOrJacks>) -> nat {
    |slot: Option<CardOrJacks>|
        match slot {
            None => 0nat,
            Some(CardOrJacks::Card(cc)) => if cc == c {
                1nat
            } else {
                0nat
            },
            Some(CardOrJacks::Jacks(j)) => if c == jack_of(suit_of_jacks(j)) {
                4nat
            } else {
                0nat
            },
        }
}

/// How many copies of `c` a fresh deck holds.
pub open spec fn deck_multiplicity(c: Card) -> nat {
    match c {
        Card::Joker => 1,
        Card::JRed => 4,
        Card::JGreen => 4,
        Card::JBlack => 4,
        Card::Num(n) => if n.spec_value() < 9 {
            1nat
        } else {
            0nat
        },
    }
}

/// Keeps every card but the jack of suit `s`.
pub open spec fn keeps_non_jack(s: Suit) -> spec_fn(Card) -> bool {
    |c: Card| c != jack_of(s)
}

/// Scores a stack one when the jack of suit `s` is its top card.
pub open spec fn tail_jack_weight(s: Suit) -> spec_fn(Seq<Card>) -> nat {
    |st: Seq<Card>|
        if st.len() > 0 && st.last() == jack_of(s) {
            1nat
        } else {
            0nat
        }
}

/// Scores a utility slot one when it holds the jack of suit `s`.
pub open spec fn util_jack_weight(s: Suit) -> spec_fn(Option<CardOrJacks>) -> nat {
    |slot: Option<CardOrJacks>|
        if slot == Some(CardOrJacks::Card(jack_of(s))) {
            1nat
        } else {
            0nat
        }
}

/// Scores a utility slot one when it is empty.
pub open spec fn open_slot_weight() -> spec_fn(Option<CardOrJacks>) -> nat {
    |slot: Option<CardOrJacks>|
        if slot is None {
            1nat
        } else {
            0nat
        }
}

/// A foundation pile read bottom-to-top is `0, 1, ..., k` of one suit.
pub open spec fn pile_ok(p: Seq<NumCard>) -> bool {
    forall|i: int|
        0 <= i < p.len() ==> (#[trigger] p[i]).spec_value() == i && p[i].spec_suit()
            == p[0].spec_suit()
}

/// Wherever two consecutive stack cards are both numbered, the upper one
/// sits on a parent: different suit, rank exactly one higher below.
pub open spec fn chain_pair(a: Card, b: Card) -> bool {
    (a is Num && b is Num) ==> a.spec_can_parent(b)
}

pub open spec fn stack_chained(s: Seq<Card>) -> bool {
    forall|i: int| 0 <= i < s.len() - 1 ==> chain_pair(#[trigger] s[i], s[i + 1])
}

/// The run from `start` to the top of the stack is a strict chain: every
/// card parents the one above it.
pub open spec fn run_in_order(s: Seq<Card>, start: int) -> bool {
    forall|i: int| start <= i < s.len() - 1 ==> (#[trigger] s[i]).spec_can_parent(s[i + 1])
}

/// Whether the click band of row `slot` contains the vertical offset `y`.
pub open spec fn band_hit(y: u32, slot: int) -> bool {
    y > 110 + 20 * slot && y < 20 * slot + 212
}

/// The first empty utility slot at or past `i`.
pub open spec fn first_none_from(us: Seq<Option<CardOrJacks>>, i: int) -> Option<int>
    decreases us.len() - i,
{
    if i < 0 || i >= us.len() {
        None
    } else if us[i] is None {
        Some(i)
    } else {
        first_none_from(us, i + 1)
    }
}

/// What one utility slot holds after the jacks of suit `s` are cleared.
pub open spec fn cleared_slot(slot: Option<CardOrJacks>, s: Suit) -> Option<CardOrJacks> {
    if slot == Some(CardOrJacks::Card(jack_of(s))) {
        None
    } else {
        slot
    }
}

/// The utility row with every jack single of suit `s` taken out.
pub open spec fn cleared_utility(us: Seq<Option<CardOrJacks>>, s: Suit) -> Seq<
    Option<CardOrJacks>,
> {
    us.map_values(|slot: Option<CardOrJacks>| cleared_slot(slot, s))
}

/// The utility row after clearing suit `s`: jack singles removed, and the
/// bundle dropped into the first open slot, if one is open.
pub open spec fn bundled_utility(us: Seq<Option<CardOrJacks>>, s: Suit) -> Seq<
    Option<CardOrJacks>,
> {
    let cl = cleared_utility(us, s);
    match first_none_from(cl, 0) {
        Some(i) => cl.update(i, Some(CardOrJacks::Jacks(Jacks::spec_from_suit(s)))),
        None => cl,
    }
}

impl Board {
    /// The fixed tableau shape: three utility slots, three foundation
    /// piles, eight play stacks.
    pub open spec fn wf(self) -> bool {
        self.utility@.len() == 3 && self.ordered@.len() == 3 && self.in_play@.len() == 8
    }

    pub open spec fn stacks_view(self) -> Seq<Seq<Card>> {
        views_of(self.in_play@)
    }

    pub open spec fn piles_view(self) -> Seq<Seq<NumCard>> {
        self.ordered@.map_values(|v: Vec<NumCard>| v@)
    }

    pub open spec fn stack_seq(self, i: int) -> Seq<Card> {
        self.in_play@[i]@
    }

    pub open spec fn pile_seq(self, i: int) -> Seq<NumCard> {
        self.ordered@[i]@
    }

    pub open spec fn slot(self, i: int) -> Option<CardOrJacks> {
        self.utility@[i]
    }

    /// How many copies of `c` the board holds in total, over every
    /// location, with a cleared-jack bundle standing for four jacks.
    pub open spec fn card_count(self, c: Card) -> nat {
        sum_over(self.stacks_view(), stack_weight(c), 8) + sum_over(
            self.utility@,
            slot_weight(c),
            3,
        ) + sum_over(self.piles_view(), pile_weight(c), 3) + (if self.joker == Some(c) {
            1nat
        } else {
            0nat
        })
    }

    /// Every card of the 40-card deck is on the board exactly as often as
    /// the deck holds it: nothing is duplicated, nothing is lost.
    pub open spec fn deck_ok(self) -> bool {
        forall|c: Card| #[trigger] self.card_count(c) == deck_multiplicity(c)
    }

    pub open spec fn foundations_ok(self) -> bool {
        forall|k: int| 0 <= k < 3 ==> pile_ok(#[trigger] self.pile_seq(k))
    }

    /// Each non-empty foundation pile holds the suit the autosweep assigns
    /// to its position.
    pub open spec fn aligned(self) -> bool {
        forall|k: int|
            0 <= k < 3 && (#[trigger] self.pile_seq(k)).len() > 0 ==> self.pile_seq(
                k,
            )[0].spec_suit() == pile_suit(k)
    }

    /// The joker slot is empty or holds the joker, nothing else ever.
    pub open spec fn joker_ok(self) -> bool {
        self.joker is None || self.joker == Some(Card::Joker)
    }

    /// The state invariant every reachable game state satisfies.
    pub open spec fn inv(self) -> bool {
        self.wf() && self.deck_ok() && self.foundations_ok() && self.aligned() && self.joker_ok()
    }

    /// Every play stack honours the chain rule between consecutive
    /// numbered cards.
    pub open spec fn chains_ok(self) -> bool {
        forall|k: int| 0 <= k < 8 ==> stack_chained(#[trigger] self.stack_seq(k))
    }

    /// The card index that a click at vertical offset `y` picks in a stack
    /// of `len` cards: the deepest row whose click band contains `y`.
    pub open spec fn click_index_rec(y: u32, len: int, slot: int) -> Option<int>
        decreases slot,
    {
        if slot <= 0 {
            None
        } else if band_hit(y, slot - 1) && slot - 1 < len {
            Some(slot - 1)
        } else {
            Self::click_index_rec(y, len, slot - 1)
        }
    }

    pub open spec fn click_index(y: u32, len: int) -> Option<int> {
        Self::click_index_rec(y, len, 20)
    }

    /// A resolved click index always names an existing card.
    pub proof fn lemma_click_index_rec_bounds(y: u32, len: int, slot: int)
        ensures
            match Self::click_index_rec(y, len, slot) {
                Some(i) => 0 <= i < len && i < slot,
                None => true,
            },
        decreases slot,
    {
        if slot > 0 {
            Self::lemma_click_index_rec_bounds(y, len, slot - 1);
        }
    }

    pub proof fn lemma_click_index_bounds(y: u32, len: int)
        ensures
            match Self::click_index(y, len) {
                Some(i) => 0 <= i < len,
                None => true,
            },
    {
        Self::lemma_click_index_rec_bounds(y, len, 20);
    }

    /// How many stacks have the jack of suit `s` on top.
    pub open spec fn tail_jacks(self, s: Suit) -> nat {
        sum_over(self.stacks_view(), tail_jack_weight(s), 8)
    }

    /// How many utility slots hold the jack of suit `s` as a single card.
    pub open spec fn util_jacks(self, s: Suit) -> nat {
        sum_over(self.utility@, util_jack_weight(s), 3)
    }

    /// How many utility slots are empty.
    pub open spec fn open_slots(self) -> nat {
        sum_over(self.utility@, open_slot_weight(), 3)
    }

    /// The suit-clear rule: all four jacks of `s` rest on stack tops or in
    /// utility slots, and a slot is free (or freed by the clearing itself).
    pub open spec fn spec_validate_jack(self, s: Suit) -> Result<(), Error> {
        if self.tail_jacks(s) + self.util_jacks(s) != 4 {
            Err(Error::JacksNotVisible)
        } else if self.util_jacks(s) + self.open_slots() == 0 {
            Err(Error::NoOpenUtility)
        } else {
            Ok(())
        }
    }

    /// Whether foundation pile `o` accepts the numbered card `n`: an empty
    /// pile takes rank zero, a non-empty one the next rank of its suit.
    pub open spec fn spec_ord_accepts(self, n: NumCard, o: Ordered) -> Result<(), Error> {
        let pile = self.pile_seq(o.spec_idx());
        if pile.len() > 0 {
            if !pile.last().spec_can_parent_ord(n) {
                Err(Error::OrdCantParent)
            } else {
                Ok(())
            }
        } else if n.spec_value() != 0 {
            Err(Error::OrdCantParent)
        } else {
            Ok(())
        }
    }

    /// The whole rulebook: what `get_valid` answers for any request on any
    /// board, including the exact rejection reason.
    pub open spec fn spec_validate(self, m: Move) -> Result<Valid, Error> {
        match (m.src, m.dst) {
            (_, Some(ClickTarget::RedButton)) => match self.spec_validate_jack(Suit::Red) {
                Ok(_) => Ok(Valid(m)),
                Err(e) => Err(e),
            },
            (_, Some(ClickTarget::GreenButton)) => match self.spec_validate_jack(Suit::Green) {
                Ok(_) => Ok(Valid(m)),
                Err(e) => Err(e),
            },
            (_, Some(ClickTarget::BlackButton)) => match self.spec_validate_jack(Suit::Black) {
                Ok(_) => Ok(Valid(m)),
                Err(e) => Err(e),
            },
            (Some(ClickTarget::Utility(u)), Some(ClickTarget::Stack(sp))) => {
                match self.slot(u.spec_idx()) {
                    None => Err(Error::NothingInUtl),
                    Some(CardOrJacks::Jacks(_)) => Err(Error::MoveJacks),
                    Some(CardOrJacks::Card(c)) => {
                        let dst = self.stack_seq(sp.stack.spec_idx());
                        if dst.len() > 0 && !dst.last().spec_can_parent(c) {
                            Err(Error::StackCantParent)
                        } else {
                            Ok(Valid(m))
                        }
                    },
                }
            },
            (Some(ClickTarget::Stack(sp1)), Some(ClickTarget::Stack(sp2))) => {
                let src = self.stack_seq(sp1.stack.spec_idx());
                match Self::click_index(sp1.y, src.len() as int) {
                    None => Err(Error::MustClickCard),
                    Some(idx) => {
                        if !run_in_order(src, idx) {
                            Err(Error::StackOutOfOrder)
                        } else {
                            let dst = self.stack_seq(sp2.stack.spec_idx());
                            if dst.len() > 0 && !dst.last().spec_can_parent(src[idx]) {
                                Err(Error::StackCantParent)
                            } else {
                                Ok(Valid(m))
                            }
                        }
                    },
                }
            },
            (Some(ClickTarget::Utility(u)), Some(ClickTarget::Ordered(o))) => {
                match self.slot(u.spec_idx()) {
                    None => Err(Error::NothingInUtl),
                    Some(CardOrJacks::Jacks(_)) => Err(Error::MoveJacks),
                    Some(CardOrJacks::Card(c)) => match c {
                        Card::Num(n) => match self.spec_ord_accepts(n, o) {
                            Ok(_) => Ok(Valid(m)),
                            Err(e) => Err(e),
                        },
                        _ => Err(Error::CardNotNumeric),
                    },
                }
            },
            (Some(ClickTarget::Stack(sp)), Some(ClickTarget::Ordered(o))) => {
                let src = self.stack_seq(sp.stack.spec_idx());
                match Self::click_index(sp.y, src.len() as int) {
                    None => Err(Error::MustClickCard),
                    Some(idx) => {
                        if src.len() != idx + 1 {
                            Err(Error::MultipleToSlot)
                        } else {
                            match src.last() {
                                Card::Num(n) => match self.spec_ord_accepts(n, o) {
                                    Ok(_) => Ok(Valid(m)),
                                    Err(e) => Err(e),
                                },
                                _ => Err(Error::CardNotNumeric),
                            }
                        }
                    },
                }
            },
            (Some(ClickTarget::Stack(sp)), Some(ClickTarget::Utility(u))) => {
                let src = self.stack_seq(sp.stack.spec_idx());
                match Self::click_index(sp.y, src.len() as int) {
                    None => Err(Error::MustClickCard),
                    Some(idx) => {
                        if src.len() != idx + 1 {
                            Err(Error::MultipleToSlot)
                        } else if self.slot(u.spec_idx()) is Some {
                            Err(Error::UtlNotOpen)
                        } else {
                            Ok(Valid(m))
                        }
                    },
                }
            },
            _ => Err(Error::BadSourceOrDest),
        }
    }
}

/// Every play stack with the jacks of suit `s` taken out.
pub open spec fn stacks_filtered(ss: Seq<Seq<Card>>, s: Suit) -> Seq<Seq<Card>> {
    ss.map_values(|st: Seq<Card>| st.filter(keeps_non_jack(s)))
}

/// The play stacks after the run from `idx` to the top moves from the tail
/// of stack `s` onto the tail of stack `d`, order kept.
pub open spec fn stacks_after_run_move(ss: Seq<Seq<Card>>, s: int, d: int, idx: int) -> Seq<
    Seq<Card>,
> {
    let mid = ss.update(s, ss[s].subrange(0, idx));
    mid.update(d, mid[d] + ss[s].subrange(idx, ss[s].len() as int))
}

/// The whole effect of clearing suit `s`: its jacks leave the stacks and
/// the utility row, and one bundle lands in the first open slot.
pub open spec fn jacks_cleared(pre: Board, post: Board, s: Suit) -> bool {
    &&& post.stacks_view() == stacks_filtered(pre.stacks_view(), s)
    &&& post.utility@ == bundled_utility(pre.utility@, s)
    &&& post.piles_view() == pre.piles_view()
    &&& post.joker == pre.joker
}

/// Exactly how the board after a validated move relates to the board
/// before it, for every move shape the validator lets through.
pub open spec fn move_applied(pre: Board, post: Board, m: Move) -> bool {
    match (m.src, m.dst) {
        (_, Some(ClickTarget::RedButton)) => jacks_cleared(pre, post, Suit::Red),
        (_, Some(ClickTarget::GreenButton)) => jacks_cleared(pre, post, Suit::Green),
        (_, Some(ClickTarget::BlackButton)) => jacks_cleared(pre, post, Suit::Black),
        (Some(ClickTarget::Utility(u)), Some(ClickTarget::Stack(sp))) => {
            let ui = u.spec_idx();
            let di = sp.stack.spec_idx();
            match pre.slot(ui) {
                Some(CardOrJacks::Card(c)) => {
                    &&& post.stacks_view() == pre.stacks_view().update(
                        di,
                        pre.stack_seq(di).push(c),
                    )
                    &&& post.utility@ == pre.utility@.update(ui, None::<CardOrJacks>)
                    &&& post.piles_view() == pre.piles_view()
                    &&& post.joker == pre.joker
                },
                _ => false,
            }
        },
        (Some(ClickTarget::Stack(sp1)), Some(ClickTarget::Stack(sp2))) => {
            let si = sp1.stack.spec_idx();
            let di = sp2.stack.spec_idx();
            match Board::click_index(sp1.y, pre.stack_seq(si).len() as int) {
                Some(idx) => {
                    &&& post.stacks_view() == stacks_after_run_move(
                        pre.stacks_view(),
                        si,
                        di,
                        idx,
                    )
                    &&& post.utility@ == pre.utility@
                    &&& post.piles_view() == pre.piles_view()
                    &&& post.joker == pre.joker
                },
                None => false,
            }
        },
        (Some(ClickTarget::Utility(u)), Some(ClickTarget::Ordered(o))) => {
            let ui = u.spec_idx();
            let oi = o.spec_idx();
            match pre.slot(ui) {
                Some(CardOrJacks::Card(Card::Num(n))) => {
                    &&& post.stacks_view() == pre.stacks_view()
                    &&& post.utility@ == pre.utility@.update(ui, None::<CardOrJacks>)
                    &&& post.piles_view() == pre.piles_view().update(
                        oi,
                        pre.pile_seq(oi).push(n),
                    )
                    &&& post.joker == pre.joker
                },
                _ => false,
            }
        },
        (Some(ClickTarget::Stack(sp)), Some(ClickTarget::Utility(u))) => {
            let si = sp.stack.spec_idx();
            let ui = u.spec_idx();
            pre.stack_seq(si).len() > 0 && {
                &&& post.stacks_view() == pre.stacks_view().update(
                    si,
                    pre.stack_seq(si).drop_last(),
                )
                &&& post.utility@ == pre.utility@.update(
                    ui,
                    Some(CardOrJacks::Card(pre.stack_seq(si).last())),
                )
                &&& post.piles_view() == pre.piles_view()
                &&& post.joker == pre.joker
            }
        },
        (Some(ClickTarget::Stack(sp)), Some(ClickTarget::Ordered(o))) => {
            let si = sp.stack.spec_idx();
            let oi = o.spec_idx();
            pre.stack_seq(si).len() > 0 && match pre.stack_seq(si).last() {
                Card::Num(n) => {
                    &&& post.stacks_view() == pre.stacks_view().update(
                        si,
                        pre.stack_seq(si).drop_last(),
                    )
                    &&& post.utility@ == pre.utility@
                    &&& post.piles_view() == pre.piles_view().update(
                        oi,
                        pre.pile_seq(oi).push(n),
                    )
                    &&& post.joker == pre.joker
                },
                _ => false,
            }
        },
        _ => false,
    }
}


/// The stack-pop relation: board `post` is board `pre` with the top card
/// of stack `k` removed and nothing else changed.
pub open spec fn popped_from(pre: Board, post: Board, k: int) -> bool {
    &&& pre.stack_seq(k).len() > 0
    &&& post.stacks_view() == pre.stacks_view().update(k, pre.stack_seq(k).drop_last())
    &&& post.utility@ == pre.utility@
    &&& post.piles_view() == pre.piles_view()
    &&& post.joker == pre.joker
}

/// Scores a stack by how many cards it holds.
pub open spec fn stack_len_weight() -> spec_fn(Seq<Card>) -> nat {
    |s: Seq<Card>| s.len()
}

impl Board {
    /// The numbered card `n` sits somewhere in a stack or a utility slot
    /// (buried cards count; foundation cards and the joker slot do not).
    pub open spec fn num_in_play(self, n: NumCard) -> bool {
        (exists|k: int, j: int|
            0 <= k < 8 && 0 <= j < self.stack_seq(k).len() && #[trigger] self.stack_seq(k)[j]
                == Card::Num(n)) || (exists|k: int|
            0 <= k < 3 && #[trigger] self.slot(k) == Some(CardOrJacks::Card(Card::Num(n))))
    }

    /// Stack `k` ends in a numbered card whose rank is at or below every
    /// numbered card still in play: the autosweep may promote it.
    pub open spec fn tail_ready(self, k: int) -> bool {
        let st = self.stack_seq(k);
        st.len() > 0 && match st.last() {
            Card::Num(n) => forall|m: NumCard|
                #[trigger] self.num_in_play(m) ==> n.spec_value() <= m.spec_value(),
            _ => false,
        }
    }

    pub open spec fn joker_at_tail(self, k: int) -> bool {
        0 <= k < 8 && self.stack_seq(k).len() > 0 && self.stack_seq(k).last() == Card::Joker
    }

    pub open spec fn has_ready_tail(self) -> bool {
        exists|k: int| 0 <= k < 8 && #[trigger] self.tail_ready(k)
    }

    pub open spec fn has_tail_joker(self) -> bool {
        exists|k: int| #[trigger] self.joker_at_tail(k)
    }

    /// Whether one more sweep step would find something to promote.
    pub open spec fn sweep_available(self) -> bool {
        self.has_ready_tail() || self.has_tail_joker()
    }

    /// How many cards sit in play stacks in all.
    pub open spec fn total_stack_len(self) -> nat {
        sum_over(self.stacks_view(), stack_len_weight(), 8)
    }
}

/// After a change to one stack, the stacks read as the old view with that
/// one entry replaced.
pub proof fn lemma_stacks_view_update(a: Board, b: Board, i: int)
    requires
        a.in_play@.len() == b.in_play@.len(),
        0 <= i < a.in_play@.len(),
        forall|j: int| 0 <= j < a.in_play@.len() && j != i ==> a.in_play@[j] == b.in_play@[j],
    ensures
        b.stacks_view() == a.stacks_view().update(i, b.stack_seq(i)),
{
    assert forall|j: int|
        0 <= j < a.in_play@.len() implies b.stacks_view()[j] == a.stacks_view().update(
        i,
        b.stack_seq(i),
    )[j] by {}
    assert(b.stacks_view() =~= a.stacks_view().update(i, b.stack_seq(i)));
}

/// After a change to one foundation pile, the piles read as the old view
/// with that one entry replaced.
pub proof fn lemma_piles_view_update(a: Board, b: Board, i: int)
    requires
        a.ordered@.len() == b.ordered@.len(),
        0 <= i < a.ordered@.len(),
        forall|j: int| 0 <= j < a.ordered@.len() && j != i ==> a.ordered@[j] == b.ordered@[j],
    ensures
        b.piles_view() == a.piles_view().update(i, b.pile_seq(i)),
{
    assert forall|j: int|
        0 <= j < a.ordered@.len() implies b.piles_view()[j] == a.piles_view().update(
        i,
        b.pile_seq(i),
    )[j] by {}
    assert(b.piles_view() =~= a.piles_view().update(i, b.pile_seq(i)));
}

/// Whether `c` is the jack of suit `s`.
fn card_is_jack_of(c: &Card, s: Suit) -> (r: bool)
    ensures
        r == (*c == jack_of(s)),
{
    match (*c, s) {
        (Card::JRed, Suit::Red) => true,
        (Card::JGreen, Suit::Green) => true,
        (Card::JBlack, Suit::Black) => true,
        _ => false,
    }
}

/// Whether the cards of `cards` from `start` to the top form a strict
/// parent chain.
fn in_order(cards: &Vec<Card>, start: usize) -> (r: bool)
    ensures
        r == run_in_order(cards@, start as int),
{
    let len = cards.len();
    if len < 2 || start >= len - 1 {
        return true;
    }
    let mut i = start;
    while i < len - 1
        invariant
            start <= i <= len - 1,
            len == cards@.len(),
            2 <= len,
            forall|j: int| start <= j < i ==> (#[trigger] cards@[j]).spec_can_parent(cards@[j + 1]),
        decreases len - i,
    {
        if !cards[i].can_parent(&cards[i + 1]) {
            return false;
        }
        i += 1;
    }
    true
}

impl Board {
    fn validate_jack(&self, s: Suit) -> (r: Result<(), Error>)
        requires
            self.wf(),
        ensures
            r == self.spec_validate_jack(s),
    {
        let mut play_count: usize = 0;
        let mut k: usize = 0;
        while k < 8
            invariant
                self.wf(),
                k <= 8,
                play_count <= k,
                play_count as nat == sum_over(self.stacks_view(), tail_jack_weight(s), k as int),
            decreases 8 - k,
        {
            let len = self.in_play[k].len();
            if len > 0 {
                let c = self.in_play[k][len - 1];
                if card_is_jack_of(&c, s) {
                    play_count = play_count + 1;
                }
            }
            k = k + 1;
        }
        let mut u_count: usize = 0;
        let mut none_count: usize = 0;
        let mut k: usize = 0;
        while k < 3
            invariant
                self.wf(),
                k <= 3,
                u_count <= k,
                none_count <= k,
                u_count as nat == sum_over(self.utility@, util_jack_weight(s), k as int),
                none_count as nat == sum_over(self.utility@, open_slot_weight(), k as int),
            decreases 3 - k,
        {
            match self.utility[k] {
                Some(CardOrJacks::Card(c)) => {
                    if card_is_jack_of(&c, s) {
                        u_count = u_count + 1;
                    }
                },
                Some(CardOrJacks::Jacks(_)) => {},
                None => {
                    none_count = none_count + 1;
                },
            }
            k = k + 1;
        }
        if play_count + u_count != 4 {
            return Err(Error::JacksNotVisible);
        }
        if u_count + none_count == 0 {
            return Err(Error::NoOpenUtility);
        }
        Ok(())
    }

    fn validate_utility_is_card(&self, u: &Utility) -> (r: Result<Card, Error>)
        requires
            self.wf(),
        ensures
            match self.slot(u.spec_idx()) {
                None => r == Err::<Card, Error>(Error::NothingInUtl),
                Some(CardOrJacks::Jacks(_)) => r == Err::<Card, Error>(Error::MoveJacks),
                Some(CardOrJacks::Card(c)) => r == Ok::<Card, Error>(c),
            },
    {
        match self.utility[u.idx()] {
            None => Err(Error::NothingInUtl),
            Some(CardOrJacks::Jacks(_)) => Err(Error::MoveJacks),
            Some(CardOrJacks::Card(c)) => Ok(c),
        }
    }

    fn validate_stack_can_parent(&self, dst: &Stack, c: &Card) -> (r: Result<(), Error>)
        requires
            self.wf(),
        ensures
            ({
                let d = self.stack_seq(dst.spec_idx());
                if d.len() > 0 && !d.last().spec_can_parent(*c) {
                    r == Err::<(), Error>(Error::StackCantParent)
                } else {
                    r == Ok::<(), Error>(())
                }
            }),
    {
        let di = dst.idx();
        let len = self.in_play[di].len();
        if len > 0 {
            let parent = self.in_play[di][len - 1];
            if !parent.can_parent(c) {
                return Err(Error::StackCantParent);
            }
        }
        Ok(())
    }

    fn validate_idx_is_card(&self, src: &Stack, y: u32) -> (r: Result<usize, Error>)
        requires
            self.wf(),
        ensures
            ({
                let ci = Self::click_index(y, self.stack_seq(src.spec_idx()).len() as int);
                match r {
                    Ok(i) => ci == Some(i as int) && i < self.stack_seq(src.spec_idx()).len(),
                    Err(e) => ci is None && e == Error::MustClickCard,
                }
            }),
    {
        let si = src.idx();
        let len = self.in_play[si].len();
        let mut slot: usize = 20;
        while slot > 0
            invariant
                slot <= 20,
                self.wf(),
                len == self.stack_seq(src.spec_idx()).len(),
                Self::click_index(y, len as int) == Self::click_index_rec(
                    y,
                    len as int,
                    slot as int,
                ),
            decreases slot,
        {
            let row = slot - 1;
            let band_lo: u32 = 110 + (row as u32) * 20;
            let band_hi: u32 = (row as u32) * 20 + 212;
            if y > band_lo && y < band_hi && row < len {
                return Ok(row);
            }
            slot = slot - 1;
        }
        Err(Error::MustClickCard)
    }

    fn validate_stack_in_order(&self, src: &Stack, idx: usize) -> (r: Result<(), Error>)
        requires
            self.wf(),
        ensures
            ({
                let s = self.stack_seq(src.spec_idx());
                if s.len() < 1 || !run_in_order(s, idx as int) {
                    r == Err::<(), Error>(Error::StackOutOfOrder)
                } else {
                    r == Ok::<(), Error>(())
                }
            }),
    {
        let si = src.idx();
        if self.in_play[si].len() < 1 {
            return Err(Error::StackOutOfOrder);
        }
        if !in_order(&self.in_play[si], idx) {
            return Err(Error::StackOutOfOrder);
        }
        Ok(())
    }

    fn validate_stack_last(&self, src: &Stack, idx: usize) -> (r: Result<Card, Error>)
        requires
            self.wf(),
        ensures
            ({
                let s = self.stack_seq(src.spec_idx());
                if s.len() == idx + 1 {
                    r == Ok::<Card, Error>(s.last())
                } else {
                    r == Err::<Card, Error>(Error::MultipleToSlot)
                }
            }),
    {
        let si = src.idx();
        let len = self.in_play[si].len();
        if len == 0 || len - 1 != idx {
            return Err(Error::MultipleToSlot);
        }
        Ok(self.in_play[si][len - 1])
    }

    fn validate_utility_open(&self, dst: &Utility) -> (r: Result<(), Error>)
        requires
            self.wf(),
        ensures
            ({
                if self.slot(dst.spec_idx()) is Some {
                    r == Err::<(), Error>(Error::UtlNotOpen)
                } else {
                    r == Ok::<(), Error>(())
                }
            }),
    {
        if self.utility[dst.idx()].is_some() {
            return Err(Error::UtlNotOpen);
        }
        Ok(())
    }

    fn validate_ord_can_parent(&self, src: &NumCard, dst: &Ordered) -> (r: Result<(), Error>)
        requires
            self.wf(),
        ensures
            r == self.spec_ord_accepts(*src, *dst),
    {
        let oi = dst.idx();
        let len = self.ordered[oi].len();
        if len > 0 {
            let top = self.ordered[oi][len - 1];
            if !top.can_parent_ord(src) {
                return Err(Error::OrdCantParent);
            }
            Ok(())
        } else if src.value() != 0 {
            Err(Error::OrdCantParent)
        } else {
            Ok(())
        }
    }

    /// The move validator: decides whether `m` is legal on this board, and
    /// if not, with exactly which rejection. It never touches the board; a
    /// `Valid` witness comes out of here and nowhere else.
    pub fn get_valid(&self, m: Move) -> (r: Result<Valid, Error>)
        requires
            self.wf(),
        ensures
            r == self.spec_validate(m),
    {
        match (m.src, m.dst) {
            (_, Some(ClickTarget::RedButton)) => match self.validate_jack(Suit::Red) {
                Ok(_) => Ok(Valid(m)),
                Err(e) => Err(e),
            },
            (_, Some(ClickTarget::GreenButton)) => match self.validate_jack(Suit::Green) {
                Ok(_) => Ok(Valid(m)),
                Err(e) => Err(e),
            },
            (_, Some(ClickTarget::BlackButton)) => match self.validate_jack(Suit::Black) {
                Ok(_) => Ok(Valid(m)),
                Err(e) => Err(e),
            },
            (Some(ClickTarget::Utility(u)), Some(ClickTarget::Stack(sp))) => {
                let c = match self.validate_utility_is_card(&u) {
                    Ok(c) => c,
                    Err(e) => {
                        return Err(e);
                    },
                };
                match self.validate_stack_can_parent(&sp.stack, &c) {
                    Ok(_) => Ok(Valid(m)),
                    Err(e) => Err(e),
                }
            },
            (Some(ClickTarget::Stack(sp1)), Some(ClickTarget::Stack(sp2))) => {
                let idx = match self.validate_idx_is_card(&sp1.stack, sp1.y) {
                    Ok(i) => i,
                    Err(e) => {
                        return Err(e);
                    },
                };
                match self.validate_stack_in_order(&sp1.stack, idx) {
                    Ok(_) => {},
                    Err(e) => {
                        return Err(e);
                    },
                }
                let c = self.in_play[sp1.stack.idx()][idx];
                match self.validate_stack_can_parent(&sp2.stack, &c) {
                    Ok(_) => Ok(Valid(m)),
                    Err(e) => Err(e),
                }
            },
            (Some(ClickTarget::Utility(u)), Some(ClickTarget::Ordered(o))) => {
                let c = match self.validate_utility_is_card(&u) {
                    Ok(c) => c,
                    Err(e) => {
                        return Err(e);
                    },
                };
                let n = match c.into_num() {
                    Some(n) => n,
                    None => {
                        return Err(Error::CardNotNumeric);
                    },
                };
                match self.validate_ord_can_parent(&n, &o) {
                    Ok(_) => Ok(Valid(m)),
                    Err(e) => Err(e),
                }
            },
            (Some(ClickTarget::Stack(sp)), Some(ClickTarget::Ordered(o))) => {
                let idx = match self.validate_idx_is_card(&sp.stack, sp.y) {
                    Ok(i) => i,
                    Err(e) => {
                        return Err(e);
                    },
                };
                let c = match self.validate_stack_last(&sp.stack, idx) {
                    Ok(c) => c,
                    Err(e) => {
                        return Err(e);
                    },
                };
                let n = match c.into_num() {
                    Some(n) => n,
                    None => {
                        return Err(Error::CardNotNumeric);
                    },
                };
                match self.validate_ord_can_parent(&n, &o) {
                    Ok(_) => Ok(Valid(m)),
                    Err(e) => Err(e),
                }
            },
            (Some(ClickTarget::Stack(sp)), Some(ClickTarget::Utility(u))) => {
                let idx = match self.validate_idx_is_card(&sp.stack, sp.y) {
                    Ok(i) => i,
                    Err(e) => {
                        return Err(e);
                    },
                };
                match self.validate_stack_last(&sp.stack, idx) {
                    Ok(_) => {},
                    Err(e) => {
                        return Err(e);
                    },
                }
                match self.validate_utility_open(&u) {
                    Ok(_) => Ok(Valid(m)),
                    Err(e) => Err(e),
                }
            },
            _ => Err(Error::BadSourceOrDest),
        }
    }
}

/// A copy of `stack` without the jacks of suit `s`.
fn remove_jacks_in_stack(stack: &Vec<Card>, s: Suit) -> (r: Vec<Card>)
    ensures
        r@ == stack@.filter(keeps_non_jack(s)),
{
    let mut r: Vec<Card> = Vec::new();
    let mut i: usize = 0;
    while i < stack.len()
        invariant
            i <= stack@.len(),
            r@ == stack@.subrange(0, i as int).filter(keeps_non_jack(s)),
        decreases stack@.len() - i,
    {
        let c = stack[i];
        proof {
            reveal(Seq::filter);
            assert(stack@.subrange(0, (i + 1) as int).drop_last() =~= stack@.subrange(0, i as int));
            assert(stack@.subrange(0, (i + 1) as int).last() == stack@[i as int]);
        }
        if !card_is_jack_of(&c, s) {
            r.push(c);
        }
        i = i + 1;
    }
    proof {
        assert(stack@.subrange(0, stack@.len() as int) =~= stack@);
    }
    r
}

impl Board {
    /// Removes every jack of suit `s` from the stacks and the utility row
    /// and parks the four-jack bundle in the first open utility slot.
    #[verifier::loop_isolation(false)]
    pub fn clear_jacks(&mut self, s: Suit)
        requires
            old(self).wf(),
        ensures
            final(self).wf(),
            jacks_cleared(*old(self), *final(self), s),
    {
        let ghost pre = *self;
        // Clear jack singles out of the utility slots.
        let mut k: usize = 0;
        while k < 3
            invariant
                self.wf(),
                k <= 3,
                self.in_play == pre.in_play,
                self.ordered == pre.ordered,
                self.joker == pre.joker,
                forall|j: int| 0 <= j < k ==> self.utility@[j] == cleared_slot(pre.utility@[j], s),
                forall|j: int| k <= j < 3 ==> self.utility@[j] == pre.utility@[j],
            decreases 3 - k,
        {
            match self.utility[k] {
                Some(CardOrJacks::Card(c)) => {
                    if card_is_jack_of(&c, s) {
                        self.utility[k] = None;
                    }
                },
                _ => {},
            }
            k = k + 1;
        }
        proof {
            assert(self.utility@ =~= cleared_utility(pre.utility@, s));
        }
        let ghost cl = self.utility@;
        // Drop the cleared jacks out of every stack.
        let mut k: usize = 0;
        while k < 8
            invariant
                self.wf(),
                k <= 8,
                self.ordered == pre.ordered,
                self.joker == pre.joker,
                self.utility@ == cl,
                forall|j: int|
                    0 <= j < k ==> self.stack_seq(j) == (#[trigger] pre.stack_seq(j)).filter(
                        keeps_non_jack(s),
                    ),
                forall|j: int| k <= j < 8 ==> self.stack_seq(j) == #[trigger] pre.stack_seq(j),
            decreases 8 - k,
        {
            let filtered = remove_jacks_in_stack(&self.in_play[k], s);
            self.in_play[k] = filtered;
            k = k + 1;
        }
        proof {
            assert forall|j: int| 0 <= j < 8 implies self.stacks_view()[j] == stacks_filtered(
                pre.stacks_view(),
                s,
            )[j] by {
                assert(self.stack_seq(j) == pre.stack_seq(j).filter(keeps_non_jack(s)));
                assert(stacks_filtered(pre.stacks_view(), s)[j] == pre.stacks_view()[j].filter(
                    keeps_non_jack(s),
                ));
                assert(pre.stacks_view()[j] == pre.stack_seq(j));
            }
            assert(self.stacks_view() =~= stacks_filtered(pre.stacks_view(), s));
        }
        // Park the bundle in the first open slot, if any slot is open.
        let mut k: usize = 0;
        while k < 3
            invariant
                self.wf(),
                k <= 3,
                self.stacks_view() == stacks_filtered(pre.stacks_view(), s),
                self.ordered == pre.ordered,
                self.joker == pre.joker,
                self.utility@ == cl,
                first_none_from(cl, 0) == first_none_from(cl, k as int),
            decreases 3 - k,
        {
            if self.utility[k].is_none() {
                self.utility[k] = Some(CardOrJacks::Jacks(Jacks::from_suit(s)));
                proof {
                    assert(first_none_from(cl, k as int) == Some(k as int));
                    assert(self.utility@ =~= cl.update(
                        k as int,
                        Some(CardOrJacks::Jacks(Jacks::spec_from_suit(s))),
                    ));
                }
                return;
            }
            k = k + 1;
        }
    }

    /// Lifts the run from `idx` to the top off stack `si` and drops it,
    /// order kept, onto the tail of stack `di`.
    #[verifier::loop_isolation(false)]
    fn move_run(&mut self, si: usize, di: usize, idx: usize)
        requires
            old(self).wf(),
            si < 8,
            di < 8,
            idx <= old(self).stack_seq(si as int).len(),
        ensures
            final(self).wf(),
            final(self).stacks_view() == stacks_after_run_move(
                old(self).stacks_view(),
                si as int,
                di as int,
                idx as int,
            ),
            final(self).utility@ == old(self).utility@,
            final(self).piles_view() == old(self).piles_view(),
            final(self).joker == old(self).joker,
    {
        let ghost pre = *self;
        let ghost srcseq = pre.stack_seq(si as int);
        // Copy the moving run aside, in order.
        let mut seg: Vec<Card> = Vec::new();
        let mut k: usize = idx;
        while k < self.in_play[si].len()
            invariant
                *self == pre,
                idx <= k <= srcseq.len(),
                seg@ == srcseq.subrange(idx as int, k as int),
            decreases srcseq.len() - k,
        {
            let c = self.in_play[si][k];
            seg.push(c);
            proof {
                assert(seg@ =~= srcseq.subrange(idx as int, (k + 1) as int));
            }
            k = k + 1;
        }
        self.in_play[si].truncate(idx);
        let ghost mid = pre.stacks_view().update(si as int, srcseq.subrange(0, idx as int));
        proof {
            assert(self.stacks_view() =~= mid);
            assert(mid[di as int] + seg@.subrange(0, 0) =~= mid[di as int]);
            assert(mid.update(di as int, mid[di as int]) =~= mid);
        }
        // Replay it onto the destination tail.
        let mut k: usize = 0;
        while k < seg.len()
            invariant
                k <= seg@.len(),
                self.wf(),
                self.utility == pre.utility,
                self.ordered == pre.ordered,
                self.joker == pre.joker,
                self.stacks_view() == mid.update(
                    di as int,
                    mid[di as int] + seg@.subrange(0, k as int),
                ),
            decreases seg@.len() - k,
        {
            let c = seg[k];
            proof {
                assert(mid[di as int] + seg@.subrange(0, (k + 1) as int) =~= (mid[di as int]
                    + seg@.subrange(0, k as int)).push(seg@[k as int]));
            }
            let ghost before = *self;
            self.in_play[di].push(c);
            proof {
                lemma_stacks_view_update(before, *self, di as int);
                assert(before.stacks_view()[di as int] == before.stack_seq(di as int));
                assert(self.stack_seq(di as int) == (mid[di as int] + seg@.subrange(
                    0,
                    k as int,
                )).push(seg@[k as int]));
                assert(self.stacks_view() =~= mid.update(
                    di as int,
                    mid[di as int] + seg@.subrange(0, (k + 1) as int),
                ));
            }
            k = k + 1;
        }
        proof {
            assert(seg@.subrange(0, seg@.len() as int) =~= seg@);
            assert(seg@ =~= srcseq.subrange(idx as int, srcseq.len() as int));
            assert(self.stacks_view() == stacks_after_run_move(
                pre.stacks_view(),
                si as int,
                di as int,
                idx as int,
            ));
        }
    }

    /// Applies a validated move to the board. Only the validator can make
    /// the `Valid` witness, so what arrives here is always legal for the
    /// board it was checked on.
    #[verifier::loop_isolation(false)]
    #[verifier::rlimit(60)]
    pub fn make_move(&mut self, v: Valid)
        requires
            old(self).wf(),
            old(self).spec_validate(v.0) is Ok,
        ensures
            final(self).wf(),
            move_applied(*old(self), *final(self), v.0),
    {
        let ghost pre = *self;
        let m = v.0;
        match (m.src, m.dst) {
            (_, Some(ClickTarget::RedButton)) => self.clear_jacks(Suit::Red),
            (_, Some(ClickTarget::GreenButton)) => self.clear_jacks(Suit::Green),
            (_, Some(ClickTarget::BlackButton)) => self.clear_jacks(Suit::Black),
            (Some(ClickTarget::Utility(u)), Some(ClickTarget::Stack(sp))) => {
                let ui = u.idx();
                let slot = self.utility[ui];
                self.utility[ui] = None;
                if let Some(CardOrJacks::Card(c)) = slot {
                    let di = sp.stack.idx();
                    self.in_play[di].push(c);
                    proof {
                        assert(self.stacks_view() =~= pre.stacks_view().update(
                            di as int,
                            pre.stack_seq(di as int).push(c),
                        ));
                        assert(self.utility@ =~= pre.utility@.update(
                            ui as int,
                            None::<CardOrJacks>,
                        ));
                    }
                } else {
                    proof {
                        assert(false);
                    }
                }
            },
            (Some(ClickTarget::Stack(sp1)), Some(ClickTarget::Stack(sp2))) => {
                let si = sp1.stack.idx();
                let di = sp2.stack.idx();
                let idx = match self.validate_idx_is_card(&sp1.stack, sp1.y) {
                    Ok(i) => i,
                    Err(_) => {
                        proof {
                            assert(false);
                        }
                        0
                    },
                };
                self.move_run(si, di, idx);
            },
            (Some(ClickTarget::Utility(u)), Some(ClickTarget::Ordered(o))) => {
                let ui = u.idx();
                let slot = self.utility[ui];
                self.utility[ui] = None;
                if let Some(CardOrJacks::Card(Card::Num(n))) = slot {
                    let oi = o.idx();
                    self.ordered[oi].push(n);
                    proof {
                        assert(self.piles_view() =~= pre.piles_view().update(
                            oi as int,
                            pre.pile_seq(oi as int).push(n),
                        ));
                        assert(self.utility@ =~= pre.utility@.update(
                            ui as int,
                            None::<CardOrJacks>,
                        ));
                    }
                } else {
                    proof {
                        assert(false);
                    }
                }
            },
            (Some(ClickTarget::Stack(sp)), Some(ClickTarget::Utility(u))) => {
                let si = sp.stack.idx();
                proof {
                    Board::lemma_click_index_bounds(sp.y, pre.stack_seq(si as int).len() as int);
                }
                let c = match self.in_play[si].pop() {
                    Some(c) => c,
                    None => {
                        proof {
                            assert(false);
                        }
                        Card::Joker
                    },
                };
                let ui = u.idx();
                self.utility[ui] = Some(CardOrJacks::Card(c));
                proof {
                    assert(self.stacks_view() =~= pre.stacks_view().update(
                        si as int,
                        pre.stack_seq(si as int).drop_last(),
                    ));
                }
            },
            (Some(ClickTarget::Stack(sp)), Some(ClickTarget::Ordered(o))) => {
                let si = sp.stack.idx();
                proof {
                    Board::lemma_click_index_bounds(sp.y, pre.stack_seq(si as int).len() as int);
                }
                let c = match self.in_play[si].pop() {
                    Some(c) => c,
                    None => {
                        proof {
                            assert(false);
                        }
                        Card::Joker
                    },
                };
                if let Card::Num(n) = c {
                    let oi = o.idx();
                    self.ordered[oi].push(n);
                    proof {
                        assert(self.stacks_view() =~= pre.stacks_view().update(
                            si as int,
                            pre.stack_seq(si as int).drop_last(),
                        ));
                        assert(self.piles_view() =~= pre.piles_view().update(
                            oi as int,
                            pre.pile_seq(oi as int).push(n),
                        ));
                    }
                } else {
                    proof {
                        assert(false);
                    }
                }
            },
            _ => {
                proof {
                    assert(false);
                }
            },
        }
    }
}

impl Board {
    /// The numbered card `n` occurs in the scanned part of the stacks:
    /// everything lexicographically before position (`k`, `j`).
    pub open spec fn num_in_scan(self, n: NumCard, k: int, j: int) -> bool {
        exists|a: int, b: int|
            0 <= a < 8 && 0 <= b < self.stack_seq(a).len() && (a < k || (a == k && b < j))
                && #[trigger] self.stack_seq(a)[b] == Card::Num(n)
    }

    /// The numbered card `n` occurs in the stacks or in a utility slot
    /// before slot `u`.
    pub open spec fn num_in_uscan(self, n: NumCard, u: int) -> bool {
        self.num_in_scan(n, 8, 0) || (exists|a: int|
            0 <= a < u && #[trigger] self.slot(a) == Some(CardOrJacks::Card(Card::Num(n))))
    }

    /// `min` is the least rank over the scanned part of the stacks.
    pub open spec fn min_of_scan(self, min: Option<usize>, k: int, j: int) -> bool {
        match min {
            Some(v) => (exists|n: NumCard|
                #[trigger] self.num_in_scan(n, k, j) && n.spec_value() == v) && (forall|
                n: NumCard,
            |
                #[trigger] self.num_in_scan(n, k, j) ==> v <= n.spec_value()),
            None => forall|n: NumCard| !(#[trigger] self.num_in_scan(n, k, j)),
        }
    }

    /// `min` is the least rank over the stacks plus the scanned slots.
    pub open spec fn min_of_uscan(self, min: Option<usize>, u: int) -> bool {
        match min {
            Some(v) => (exists|n: NumCard|
                #[trigger] self.num_in_uscan(n, u) && n.spec_value() == v) && (forall|n: NumCard|
                #[trigger] self.num_in_uscan(n, u) ==> v <= n.spec_value()),
            None => forall|n: NumCard| !(#[trigger] self.num_in_uscan(n, u)),
        }
    }

    /// `min` is the least rank over everything in play.
    pub open spec fn min_of_play(self, min: Option<usize>) -> bool {
        match min {
            Some(v) => (exists|n: NumCard|
                #[trigger] self.num_in_play(n) && n.spec_value() == v) && (forall|n: NumCard|
                #[trigger] self.num_in_play(n) ==> v <= n.spec_value()),
            None => forall|n: NumCard| !(#[trigger] self.num_in_play(n)),
        }
    }

    /// The least rank among the numbered cards anywhere in a stack or a
    /// utility slot, if any numbered card is in play at all.
    #[verifier::loop_isolation(false)]
    fn min_in_play(&self) -> (r: Option<usize>)
        requires
            self.wf(),
        ensures
            self.min_of_play(r),
    {
        let mut min: Option<usize> = None;
        let mut k: usize = 0;
        while k < 8
            invariant
                k <= 8,
                self.min_of_scan(min, k as int, 0),
            decreases 8 - k,
        {
            let mut j: usize = 0;
            while j < self.in_play[k].len()
                invariant
                    k < 8,
                    j <= self.stack_seq(k as int).len(),
                    self.min_of_scan(min, k as int, j as int),
                decreases self.stack_seq(k as int).len() - j,
            {
                let c = self.in_play[k][j];
                proof {
                    assert forall|n: NumCard|
                        #[trigger] self.num_in_scan(n, k as int, (j + 1) as int) && c != Card::Num(
                            n,
                        ) implies self.num_in_scan(n, k as int, j as int) by {}
                    assert forall|n: NumCard|
                        #[trigger] self.num_in_scan(n, k as int, j as int) implies self.num_in_scan(
                        n,
                        k as int,
                        (j + 1) as int,
                    ) by {}
                }
                if let Card::Num(n) = c {
                    let v = n.value();
                    min = match min {
                        None => Some(v),
                        Some(m0) => if v < m0 {
                            Some(v)
                        } else {
                            Some(m0)
                        },
                    };
                    proof {
                        assert(self.stack_seq(k as int)[j as int] == Card::Num(n));
                        assert(self.num_in_scan(n, k as int, (j + 1) as int));
                    }
                }
                j = j + 1;
            }
            proof {
                assert forall|n: NumCard|
                    #[trigger] self.num_in_scan(n, (k + 1) as int, 0) implies self.num_in_scan(
                    n,
                    k as int,
                    self.stack_seq(k as int).len() as int,
                ) by {}
                assert forall|n: NumCard|
                    #[trigger] self.num_in_scan(
                        n,
                        k as int,
                        self.stack_seq(k as int).len() as int,
                    ) implies self.num_in_scan(n, (k + 1) as int, 0) by {}
            }
            k = k + 1;
        }
        proof {
            assert forall|n: NumCard| #[trigger] self.num_in_uscan(n, 0) implies self.num_in_scan(
                n,
                8,
                0,
            ) by {}
            assert forall|n: NumCard| #[trigger] self.num_in_scan(n, 8, 0) implies self.num_in_uscan(
                n,
                0,
            ) by {}
        }
        let mut u: usize = 0;
        while u < 3
            invariant
                u <= 3,
                self.min_of_uscan(min, u as int),
            decreases 3 - u,
        {
            proof {
                assert forall|n: NumCard|
                    #[trigger] self.num_in_uscan(n, (u + 1) as int) && self.slot(u as int) != Some(
                        CardOrJacks::Card(Card::Num(n)),
                    ) implies self.num_in_uscan(n, u as int) by {}
                assert forall|n: NumCard|
                    #[trigger] self.num_in_uscan(n, u as int) implies self.num_in_uscan(
                    n,
                    (u + 1) as int,
                ) by {}
            }
            match self.utility[u] {
                Some(CardOrJacks::Card(c)) => {
                    if let Card::Num(n) = c {
                        let v = n.value();
                        min = match min {
                            None => Some(v),
                            Some(m0) => if v < m0 {
                                Some(v)
                            } else {
                                Some(m0)
                            },
                        };
                        proof {
                            assert(self.num_in_uscan(n, (u + 1) as int));
                        }
                    }
                },
                _ => {},
            }
            u = u + 1;
        }
        proof {
            assert forall|n: NumCard| #[trigger] self.num_in_play(n) implies self.num_in_uscan(
                n,
                3,
            ) by {}
            assert forall|n: NumCard| #[trigger] self.num_in_uscan(n, 3) implies self.num_in_play(
                n,
            ) by {}
        }
        min
    }

    /// One sweep step: pops and returns the first promotable stack tail
    /// (a numbered card of globally minimal rank, or failing that the
    /// joker), or returns nothing and leaves the board untouched.
    #[verifier::loop_isolation(false)]
    fn autosweep(&mut self) -> (r: Option<Card>)
        requires
            old(self).wf(),
        ensures
            final(self).wf(),
            (r is Some) == old(self).sweep_available(),
            r is None ==> *final(self) == *old(self),
            match r {
                Some(c) => exists|k: int|
                    0 <= k < 8 && #[trigger] popped_from(*old(self), *final(self), k) && old(
                        self,
                    ).stack_seq(k).last() == c && (match c {
                        Card::Num(_) => old(self).tail_ready(k),
                        Card::Joker => old(self).joker_at_tail(k) && !old(self).has_ready_tail(),
                        _ => false,
                    }),
                None => true,
            },
    {
        let ghost pre = *self;
        let min = self.min_in_play();
        if let Some(minv) = min {
            let mut k: usize = 0;
            while k < 8
                invariant
                    k <= 8,
                    *self == pre,
                    forall|t: int| 0 <= t < k ==> !(#[trigger] pre.tail_ready(t)),
                decreases 8 - k,
            {
                let len = self.in_play[k].len();
                if len > 0 {
                    let c = self.in_play[k][len - 1];
                    if let Some(v) = c.value() {
                        if v <= minv {
                            let popped = self.in_play[k].pop();
                            proof {
                                lemma_stacks_view_update(pre, *self, k as int);
                                assert(pre.stack_seq(k as int).drop_last() =~= pre.stack_seq(
                                    k as int,
                                ).subrange(0, pre.stack_seq(k as int).len() - 1));
                                assert(popped_from(pre, *self, k as int));
                                assert(pre.tail_ready(k as int));
                            }
                            return Some(c);
                        }
                    }
                }
                proof {
                    if pre.tail_ready(k as int) {
                        let st = pre.stack_seq(k as int);
                        match st.last() {
                            Card::Num(n) => {
                                let w = choose|n2: NumCard|
                                    #[trigger] pre.num_in_play(n2) && n2.spec_value() == minv;
                                assert(pre.num_in_play(w));
                                assert(n.spec_value() <= w.spec_value());
                                assert(false);
                            },
                            _ => {
                                assert(false);
                            },
                        }
                    }
                }
                k = k + 1;
            }
        } else {
            proof {
                assert forall|t: int| 0 <= t < 8 implies !(#[trigger] pre.tail_ready(t)) by {
                    if pre.tail_ready(t) {
                        let st = pre.stack_seq(t);
                        match st.last() {
                            Card::Num(n) => {
                                assert(st[st.len() - 1] == Card::Num(n));
                                assert(pre.num_in_play(n));
                            },
                            _ => {},
                        }
                    }
                }
            }
        }
        proof {
            assert(!pre.has_ready_tail());
        }
        let mut k: usize = 0;
        while k < 8
            invariant
                k <= 8,
                *self == pre,
                !pre.has_ready_tail(),
                forall|t: int| 0 <= t < k ==> !(#[trigger] pre.joker_at_tail(t)),
            decreases 8 - k,
        {
            let len = self.in_play[k].len();
            if len > 0 {
                let c = self.in_play[k][len - 1];
                if let Card::Joker = c {
                    let popped = self.in_play[k].pop();
                    proof {
                        lemma_stacks_view_update(pre, *self, k as int);
                        assert(pre.stack_seq(k as int).drop_last() =~= pre.stack_seq(
                            k as int,
                        ).subrange(0, pre.stack_seq(k as int).len() - 1));
                        assert(popped_from(pre, *self, k as int));
                        assert(pre.joker_at_tail(k as int));
                    }
                    return Some(Card::Joker);
                }
            }
            k = k + 1;
        }
        None
    }

    /// Sends a swept card home: the joker to its slot, a numbered card to
    /// its suit's foundation pile.
    fn insert_ordered(&mut self, card: Card)
        requires
            old(self).wf(),
            card == Card::Joker || card is Num,
        ensures
            final(self).wf(),
            match card {
                Card::Joker => {
                    &&& final(self).joker == Some(Card::Joker)
                    &&& final(self).stacks_view() == old(self).stacks_view()
                    &&& final(self).utility@ == old(self).utility@
                    &&& final(self).piles_view() == old(self).piles_view()
                },
                Card::Num(n) => {
                    &&& final(self).piles_view() == old(self).piles_view().update(
                        pile_of_suit(n.spec_suit()),
                        old(self).pile_seq(pile_of_suit(n.spec_suit())).push(n),
                    )
                    &&& final(self).joker == old(self).joker
                    &&& final(self).stacks_view() == old(self).stacks_view()
                    &&& final(self).utility@ == old(self).utility@
                },
                _ => false,
            },
    {
        match card {
            Card::Joker => {
                self.joker = Some(card);
            },
            Card::Num(n) => {
                let pi: usize = match n.suit() {
                    Suit::Red => 0,
                    Suit::Green => 1,
                    Suit::Black => 2,
                };
                let ghost before = *self;
                self.ordered[pi].push(n);
                proof {
                    lemma_piles_view_update(before, *self, pi as int);
                }
            },
            _ => {
                proof {
                    assert(false);
                }
            },
        }
    }
}

/// A pop takes exactly one copy of the popped card out of the count.
pub proof fn lemma_pop_count(a: Board, b: Board, k: int, c: Card)
    requires
        a.wf(),
        b.wf(),
        0 <= k < 8,
        popped_from(a, b, k),
    ensures
        b.card_count(c) + (if a.stack_seq(k).last() == c {
            1nat
        } else {
            0nat
        }) == a.card_count(c),
{
    assert(b.stacks_view()[k] == a.stack_seq(k).drop_last());
    assert(a.stacks_view()[k] == a.stack_seq(k));
    assert forall|j: int| 0 <= j < 8 && j != k implies b.stacks_view()[j] == a.stacks_view()[j] by {}
    lemma_sum_over_one_changed(a.stacks_view(), b.stacks_view(), stack_weight(c), k, 8);
    lemma_count_where_drop_last(a.stack_seq(k), is_card(c));
}

/// A push onto a foundation pile adds exactly one copy of the pushed card.
pub proof fn lemma_insert_num_count(a: Board, b: Board, n: NumCard, c: Card)
    requires
        a.wf(),
        b.wf(),
        b.piles_view() == a.piles_view().update(
            pile_of_suit(n.spec_suit()),
            a.pile_seq(pile_of_suit(n.spec_suit())).push(n),
        ),
        b.stacks_view() == a.stacks_view(),
        b.utility@ == a.utility@,
        b.joker == a.joker,
    ensures
        b.card_count(c) == a.card_count(c) + (if Card::Num(n) == c {
            1nat
        } else {
            0nat
        }),
{
    let gp = pile_of_suit(n.spec_suit());
    assert(0 <= gp < 3);
    assert(b.piles_view()[gp] == a.pile_seq(gp).push(n));
    assert(a.piles_view()[gp] == a.pile_seq(gp));
    assert forall|j: int| 0 <= j < 3 && j != gp implies b.piles_view()[j] == a.piles_view()[j] by {}
    lemma_sum_over_one_changed(a.piles_view(), b.piles_view(), pile_weight(c), gp, 3);
    lemma_count_where_push(a.pile_seq(gp), is_num_of(c), n);
}

/// A card that sits in a stack contributes to the stack totals.
pub proof fn lemma_stacks_have(b: Board, k: int, j: int, c: Card)
    requires
        b.wf(),
        0 <= k < 8,
        0 <= j < b.stack_seq(k).len(),
        b.stack_seq(k)[j] == c,
    ensures
        sum_over(b.stacks_view(), stack_weight(c), 8) >= 1,
{
    lemma_count_where_zero(b.stack_seq(k), is_card(c));
    assert(is_card(c)(b.stack_seq(k)[j]));
    assert(b.stacks_view()[k] == b.stack_seq(k));
    lemma_sum_over_lower(b.stacks_view(), stack_weight(c), k, 8);
}

/// A card that sits on a foundation pile contributes to the pile totals.
pub proof fn lemma_piles_have(b: Board, k: int, j: int, n: NumCard)
    requires
        b.wf(),
        0 <= k < 3,
        0 <= j < b.pile_seq(k).len(),
        b.pile_seq(k)[j] == n,
    ensures
        sum_over(b.piles_view(), pile_weight(Card::Num(n)), 3) >= 1,
{
    lemma_count_where_zero(b.pile_seq(k), is_num_of(Card::Num(n)));
    assert(is_num_of(Card::Num(n))(b.pile_seq(k)[j]));
    assert(b.piles_view()[k] == b.pile_seq(k));
    lemma_sum_over_lower(b.piles_view(), pile_weight(Card::Num(n)), k, 3);
}

/// A numbered card of the deck that is nowhere in play has already been
/// promoted: its rank lies inside its suit's foundation pile.
pub proof fn lemma_num_on_pile(b: Board, n: NumCard)
    requires
        b.inv(),
        !b.num_in_play(n),
        n.spec_value() < 9,
    ensures
        n.spec_value() < b.pile_seq(pile_of_suit(n.spec_suit())).len(),
{
    let c = Card::Num(n);
    assert(b.card_count(c) == 1);
    let sv = b.stacks_view();
    if sum_over(sv, stack_weight(c), 8) > 0 {
        lemma_sum_over_pos(sv, stack_weight(c), 8);
        let k = choose|i: int| 0 <= i < 8 && stack_weight(c)(sv[i]) > 0;
        assert(sv[k] == b.stack_seq(k));
        lemma_count_where_zero(b.stack_seq(k), is_card(c));
        assert(!(forall|i: int|
            0 <= i < b.stack_seq(k).len() ==> !is_card(c)(b.stack_seq(k)[i])));
        let j = choose|j: int| 0 <= j < b.stack_seq(k).len() && is_card(c)(b.stack_seq(k)[j]);
        assert(b.stack_seq(k)[j] == Card::Num(n));
        assert(b.num_in_play(n));
        assert(false);
    }
    if sum_over(b.utility@, slot_weight(c), 3) > 0 {
        lemma_sum_over_pos(b.utility@, slot_weight(c), 3);
        let k = choose|i: int| 0 <= i < 3 && slot_weight(c)(b.utility@[i]) > 0;
        match b.utility@[k] {
            Some(CardOrJacks::Card(cc)) => {
                assert(cc == c);
                assert(b.slot(k) == Some(CardOrJacks::Card(Card::Num(n))));
                assert(b.num_in_play(n));
            },
            _ => {},
        }
        assert(false);
    }
    assert(b.joker != Some(c));
    assert(sum_over(b.piles_view(), pile_weight(c), 3) == 1);
    lemma_sum_over_pos(b.piles_view(), pile_weight(c), 3);
    let k = choose|i: int| 0 <= i < 3 && pile_weight(c)(b.piles_view()[i]) > 0;
    assert(b.piles_view()[k] == b.pile_seq(k));
    lemma_count_where_zero(b.pile_seq(k), is_num_of(c));
    assert(!(forall|i: int| 0 <= i < b.pile_seq(k).len() ==> !is_num_of(c)(b.pile_seq(k)[i])));
    let i = choose|i: int| 0 <= i < b.pile_seq(k).len() && is_num_of(c)(b.pile_seq(k)[i]);
    assert(b.pile_seq(k)[i] == n);
    assert(pile_ok(b.pile_seq(k)));
    assert(i == n.spec_value());
    assert(b.pile_seq(k)[0].spec_suit() == n.spec_suit());
    assert(pile_suit(k) == n.spec_suit());
    assert(k == pile_of_suit(n.spec_suit()));
}

/// Why the greedy sweep is safe: a stack-top numbered card of globally
/// minimal rank is exactly the next card its suit's pile needs.
pub proof fn lemma_min_promotable(a: Board, k: int, n: NumCard)
    requires
        a.inv(),
        0 <= k < 8,
        a.tail_ready(k),
        a.stack_seq(k).last() == Card::Num(n),
    ensures
        a.pile_seq(pile_of_suit(n.spec_suit())).len() == n.spec_value(),
        n.spec_value() < 9,
{
    let c = Card::Num(n);
    let v = n.spec_value() as int;
    let s = n.spec_suit();
    let gp = pile_of_suit(s);
    let p = a.pile_seq(gp);
    lemma_stacks_have(a, k, a.stack_seq(k).len() - 1, c);
    assert(a.card_count(c) >= 1);
    assert(deck_multiplicity(c) >= 1);
    assert(n.spec_value() < 9);
    if p.len() > v {
        assert(pile_ok(p));
        assert(p[v].spec_value() == v);
        assert(p[v].spec_suit() == p[0].spec_suit());
        assert(p[0].spec_suit() == pile_suit(gp));
        assert(p[v] == n);
        lemma_piles_have(a, gp, v, n);
        assert(a.card_count(c) >= 2);
        assert(false);
    }
    if p.len() < v {
        let r = p.len() as int;
        let mr = num_card(s, r as usize);
        assert(mr.spec_value() == r && mr.spec_suit() == s);
        if a.num_in_play(mr) {
            assert(n.spec_value() <= mr.spec_value());
            assert(false);
        }
        lemma_num_on_pile(a, mr);
        assert(false);
    }
    assert(p.len() == v);
}

/// Truncating a stack keeps the chain rule.
pub proof fn lemma_chains_drop_last(a: Board, b: Board, k: int)
    requires
        a.wf(),
        b.wf(),
        0 <= k < 8,
        popped_from(a, b, k),
        a.chains_ok(),
    ensures
        b.chains_ok(),
{
    assert forall|t: int| 0 <= t < 8 implies stack_chained(#[trigger] b.stack_seq(t)) by {
        assert(b.stacks_view()[t] == b.stack_seq(t));
        assert(a.stacks_view()[t] == a.stack_seq(t));
        if t == k {
            assert(stack_chained(a.stack_seq(k)));
            assert forall|i: int|
                0 <= i < b.stack_seq(t).len() - 1 implies chain_pair(
                #[trigger] b.stack_seq(t)[i],
                b.stack_seq(t)[i + 1],
            ) by {
                assert(b.stack_seq(t)[i] == a.stack_seq(t)[i]);
                assert(b.stack_seq(t)[i + 1] == a.stack_seq(t)[i + 1]);
                assert(chain_pair(a.stack_seq(t)[i], a.stack_seq(t)[i + 1]));
            }
        } else {
            assert(b.stack_seq(t) == a.stack_seq(t));
        }
    }
}

/// One whole sweep step (pop plus promote) keeps every game invariant,
/// conserves the cards, and keeps the chain rule.
pub proof fn lemma_sweep_step(a: Board, mid: Board, b: Board, k: int, c: Card)
    requires
        a.inv(),
        mid.wf(),
        b.wf(),
        0 <= k < 8,
        popped_from(a, mid, k),
        a.stack_seq(k).last() == c,
        match c {
            Card::Num(_) => a.tail_ready(k),
            Card::Joker => a.joker_at_tail(k),
            _ => false,
        },
        match c {
            Card::Joker => {
                &&& b.joker == Some(Card::Joker)
                &&& b.stacks_view() == mid.stacks_view()
                &&& b.utility@ == mid.utility@
                &&& b.piles_view() == mid.piles_view()
            },
            Card::Num(n) => {
                &&& b.piles_view() == mid.piles_view().update(
                    pile_of_suit(n.spec_suit()),
                    mid.pile_seq(pile_of_suit(n.spec_suit())).push(n),
                )
                &&& b.joker == mid.joker
                &&& b.stacks_view() == mid.stacks_view()
                &&& b.utility@ == mid.utility@
            },
            _ => false,
        },
    ensures
        b.inv(),
        forall|cc: Card| #[trigger] b.card_count(cc) == a.card_count(cc),
        a.chains_ok() ==> b.chains_ok(),
{
    match c {
        Card::Num(n) => {
            lemma_min_promotable(a, k, n);
            let s = n.spec_suit();
            let gp = pile_of_suit(s);
            let v = n.spec_value() as int;
            assert(0 <= gp < 3);
            assert(mid.pile_seq(gp) == a.pile_seq(gp)) by {
                assert(mid.piles_view()[gp] == a.piles_view()[gp]);
            }
            // conservation
            assert forall|cc: Card| #[trigger] b.card_count(cc) == a.card_count(cc) by {
                lemma_pop_count(a, mid, k, cc);
                assert(b.piles_view() == mid.piles_view().update(
                    pile_of_suit(n.spec_suit()),
                    mid.pile_seq(pile_of_suit(n.spec_suit())).push(n),
                ));
                lemma_insert_num_count(mid, b, n, cc);
            }
            // foundations and alignment
            assert(b.pile_seq(gp) == a.pile_seq(gp).push(n)) by {
                assert(b.piles_view()[gp] == mid.pile_seq(gp).push(n));
            }
            assert forall|t: int| 0 <= t < 3 implies pile_ok(#[trigger] b.pile_seq(t)) by {
                assert(b.piles_view()[t] == b.pile_seq(t));
                assert(mid.piles_view()[t] == mid.pile_seq(t));
                assert(a.piles_view()[t] == a.pile_seq(t));
                if t == gp {
                    let np = b.pile_seq(gp);
                    let op = a.pile_seq(gp);
                    assert(pile_ok(op));
                    assert(op.len() == v);
                    assert forall|i: int|
                        0 <= i < np.len() implies (#[trigger] np[i]).spec_value() == i
                            && np[i].spec_suit() == np[0].spec_suit() by {
                        if v == 0 {
                            assert(np.len() == 1);
                            assert(np[0] == n);
                        } else {
                            assert(np[0] == op[0]);
                            assert(op[0].spec_suit() == pile_suit(gp));
                            assert(pile_suit(gp) == s);
                            if i < v {
                                assert(np[i] == op[i]);
                            } else {
                                assert(np[i] == n);
                            }
                        }
                    }
                } else {
                    assert(b.pile_seq(t) == a.pile_seq(t));
                }
            }
            assert forall|t: int|
                0 <= t < 3 && (#[trigger] b.pile_seq(t)).len() > 0 implies b.pile_seq(
                t,
            )[0].spec_suit() == pile_suit(t) by {
                assert(b.piles_view()[t] == b.pile_seq(t));
                assert(mid.piles_view()[t] == mid.pile_seq(t));
                assert(a.piles_view()[t] == a.pile_seq(t));
                if t == gp {
                    if a.pile_seq(gp).len() == 0 {
                        assert(b.pile_seq(gp)[0] == n);
                    } else {
                        assert(b.pile_seq(gp)[0] == a.pile_seq(gp)[0]);
                    }
                } else {
                    assert(b.pile_seq(t) == a.pile_seq(t));
                }
            }
            // the rest of the invariant
            assert(b.joker == a.joker);
            assert(b.deck_ok());
            if a.chains_ok() {
                lemma_chains_drop_last(a, mid, k);
                assert forall|t: int| 0 <= t < 8 implies stack_chained(
                    #[trigger] b.stack_seq(t),
                ) by {
                    assert(b.stacks_view()[t] == mid.stacks_view()[t]);
                    assert(b.stack_seq(t) == mid.stack_seq(t));
                }
            }
        },
        Card::Joker => {
            // the joker slot was empty: the one joker sat on stack k
            lemma_stacks_have(a, k, a.stack_seq(k).len() - 1, Card::Joker);
            assert(a.card_count(Card::Joker) == 1);
            if a.joker == Some(Card::Joker) {
                assert(a.card_count(Card::Joker) >= 2);
                assert(false);
            }
            assert(a.joker is None);
            assert forall|cc: Card| #[trigger] b.card_count(cc) == a.card_count(cc) by {
                lemma_pop_count(a, mid, k, cc);
                assert(b.piles_view() == mid.piles_view());
                assert(sum_over(b.piles_view(), pile_weight(cc), 3) == sum_over(
                    mid.piles_view(),
                    pile_weight(cc),
                    3,
                ));
            }
            assert forall|t: int| 0 <= t < 3 implies pile_ok(#[trigger] b.pile_seq(t)) by {
                assert(b.piles_view()[t] == b.pile_seq(t));
                assert(a.piles_view()[t] == a.pile_seq(t));
                assert(b.pile_seq(t) == a.pile_seq(t));
            }
            assert forall|t: int|
                0 <= t < 3 && (#[trigger] b.pile_seq(t)).len() > 0 implies b.pile_seq(
                t,
            )[0].spec_suit() == pile_suit(t) by {
                assert(b.piles_view()[t] == b.pile_seq(t));
                assert(a.piles_view()[t] == a.pile_seq(t));
                assert(b.pile_seq(t) == a.pile_seq(t));
            }
            assert(b.deck_ok());
            if a.chains_ok() {
                lemma_chains_drop_last(a, mid, k);
                assert forall|t: int| 0 <= t < 8 implies stack_chained(
                    #[trigger] b.stack_seq(t),
                ) by {
                    assert(b.stacks_view()[t] == mid.stacks_view()[t]);
                    assert(b.stack_seq(t) == mid.stack_seq(t));
                }
            }
        },
        _ => {
            assert(false);
        },
    }
}

impl Board {
    /// Runs the autosweep to its fixpoint: promotes provably safe cards
    /// one at a time until a pass finds nothing. Starting at a fixpoint
    /// changes nothing, and a fixpoint is always reached.
    #[verifier::loop_isolation(false)]
    pub fn sweep_free(&mut self)
        requires
            old(self).wf(),
        ensures
            final(self).wf(),
            !final(self).sweep_available(),
            !old(self).sweep_available() ==> *final(self) == *old(self),
            old(self).inv() ==> final(self).inv(),
            old(self).inv() ==> (forall|c: Card| #[trigger] final(self).card_count(c) == old(
                self,
            ).card_count(c)),
            old(self).inv() && old(self).chains_ok() ==> final(self).chains_ok(),
    {
        let ghost pre = *self;
        loop
            invariant
                self.wf(),
                pre.inv() ==> self.inv(),
                pre.inv() ==> (forall|c: Card| #[trigger] self.card_count(c) == pre.card_count(
                    c,
                )),
                pre.inv() && pre.chains_ok() ==> self.chains_ok(),
                !pre.sweep_available() ==> *self == pre,
            decreases self.total_stack_len(),
        {
            let ghost cur = *self;
            let r = self.autosweep();
            match r {
                None => {
                    return ;
                },
                Some(card) => {
                    let ghost mid = *self;
                    let ghost kk = choose|k: int|
                        0 <= k < 8 && #[trigger] popped_from(cur, mid, k) && cur.stack_seq(
                            k,
                        ).last() == card && (match card {
                            Card::Num(_) => cur.tail_ready(k),
                            Card::Joker => cur.joker_at_tail(k) && !cur.has_ready_tail(),
                            _ => false,
                        });
                    self.insert_ordered(card);
                    proof {
                        if pre.inv() {
                            lemma_sweep_step(cur, mid, *self, kk, card);
                        }
                        // one card left the stacks, so the sweep ends
                        lemma_sum_over_one_changed(
                            cur.stacks_view(),
                            mid.stacks_view(),
                            stack_len_weight(),
                            kk,
                            8,
                        );
                        assert(mid.stacks_view()[kk] == cur.stack_seq(kk).drop_last());
                        assert(cur.stacks_view()[kk] == cur.stack_seq(kk));
                        assert(self.total_stack_len() < cur.total_stack_len());
                    }
                },
            }
        }
    }
}

/// The same card counted in a sequence and in its multiset agree.
pub proof fn lemma_count_where_eq_multiset(s: Seq<Card>, c: Card)
    ensures
        count_where(s, is_card(c)) == s.to_multiset().count(c),
    decreases s.len(),
{
    if s.len() == 0 {
        s.to_multiset_ensures();
        assert(!s.contains(c));
        assert(s.to_multiset().count(c) == 0);
    } else {
        lemma_count_where_eq_multiset(s.drop_last(), c);
        lemma_count_where_drop_last(s, is_card(c));
        s.drop_last().to_multiset_ensures();
        assert(s.drop_last().push(s.last()) =~= s);
        assert(s.drop_last().push(s.last()).to_multiset() =~= s.drop_last().to_multiset().insert(
            s.last(),
        ));
    }
}

/// Pushing one card onto a pile of cards raises its count by one and no
/// other count at all.
proof fn lemma_deck_push_counts(s: Seq<Card>, x: Card)
    ensures
        forall|c: Card|
            #[trigger] count_where(s.push(x), is_card(c)) == count_where(s, is_card(c)) + (if x
                == c {
                1nat
            } else {
                0nat
            }),
{
    assert forall|c: Card|
        #[trigger] count_where(s.push(x), is_card(c)) == count_where(s, is_card(c)) + (if x == c {
            1nat
        } else {
            0nat
        }) by {
        lemma_count_where_push(s, is_card(c), x);
    }
}

/// How often card `c` occurs once the joker and `t` of each jack are in.
pub open spec fn early_deck_count(c: Card, t: int) -> nat {
    match c {
        Card::Joker => 1nat,
        Card::JBlack => t as nat,
        Card::JRed => t as nat,
        Card::JGreen => t as nat,
        Card::Num(_) => 0nat,
    }
}

/// How often card `c` occurs once the ranks below `i` are in as well.
pub open spec fn mid_deck_count(c: Card, i: int) -> nat {
    match c {
        Card::Joker => 1nat,
        Card::JBlack => 4nat,
        Card::JRed => 4nat,
        Card::JGreen => 4nat,
        Card::Num(n) => if n.spec_value() < i {
            1nat
        } else {
            0nat
        },
    }
}

/// Builds the 40-card deck: the joker, four jacks of each suit, and the
/// ranks zero through eight in each suit.
#[verifier::loop_isolation(false)]
fn full_deck() -> (d: Vec<Card>)
    ensures
        d@.len() == 40,
        forall|c: Card| #[trigger] count_where(d@, is_card(c)) == deck_multiplicity(c),
{
    let mut d: Vec<Card> = Vec::new();
    proof {
        assert forall|c: Card| #[trigger] count_where(d@, is_card(c)) == 0nat by {}
    }
    let ghost d0 = d@;
    d.push(Card::Joker);
    proof {
        lemma_deck_push_counts(d0, Card::Joker);
    }
    let mut t: usize = 0;
    while t < 4
        invariant
            t <= 4,
            d@.len() == 1 + 3 * t,
            forall|c: Card| #[trigger] count_where(d@, is_card(c)) == early_deck_count(c, t as int),
        decreases 4 - t,
    {
        let ghost d1 = d@;
        d.push(Card::JBlack);
        let ghost d2 = d@;
        d.push(Card::JRed);
        let ghost d3 = d@;
        d.push(Card::JGreen);
        proof {
            lemma_deck_push_counts(d1, Card::JBlack);
            lemma_deck_push_counts(d2, Card::JRed);
            lemma_deck_push_counts(d3, Card::JGreen);
        }
        t = t + 1;
    }
    let mut i: usize = 0;
    while i < 9
        invariant
            i <= 9,
            d@.len() == 13 + 3 * i,
            forall|c: Card| #[trigger] count_where(d@, is_card(c)) == mid_deck_count(c, i as int),
        decreases 9 - i,
    {
        let ghost d1 = d@;
        d.push(Card::Num(NumCard::Black(i)));
        let ghost d2 = d@;
        d.push(Card::Num(NumCard::Red(i)));
        let ghost d3 = d@;
        d.push(Card::Num(NumCard::Green(i)));
        proof {
            lemma_deck_push_counts(d1, Card::Num(NumCard::Black(i)));
            lemma_deck_push_counts(d2, Card::Num(NumCard::Red(i)));
            lemma_deck_push_counts(d3, Card::Num(NumCard::Green(i)));
        }
        i = i + 1;
    }
    d
}

/// Relies on rand's SliceRandom::shuffle: it permutes the slice in place,
/// so the cards and their number are unchanged, only their order moves.
#[verifier::external_body]
fn shuffle_deck(deck: &mut Vec<Card>)
    ensures
        final(deck)@.to_multiset() == old(deck)@.to_multiset(),
        final(deck)@.len() == old(deck)@.len(),
{
    deck.shuffle(&mut rand::rng());
}

impl Board {
    /// Deals a freshly shuffled deck, five cards to each of the eight
    /// stacks, then sweeps the new tableau to its fixpoint.
    #[verifier::loop_isolation(false)]
    pub fn new() -> (b: Board)
        ensures
            b.inv(),
            !b.sweep_available(),
    {
        let mut deck = full_deck();
        let ghost d0 = deck@;
        shuffle_deck(&mut deck);
        proof {
            assert forall|c: Card|
                #[trigger] count_where(deck@, is_card(c)) == deck_multiplicity(c) by {
                lemma_count_where_eq_multiset(d0, c);
                lemma_count_where_eq_multiset(deck@, c);
            }
        }
        let mut in_play: Vec<Vec<Card>> = Vec::new();
        let mut k: usize = 0;
        while k < 8
            invariant
                k <= 8,
                in_play@.len() == k,
                deck@.len() == 40 - 5 * k,
                forall|c: Card|
                    #[trigger] count_where(deck@, is_card(c)) + sum_over(
                        views_of(in_play@),
                        stack_weight(c),
                        k as int,
                    ) == deck_multiplicity(c),
            decreases 8 - k,
        {
            let mut stack: Vec<Card> = Vec::new();
            let mut j: usize = 0;
            while j < 5
                invariant
                    j <= 5,
                    deck@.len() == 40 - 5 * k - j,
                    forall|c: Card|
                        #[trigger] count_where(deck@, is_card(c)) + count_where(
                            stack@,
                            is_card(c),
                        ) + sum_over(views_of(in_play@), stack_weight(c), k as int)
                            == deck_multiplicity(c),
                decreases 5 - j,
            {
                let ghost dprev = deck@;
                let ghost sprev = stack@;
                let card = match deck.pop() {
                    Some(cd) => cd,
                    None => {
                        proof {
                            assert(false);
                        }
                        Card::Joker
                    },
                };
                stack.push(card);
                proof {
                    assert(dprev.drop_last() =~= deck@);
                    assert forall|c: Card|
                        #[trigger] count_where(deck@, is_card(c)) + count_where(
                            stack@,
                            is_card(c),
                        ) + sum_over(views_of(in_play@), stack_weight(c), k as int)
                            == deck_multiplicity(c) by {
                        lemma_count_where_drop_last(dprev, is_card(c));
                        lemma_count_where_push(sprev, is_card(c), card);
                    }
                }
                j = j + 1;
            }
            let ghost ipprev = in_play@;
            in_play.push(stack);
            proof {
                assert forall|c: Card|
                    #[trigger] count_where(deck@, is_card(c)) + sum_over(
                        views_of(in_play@),
                        stack_weight(c),
                        (k + 1) as int,
                    ) == deck_multiplicity(c) by {
                    lemma_sum_over_agree(
                        views_of(in_play@),
                        views_of(ipprev),
                        stack_weight(c),
                        k as int,
                    );
                    assert(views_of(in_play@)[k as int] == stack@);
                }
            }
            k = k + 1;
        }
        let mut utility: Vec<Option<CardOrJacks>> = Vec::new();
        utility.push(None);
        utility.push(None);
        utility.push(None);
        let mut ordered: Vec<Vec<NumCard>> = Vec::new();
        ordered.push(Vec::new());
        ordered.push(Vec::new());
        ordered.push(Vec::new());
        let mut b = Board { joker: None, utility, ordered, in_play };
        proof {
            assert forall|c: Card| #[trigger] b.card_count(c) == deck_multiplicity(c) by {
                assert(count_where(deck@, is_card(c)) == 0);
                assert(b.stacks_view() == views_of(in_play@));
                assert(sum_over(views_of(in_play@), stack_weight(c), 8) == deck_multiplicity(c));
                assert forall|i: int| 0 <= i < 3 implies slot_weight(c)(b.utility@[i]) == 0 by {
                    assert(b.utility@[i] is None);
                }
                lemma_sum_over_zero(b.utility@, slot_weight(c), 3);
                assert forall|i: int| 0 <= i < 3 implies pile_weight(c)(b.piles_view()[i])
                    == 0 by {
                    assert(b.piles_view()[i] == b.ordered@[i]@);
                    assert(b.ordered@[i]@.len() == 0);
                }
                lemma_sum_over_zero(b.piles_view(), pile_weight(c), 3);
            }
        }
        b.sweep_free();
        b
    }
}

} // verus!
