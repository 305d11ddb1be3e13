use village_solitaire::board::Board;
use village_solitaire::card::{Card, CardOrJacks, Jacks, NumCard, Suit};
use village_solitaire::error::Error;
use village_solitaire::gamemove::{ClickTarget, Move, Ordered, Stack, StackPosition, Utility};

fn empty_board() -> Board {
    Board {
        joker: None,
        utility: vec![None, None, None],
        ordered: vec![vec![], vec![], vec![]],
        in_play: vec![
            vec![],
            vec![],
            vec![],
            vec![],
            vec![],
            vec![],
            vec![],
            vec![],
        ],
    }
}

fn stack_click(s: Stack, y: u32) -> Option<ClickTarget> {
    Some(ClickTarget::Stack(StackPosition { stack: s, y }))
}

/// Counts every card on the board, a jack bundle standing for four jacks.
fn total_cards(b: &Board) -> usize {
    let mut n = 0;
    for st in &b.in_play {
        n += st.len();
    }
    for slot in &b.utility {
        match slot {
            Some(CardOrJacks::Card(_)) => n += 1,
            Some(CardOrJacks::Jacks(_)) => n += 4,
            None => {},
        }
    }
    for pile in &b.ordered {
        n += pile.len();
    }
    if b.joker.is_some() {
        n += 1;
    }
    n
}

#[test]
fn utility_to_empty_foundation_takes_rank_zero() {
    let mut b = empty_board();
    b.utility[0] = Some(CardOrJacks::Card(Card::Num(NumCard::Red(0))));
    let m = Move {
        src: Some(ClickTarget::Utility(Utility::Utility0)),
        dst: Some(ClickTarget::Ordered(Ordered::Ordered0)),
    };
    let v = b.get_valid(m).expect("a rank-zero card opens an empty pile");
    b.make_move(v);
    assert_eq!(b.ordered[0], vec![NumCard::Red(0)]);
    assert!(b.utility[0].is_none());
}

#[test]
fn red_button_clears_all_four_jacks() {
    let mut b = empty_board();
    b.in_play[0] = vec![Card::Num(NumCard::Green(4)), Card::JRed];
    b.in_play[1] = vec![Card::JRed];
    b.in_play[2] = vec![Card::JRed];
    b.utility[1] = Some(CardOrJacks::Card(Card::JRed));
    let m = Move { src: None, dst: Some(ClickTarget::RedButton) };
    let v = b.get_valid(m).expect("all four red jacks are visible");
    b.make_move(v);
    for st in &b.in_play {
        assert!(!st.contains(&Card::JRed));
    }
    let bundles: Vec<&Option<CardOrJacks>> = b
        .utility
        .iter()
        .filter(|s| matches!(s, Some(CardOrJacks::Jacks(Jacks::Red))))
        .collect();
    assert_eq!(bundles.len(), 1);
    // the bundle went to the first open slot
    assert_eq!(b.utility[0], Some(CardOrJacks::Jacks(Jacks::Red)));
    assert!(b.utility[1].is_none());
}

#[test]
fn equal_rank_cannot_parent_on_stack() {
    let mut b = empty_board();
    b.in_play[0] = vec![Card::Num(NumCard::Black(5))];
    b.in_play[1] = vec![Card::Num(NumCard::Green(5))];
    let m = Move { src: stack_click(Stack::Stack0, 150), dst: stack_click(Stack::Stack1, 150) };
    assert_eq!(b.get_valid(m).unwrap_err(), Error::StackCantParent);
}

#[test]
fn rank_below_parent_of_same_suit_rejected() {
    let mut b = empty_board();
    b.in_play[0] = vec![Card::Num(NumCard::Black(4))];
    b.in_play[1] = vec![Card::Num(NumCard::Black(5))];
    let m = Move { src: stack_click(Stack::Stack0, 150), dst: stack_click(Stack::Stack1, 150) };
    assert_eq!(b.get_valid(m).unwrap_err(), Error::StackCantParent);
}

#[test]
fn descending_other_suit_is_legal_stack_move() {
    let mut b = empty_board();
    b.in_play[0] = vec![Card::Num(NumCard::Red(4))];
    b.in_play[1] = vec![Card::Num(NumCard::Black(5))];
    let m = Move { src: stack_click(Stack::Stack0, 150), dst: stack_click(Stack::Stack1, 150) };
    let v = b.get_valid(m).expect("red four rests on black five");
    b.make_move(v);
    assert!(b.in_play[0].is_empty());
    assert_eq!(
        b.in_play[1],
        vec![Card::Num(NumCard::Black(5)), Card::Num(NumCard::Red(4))]
    );
}

#[test]
fn ordered_run_moves_whole_and_in_order() {
    let mut b = empty_board();
    b.in_play[0] = vec![
        Card::Joker,
        Card::Num(NumCard::Black(7)),
        Card::Num(NumCard::Red(6)),
        Card::Num(NumCard::Green(5)),
    ];
    b.in_play[3] = vec![Card::Num(NumCard::Green(8))];
    // click the black seven: index 1 of four cards
    let m = Move { src: stack_click(Stack::Stack0, 145), dst: stack_click(Stack::Stack3, 150) };
    let v = b.get_valid(m).expect("the run descends and alternates");
    b.make_move(v);
    assert_eq!(b.in_play[0], vec![Card::Joker]);
    assert_eq!(
        b.in_play[3],
        vec![
            Card::Num(NumCard::Green(8)),
            Card::Num(NumCard::Black(7)),
            Card::Num(NumCard::Red(6)),
            Card::Num(NumCard::Green(5)),
        ]
    );
}

#[test]
fn out_of_order_run_is_rejected() {
    let mut b = empty_board();
    b.in_play[0] = vec![Card::Num(NumCard::Black(3)), Card::Num(NumCard::Red(7))];
    b.in_play[1] = vec![Card::Num(NumCard::Green(4))];
    // click the bottom card: its run is not a chain
    let m = Move { src: stack_click(Stack::Stack0, 120), dst: stack_click(Stack::Stack1, 150) };
    assert_eq!(b.get_valid(m).unwrap_err(), Error::StackOutOfOrder);
}

#[test]
fn deal_sweeps_minimum_tail_before_first_render() {
    let mut b = empty_board();
    b.in_play[0] = vec![Card::JBlack, Card::Num(NumCard::Red(0))];
    b.in_play[1] = vec![Card::Num(NumCard::Red(1))];
    b.sweep_free();
    // the red zero and then the red one are promoted at once
    assert_eq!(b.ordered[0], vec![NumCard::Red(0), NumCard::Red(1)]);
    assert_eq!(b.in_play[0], vec![Card::JBlack]);
    assert!(b.in_play[1].is_empty());
}

#[test]
fn sweep_at_fixpoint_changes_nothing() {
    let mut b = empty_board();
    b.in_play[0] = vec![Card::Num(NumCard::Green(5)), Card::Num(NumCard::Red(2))];
    b.in_play[1] = vec![Card::Num(NumCard::Red(1))];
    b.utility[2] = Some(CardOrJacks::Card(Card::Num(NumCard::Black(0))));
    // the black zero sits in a slot, so no tail is at the minimum
    let joker = b.joker.clone();
    let utility = b.utility.clone();
    let ordered = b.ordered.clone();
    let in_play = b.in_play.clone();
    b.sweep_free();
    assert_eq!(b.joker, joker);
    assert_eq!(b.utility, utility);
    assert_eq!(b.ordered, ordered);
    assert_eq!(b.in_play, in_play);
}

#[test]
fn validator_never_mutates_the_board() {
    let mut b = empty_board();
    b.in_play[0] = vec![Card::Num(NumCard::Black(5))];
    b.utility[0] = Some(CardOrJacks::Card(Card::JGreen));
    let joker = b.joker.clone();
    let utility = b.utility.clone();
    let ordered = b.ordered.clone();
    let in_play = b.in_play.clone();
    for m in [
        Move { src: stack_click(Stack::Stack0, 150), dst: stack_click(Stack::Stack1, 150) },
        Move {
            src: Some(ClickTarget::Utility(Utility::Utility0)),
            dst: Some(ClickTarget::Ordered(Ordered::Ordered1)),
        },
        Move { src: None, dst: Some(ClickTarget::GreenButton) },
    ] {
        let _ = b.get_valid(m);
    }
    assert_eq!(b.joker, joker);
    assert_eq!(b.utility, utility);
    assert_eq!(b.ordered, ordered);
    assert_eq!(b.in_play, in_play);
}

#[test]
fn joker_is_swept_to_its_slot() {
    let mut b = empty_board();
    b.in_play[5] = vec![Card::JGreen, Card::Joker];
    b.sweep_free();
    assert_eq!(b.joker, Some(Card::Joker));
    assert_eq!(b.in_play[5], vec![Card::JGreen]);
}

#[test]
fn new_game_holds_the_whole_deck_swept() {
    let b = Board::new();
    assert_eq!(total_cards(&b), 40);
    assert_eq!(b.utility.len(), 3);
    assert_eq!(b.ordered.len(), 3);
    assert_eq!(b.in_play.len(), 8);
    // each foundation pile is a contiguous run of one suit from zero
    for pile in &b.ordered {
        for (i, c) in pile.iter().enumerate() {
            assert_eq!(c.value(), i);
        }
    }
}

#[test]
fn card_conservation_across_moves() {
    let mut b = empty_board();
    b.in_play[0] = vec![Card::Num(NumCard::Red(4))];
    b.in_play[1] = vec![Card::Num(NumCard::Black(5))];
    b.in_play[2] = vec![Card::JGreen];
    b.utility[0] = Some(CardOrJacks::Card(Card::Num(NumCard::Green(3))));
    let before = total_cards(&b);
    let v = b
        .get_valid(Move {
            src: stack_click(Stack::Stack0, 150),
            dst: stack_click(Stack::Stack1, 150),
        })
        .unwrap();
    b.make_move(v);
    assert_eq!(total_cards(&b), before);
    let v = b
        .get_valid(Move {
            src: Some(ClickTarget::Utility(Utility::Utility0)),
            dst: stack_click(Stack::Stack1, 150),
        })
        .unwrap();
    b.make_move(v);
    assert_eq!(total_cards(&b), before);
}

#[test]
fn bundle_counts_as_four_across_a_clearing() {
    let mut b = empty_board();
    b.in_play[0] = vec![Card::JBlack];
    b.in_play[1] = vec![Card::JBlack];
    b.in_play[2] = vec![Card::JBlack];
    b.in_play[3] = vec![Card::JBlack];
    b.in_play[4] = vec![Card::Num(NumCard::Red(8))];
    let before = total_cards(&b);
    let v = b.get_valid(Move { src: None, dst: Some(ClickTarget::BlackButton) }).unwrap();
    b.make_move(v);
    assert_eq!(total_cards(&b), before);
}

#[test]
fn empty_utility_source_is_rejected() {
    let b = empty_board();
    let m = Move {
        src: Some(ClickTarget::Utility(Utility::Utility1)),
        dst: stack_click(Stack::Stack0, 150),
    };
    assert_eq!(b.get_valid(m).unwrap_err(), Error::NothingInUtl);
}

#[test]
fn jack_bundle_cannot_move() {
    let mut b = empty_board();
    b.utility[0] = Some(CardOrJacks::Jacks(Jacks::Green));
    let m = Move {
        src: Some(ClickTarget::Utility(Utility::Utility0)),
        dst: stack_click(Stack::Stack0, 150),
    };
    assert_eq!(b.get_valid(m).unwrap_err(), Error::MoveJacks);
}

#[test]
fn click_above_all_cards_is_rejected() {
    let mut b = empty_board();
    b.in_play[0] = vec![Card::Num(NumCard::Red(3))];
    // a vertical offset inside the slot zone, above the stacks
    let m = Move { src: stack_click(Stack::Stack0, 50), dst: stack_click(Stack::Stack1, 150) };
    assert_eq!(b.get_valid(m).unwrap_err(), Error::MustClickCard);
}

#[test]
fn buried_card_cannot_go_to_a_slot() {
    let mut b = empty_board();
    b.in_play[0] = vec![Card::Num(NumCard::Black(6)), Card::Num(NumCard::Red(5))];
    // click resolves to the buried card at index zero
    let m = Move {
        src: stack_click(Stack::Stack0, 120),
        dst: Some(ClickTarget::Utility(Utility::Utility0)),
    };
    assert_eq!(b.get_valid(m).unwrap_err(), Error::MultipleToSlot);
}

#[test]
fn jack_cannot_go_to_a_foundation() {
    let mut b = empty_board();
    b.utility[0] = Some(CardOrJacks::Card(Card::JRed));
    let m = Move {
        src: Some(ClickTarget::Utility(Utility::Utility0)),
        dst: Some(ClickTarget::Ordered(Ordered::Ordered0)),
    };
    assert_eq!(b.get_valid(m).unwrap_err(), Error::CardNotNumeric);
}

#[test]
fn wrong_rank_for_foundation_is_rejected() {
    let mut b = empty_board();
    b.ordered[0] = vec![NumCard::Red(0)];
    b.utility[0] = Some(CardOrJacks::Card(Card::Num(NumCard::Red(2))));
    let m = Move {
        src: Some(ClickTarget::Utility(Utility::Utility0)),
        dst: Some(ClickTarget::Ordered(Ordered::Ordered0)),
    };
    assert_eq!(b.get_valid(m).unwrap_err(), Error::OrdCantParent);
}

#[test]
fn occupied_slot_cannot_take_a_card() {
    let mut b = empty_board();
    b.in_play[0] = vec![Card::Num(NumCard::Green(1))];
    b.utility[2] = Some(CardOrJacks::Card(Card::JBlack));
    let m = Move {
        src: stack_click(Stack::Stack0, 150),
        dst: Some(ClickTarget::Utility(Utility::Utility2)),
    };
    assert_eq!(b.get_valid(m).unwrap_err(), Error::UtlNotOpen);
}

#[test]
fn buried_jack_blocks_the_button() {
    let mut b = empty_board();
    b.in_play[0] = vec![Card::JRed, Card::Num(NumCard::Green(2))];
    b.in_play[1] = vec![Card::JRed];
    b.in_play[2] = vec![Card::JRed];
    b.in_play[3] = vec![Card::JRed];
    let m = Move { src: None, dst: Some(ClickTarget::RedButton) };
    assert_eq!(b.get_valid(m).unwrap_err(), Error::JacksNotVisible);
}

#[test]
fn full_slots_block_the_button() {
    let mut b = empty_board();
    b.in_play[0] = vec![Card::JGreen];
    b.in_play[1] = vec![Card::JGreen];
    b.in_play[2] = vec![Card::JGreen];
    b.in_play[3] = vec![Card::JGreen];
    b.utility[0] = Some(CardOrJacks::Card(Card::Num(NumCard::Red(7))));
    b.utility[1] = Some(CardOrJacks::Card(Card::Num(NumCard::Red(8))));
    b.utility[2] = Some(CardOrJacks::Jacks(Jacks::Black));
    let m = Move { src: None, dst: Some(ClickTarget::GreenButton) };
    assert_eq!(b.get_valid(m).unwrap_err(), Error::NoOpenUtility);
}

#[test]
fn jack_in_a_slot_counts_as_the_open_slot() {
    let mut b = empty_board();
    b.in_play[0] = vec![Card::JGreen];
    b.in_play[1] = vec![Card::JGreen];
    b.in_play[2] = vec![Card::JGreen];
    b.utility[0] = Some(CardOrJacks::Card(Card::JGreen));
    b.utility[1] = Some(CardOrJacks::Card(Card::Num(NumCard::Red(7))));
    b.utility[2] = Some(CardOrJacks::Card(Card::Num(NumCard::Red(8))));
    let m = Move { src: None, dst: Some(ClickTarget::GreenButton) };
    let v = b.get_valid(m).expect("clearing frees the slot the jack held");
    b.make_move(v);
    assert_eq!(b.utility[0], Some(CardOrJacks::Jacks(Jacks::Green)));
}

#[test]
fn incomplete_request_is_rejected() {
    let b = empty_board();
    let m = Move { src: None, dst: stack_click(Stack::Stack0, 150) };
    assert_eq!(b.get_valid(m).unwrap_err(), Error::BadSourceOrDest);
    let m = Move {
        src: Some(ClickTarget::Ordered(Ordered::Ordered0)),
        dst: Some(ClickTarget::Utility(Utility::Utility0)),
    };
    assert_eq!(b.get_valid(m).unwrap_err(), Error::BadSourceOrDest);
}

#[test]
fn bundle_is_not_a_card() {
    let bundle = CardOrJacks::Jacks(Jacks::Red);
    assert_eq!(bundle.into_card().unwrap_err(), Error::InvalidConv);
    assert_eq!(bundle.card().unwrap_err(), Error::InvalidConv);
    let single = CardOrJacks::Card(Card::Joker);
    assert_eq!(single.into_card().unwrap(), Card::Joker);
}

#[test]
fn parenting_needs_other_suit_one_below() {
    let b5 = Card::Num(NumCard::Black(5));
    let r4 = Card::Num(NumCard::Red(4));
    let b4 = Card::Num(NumCard::Black(4));
    let g5 = Card::Num(NumCard::Green(5));
    assert!(b5.can_parent(&r4));
    assert!(!b5.can_parent(&b4));
    assert!(!b5.can_parent(&g5));
    assert!(!b5.can_parent(&Card::JRed));
    assert!(!Card::Joker.can_parent(&r4));
}

#[test]
fn foundation_parenting_needs_same_suit_one_above() {
    let r4 = NumCard::Red(4);
    let r5 = NumCard::Red(5);
    let g5 = NumCard::Green(5);
    assert!(r4.can_parent_ord(&r5));
    assert!(!r4.can_parent_ord(&g5));
    assert!(!r5.can_parent_ord(&r4));
    assert!(!r4.can_parent_ord(&r4));
}

#[test]
fn coordinates_resolve_to_their_zones() {
    assert_eq!(
        ClickTarget::from_coord(10, 50),
        Some(ClickTarget::Utility(Utility::Utility0))
    );
    assert_eq!(
        ClickTarget::from_coord(100, 100),
        Some(ClickTarget::Utility(Utility::Utility1))
    );
    assert_eq!(
        ClickTarget::from_coord(400, 20),
        Some(ClickTarget::Ordered(Ordered::Ordered0))
    );
    assert_eq!(
        ClickTarget::from_coord(530, 0),
        Some(ClickTarget::Ordered(Ordered::Ordered2))
    );
    assert_eq!(ClickTarget::from_coord(250, 10), Some(ClickTarget::RedButton));
    assert_eq!(ClickTarget::from_coord(250, 40), Some(ClickTarget::GreenButton));
    assert_eq!(ClickTarget::from_coord(250, 80), Some(ClickTarget::BlackButton));
    assert_eq!(
        ClickTarget::from_coord(80, 200),
        Some(ClickTarget::Stack(StackPosition { stack: Stack::Stack1, y: 200 }))
    );
    assert_eq!(
        ClickTarget::from_coord(599, 300),
        Some(ClickTarget::Stack(StackPosition { stack: Stack::Stack7, y: 300 }))
    );
    assert_eq!(ClickTarget::from_coord(601, 300), None);
    assert_eq!(ClickTarget::from_coord(-5, 300), None);
    assert_eq!(ClickTarget::from_coord(300, -10), None);
}

#[test]
fn columns_map_to_stacks() {
    assert_eq!(Stack::from_col(0), Stack::Stack0);
    assert_eq!(Stack::from_col(3), Stack::Stack3);
    assert_eq!(Stack::from_col(7), Stack::Stack7);
}

#[test]
fn ranks_read_back_their_value() {
    assert_eq!(NumCard::Red(3).value(), 3);
    assert_eq!(NumCard::Black(0).value(), 0);
    assert_eq!(Card::Num(NumCard::Green(8)).value(), Some(8));
    assert_eq!(Card::JBlack.value(), None);
    assert!(Card::JGreen.is_jack());
    assert!(!Card::Joker.is_jack());
    assert_eq!(Card::JRed.suit(), Some(Suit::Red));
    assert_eq!(Card::Joker.suit(), None);
    assert_eq!(Jacks::from_suit(Suit::Black), Jacks::Black);
}

#[test]
fn top_card_continues_its_foundation() {
    let mut b = empty_board();
    b.ordered[2] = vec![NumCard::Black(0), NumCard::Black(1)];
    b.in_play[4] = vec![Card::JRed, Card::Num(NumCard::Black(2))];
    // the black two is the top card at index 1 of two
    let m = Move {
        src: stack_click(Stack::Stack4, 145),
        dst: Some(ClickTarget::Ordered(Ordered::Ordered2)),
    };
    let v = b.get_valid(m).expect("the black two continues its pile");
    b.make_move(v);
    assert_eq!(
        b.ordered[2],
        vec![NumCard::Black(0), NumCard::Black(1), NumCard::Black(2)]
    );
    assert_eq!(b.in_play[4], vec![Card::JRed]);
}

#[test]
fn top_card_moves_to_an_open_slot() {
    let mut b = empty_board();
    b.in_play[2] = vec![Card::Num(NumCard::Green(7))];
    let m = Move {
        src: stack_click(Stack::Stack2, 150),
        dst: Some(ClickTarget::Utility(Utility::Utility1)),
    };
    let v = b.get_valid(m).expect("the slot is open");
    b.make_move(v);
    assert!(b.in_play[2].is_empty());
    assert_eq!(
        b.utility[1],
        Some(CardOrJacks::Card(Card::Num(NumCard::Green(7))))
    );
}

#[test]
fn empty_stack_offers_no_card() {
    let b = empty_board();
    let m = Move { src: stack_click(Stack::Stack6, 150), dst: stack_click(Stack::Stack0, 150) };
    assert_eq!(b.get_valid(m).unwrap_err(), Error::MustClickCard);
}
