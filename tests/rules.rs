use cuarenta::card::Card;
use cuarenta::game::{
    claim, fits_in_limits, join, parse_action, pass, shuffle, sum, take_turn, Action, GameError,
    Turn,
};
use cuarenta::room::Room;
use cuarenta::user::User;

fn card(id: u64, rank: &str, suit: &str) -> Card {
    let name = format!("{}{}", rank, suit);
    Card::new(id, &name, rank, suit)
}

fn throw(action: &str, hand: Option<Card>, board: Vec<Card>) -> Turn {
    Turn { action: action.to_string(), hand, board }
}

/// An active two-seat room where seat 1 is to act and holds `hand`.
fn table(hand: Vec<Card>, board: Vec<Card>) -> Room {
    let mut room = Room::new();
    room.push(User::new("ana", 1)).push(User::new("ben", 2));
    room.players[0].hand = hand;
    room.players[1].hand = vec![card(30, "K", "S")];
    room.deck = vec![card(31, "A", "S")];
    room.board = board;
    room.active = true;
    room.update_player();
    room
}

fn ids(cards: &[Card]) -> Vec<u64> {
    let mut v: Vec<u64> = cards.iter().map(|c| c.id).collect();
    v.sort();
    v
}

#[test]
fn values_of_every_rank() {
    let expected = [
        ("A", 1, 1),
        ("2", 2, 2),
        ("3", 3, 3),
        ("4", 4, 4),
        ("5", 5, 5),
        ("6", 6, 6),
        ("7", 7, 7),
        ("J", 11, 8),
        ("Q", 12, 9),
        ("K", 13, 10),
    ];
    for (rank, value, chain) in expected {
        let c = card(0, rank, "C");
        assert_eq!(c.value(), value);
        assert_eq!(c.chain_value(), chain);
    }
}

#[test]
fn unknown_rank_is_worth_nothing() {
    assert_eq!(card(0, "X", "C").value(), 0);
    assert_eq!(card(0, "10", "C").chain_value(), 0);
    assert_eq!(card(0, "", "C").value(), 0);
}

#[test]
fn every_deck_card_has_nonzero_ranks() {
    for c in Card::all() {
        assert!(c.value() >= 1 && c.value() <= 13);
        assert!(c.chain_value() >= 1 && c.chain_value() <= 10);
    }
}

#[test]
fn full_deck_has_forty_distinct_cards() {
    let deck = Card::all();
    assert_eq!(deck.len(), 40);
    for (k, c) in deck.iter().enumerate() {
        assert_eq!(c.id, k as u64);
    }
    let mut pairs: Vec<(String, String)> =
        deck.iter().map(|c| (c.number.clone(), c.sign.clone())).collect();
    pairs.sort();
    pairs.dedup();
    assert_eq!(pairs.len(), 40);
    assert_eq!(deck[0].name, "AC");
    assert_eq!(deck[1].name, "AD");
    assert_eq!(deck[4].name, "2C");
    assert_eq!(deck[39].name, "KS");
    assert_eq!(deck[29].number, "J");
    assert_eq!(deck[29].sign, "D");
}

#[test]
fn cards_are_equal_by_id() {
    assert_eq!(card(3, "A", "S"), card(3, "K", "H"));
    assert_ne!(card(3, "A", "S"), card(4, "A", "S"));
}

#[test]
fn first_deal_to_two_seats() {
    let mut room = Room::new();
    room.push(User::new("ana", 1)).push(User::new("ben", 2));
    let seat = join(&mut room, 2).unwrap();
    assert!(room.active);
    assert_eq!(seat.id, 2);
    assert_eq!(seat.hand.len(), 5);
    assert_eq!(room.current_player.id, 1);
    assert_eq!(room.deck.len(), 30);
    assert!(room.board.is_empty());
    let mut all: Vec<Card> = room.deck.clone();
    for p in &room.players {
        assert_eq!(p.hand.len(), 5);
        all.extend(p.hand.iter().cloned());
    }
    assert_eq!(ids(&all), (0..40).collect::<Vec<u64>>());
}

#[test]
fn first_deal_to_four_seats() {
    let mut room = Room::new();
    for id in 1..=4 {
        room.push(User::new("p", id));
    }
    join(&mut room, 3).unwrap();
    assert_eq!(room.deck.len(), 20);
    let mut all: Vec<Card> = room.deck.clone();
    for p in &room.players {
        assert_eq!(p.hand.len(), 5);
        all.extend(p.hand.iter().cloned());
    }
    assert_eq!(ids(&all), (0..40).collect::<Vec<u64>>());
}

#[test]
fn fresh_deck_is_shuffled() {
    let mut differs = false;
    for _ in 0..3 {
        let mut room = Room::new();
        room.push(User::new("ana", 1)).push(User::new("ben", 2));
        shuffle(&mut room).unwrap();
        let mut order: Vec<u64> = Vec::new();
        for p in &room.players {
            order.extend(p.hand.iter().map(|c| c.id));
        }
        order.extend(room.deck.iter().map(|c| c.id));
        if order != (0..40).collect::<Vec<u64>>() {
            differs = true;
        }
    }
    assert!(differs);
}

#[test]
fn redeal_takes_from_the_front_of_the_pile() {
    let mut room = Room::new();
    room.push(User::new("ana", 1)).push(User::new("ben", 2));
    room.deck = (0..12).map(|i| card(i, "A", "C")).collect();
    room.board = vec![card(20, "5", "H")];
    shuffle(&mut room).unwrap();
    assert_eq!(ids(&room.players[0].hand), vec![0, 1, 2, 3, 4]);
    assert_eq!(ids(&room.players[1].hand), vec![5, 6, 7, 8, 9]);
    assert_eq!(ids(&room.deck), vec![10, 11]);
    assert_eq!(room.board.len(), 1);
}

#[test]
fn deal_fails_on_a_short_pile() {
    let mut room = Room::new();
    room.push(User::new("ana", 1)).push(User::new("ben", 2));
    room.deck = (0..9).map(|i| card(i, "A", "C")).collect();
    assert_eq!(shuffle(&mut room), Err(GameError::InsufficientDeck));
    assert_eq!(room.deck.len(), 9);
    assert!(!room.active);
}

#[test]
fn join_needs_two_or_four_seats() {
    let mut room = Room::new();
    room.push(User::new("a", 1)).push(User::new("b", 2)).push(User::new("c", 3));
    assert_eq!(join(&mut room, 1).unwrap_err(), GameError::ConfigurationError);
    assert!(!room.active);
    assert!(room.deck.is_empty());
}

#[test]
fn lay_down_changes_no_score() {
    let five = card(16, "5", "C");
    let mut room = table(vec![five.clone(), card(0, "A", "C")], vec![]);
    let r = sum(&mut room, &throw("sum", Some(five.clone()), vec![]));
    assert_eq!(r, Ok("Sum successful".to_string()));
    assert!(room.dirty);
    assert_eq!(ids(&room.board), vec![16]);
    assert_eq!(ids(&room.current_player.hand), vec![0]);
    assert_eq!(room.current_player.points, 0);
    assert_eq!(room.current_player.card_points, 0);
}

#[test]
fn lay_down_then_pass_moves_the_turn() {
    let five = card(16, "5", "C");
    let mut room = table(vec![five.clone(), card(0, "A", "C")], vec![]);
    let r = take_turn(&mut room, 1, &throw("sum", Some(five.clone()), vec![]));
    assert_eq!(r, Ok("Sum successful".to_string()));
    assert_eq!(ids(&room.board), vec![16]);
    assert_eq!(ids(&room.players[0].hand), vec![0]);
    assert_eq!(room.players[0].points, 0);
    assert_eq!(room.players[0].card_points, 0);
    assert_eq!(room.last_card.id, 16);
    let r = take_turn(&mut room, 1, &throw("pass", None, vec![]));
    assert_eq!(r, Ok("Pass successful".to_string()));
    assert_eq!(room.turn, 1);
    assert!(!room.dirty);
    assert_eq!(room.current_player.id, 2);
}

#[test]
fn capture_that_sweeps_the_board() {
    let five = card(16, "5", "C");
    let two = card(4, "2", "C");
    let three = card(8, "3", "C");
    let mut room = table(vec![five.clone()], vec![two.clone(), three.clone()]);
    let r = sum(&mut room, &throw("sum", Some(five), vec![two, three]));
    assert!(r.is_ok());
    assert!(room.board.is_empty());
    assert!(room.current_player.hand.is_empty());
    assert_eq!(room.current_player.card_points, 3);
    assert_eq!(room.current_player.points, 2);
}

#[test]
fn capture_matching_the_last_card_earns_a_bonus() {
    let five = card(16, "5", "C");
    let two = card(4, "2", "C");
    let three = card(8, "3", "C");
    let king = card(36, "K", "C");
    let mut room = table(vec![five.clone()], vec![two.clone(), three.clone(), king]);
    room.last_card = card(17, "5", "D");
    let r = sum(&mut room, &throw("sum", Some(five), vec![two, three]));
    assert!(r.is_ok());
    assert_eq!(ids(&room.board), vec![36]);
    assert_eq!(room.current_player.card_points, 3);
    assert_eq!(room.current_player.points, 2);
}

#[test]
fn capture_with_both_bonuses() {
    let five = card(16, "5", "C");
    let other = card(17, "5", "D");
    let mut room = table(vec![five.clone()], vec![other.clone()]);
    room.last_card = card(18, "5", "H");
    sum(&mut room, &throw("sum", Some(five), vec![other])).unwrap();
    assert_eq!(room.current_player.points, 4);
    assert_eq!(room.current_player.card_points, 2);
}

#[test]
fn mismatched_capture_uses_up_the_throw() {
    let five = card(16, "5", "C");
    let two = card(4, "2", "C");
    let mut room = table(vec![five.clone()], vec![two.clone()]);
    let r = sum(&mut room, &throw("sum", Some(five.clone()), vec![two.clone()]));
    assert_eq!(r, Err(GameError::ValueMismatch));
    assert!(room.dirty);
    assert_eq!(ids(&room.board), vec![4]);
    assert_eq!(ids(&room.current_player.hand), vec![16]);
    let r = sum(&mut room, &throw("sum", Some(five), vec![]));
    assert_eq!(r, Err(GameError::AlreadyThrew));
}

#[test]
fn capture_without_a_card_does_not_add_up() {
    let two = card(4, "2", "C");
    let mut room = table(vec![], vec![two.clone()]);
    assert_eq!(sum(&mut room, &throw("sum", None, vec![two])), Err(GameError::ValueMismatch));
}

#[test]
fn throw_opens_the_chain_above_it() {
    let seven = card(24, "7", "C");
    let jack = card(28, "J", "C");
    let queen = card(32, "Q", "C");
    let king = card(36, "K", "C");
    let mut room = table(vec![seven.clone()], vec![queen.clone(), jack.clone(), card(0, "A", "C")]);
    room.board.push(king);
    sum(&mut room, &throw("sum", Some(seven), vec![])).unwrap();
    assert_eq!(ids(&room.claim), vec![28, 32, 36]);
}

#[test]
fn chain_stops_at_the_first_gap() {
    let five = card(16, "5", "C");
    let six = card(20, "6", "C");
    let queen = card(32, "Q", "C");
    let mut room = table(vec![five.clone()], vec![six, queen]);
    sum(&mut room, &throw("sum", Some(five), vec![])).unwrap();
    assert_eq!(ids(&room.claim), vec![20]);
}

#[test]
fn chain_claim_credits_the_whole_set() {
    let seven = card(24, "7", "C");
    let jack = card(28, "J", "C");
    let queen = card(32, "Q", "C");
    let mut room = table(vec![seven.clone()], vec![jack.clone(), queen.clone()]);
    sum(&mut room, &throw("sum", Some(seven), vec![])).unwrap();
    assert_eq!(ids(&room.claim), vec![28, 32]);
    let r = claim(&mut room, &throw("claim", None, vec![jack]));
    assert_eq!(r, Ok("Claim successful".to_string()));
    assert_eq!(room.current_player.card_points, 2);
    assert!(room.claim.is_empty());
    assert!(room.board.iter().any(|c| c.id == 32));
    assert!(!room.board.iter().any(|c| c.id == 28));
}

#[test]
fn claim_that_empties_the_board_earns_a_sweep() {
    let five = card(16, "5", "C");
    let six = card(20, "6", "C");
    let two = card(4, "2", "C");
    let three = card(8, "3", "C");
    let mut room = table(vec![five.clone()], vec![two.clone(), three.clone(), six.clone()]);
    sum(&mut room, &throw("sum", Some(five), vec![two, three])).unwrap();
    assert_eq!(ids(&room.claim), vec![20]);
    assert_eq!(room.current_player.points, 0);
    claim(&mut room, &throw("claim", None, vec![six])).unwrap();
    assert!(room.board.is_empty());
    assert_eq!(room.current_player.points, 2);
    assert_eq!(room.current_player.card_points, 4);
}

#[test]
fn claim_outside_the_set_is_refused() {
    let seven = card(24, "7", "C");
    let jack = card(28, "J", "C");
    let ace = card(0, "A", "C");
    let mut room = table(vec![seven.clone()], vec![jack.clone(), ace.clone()]);
    sum(&mut room, &throw("sum", Some(seven), vec![])).unwrap();
    let r = claim(&mut room, &throw("claim", None, vec![jack, ace]));
    assert_eq!(r, Err(GameError::InvalidClaim));
    assert_eq!(ids(&room.claim), vec![28]);
    assert_eq!(ids(&room.board), vec![0, 24, 28]);
    assert_eq!(room.current_player.card_points, 0);
}

#[test]
fn claim_with_nothing_open() {
    let mut room = table(vec![], vec![card(0, "A", "C")]);
    let r = claim(&mut room, &throw("claim", None, vec![]));
    assert_eq!(r, Err(GameError::NothingToClaim));
}

#[test]
fn pass_before_throwing_is_refused() {
    let mut room = table(vec![card(0, "A", "C")], vec![]);
    assert_eq!(pass(&mut room), Err(GameError::HaventThrown));
    assert_eq!(room.turn, 0);
    assert_eq!(room.current_player.id, 1);
}

#[test]
fn pass_with_empty_hands_deals_again() {
    let mut room = Room::new();
    room.push(User::new("ana", 1)).push(User::new("ben", 2));
    room.deck = (0..10).map(|i| card(i, "A", "C")).collect();
    room.active = true;
    room.dirty = true;
    room.update_player();
    assert_eq!(pass(&mut room), Ok("Pass successful".to_string()));
    assert_eq!(room.turn, 1);
    assert_eq!(ids(&room.players[0].hand), vec![0, 1, 2, 3, 4]);
    assert_eq!(ids(&room.players[1].hand), vec![5, 6, 7, 8, 9]);
    assert_eq!(room.current_player.id, 2);
    assert_eq!(room.current_player.hand.len(), 5);
    assert!(room.deck.is_empty());
}

#[test]
fn turn_checks_room_seat_and_action() {
    let mut room = table(vec![card(0, "A", "C")], vec![]);
    assert_eq!(take_turn(&mut room, 2, &throw("pass", None, vec![])), Err(GameError::Unauthorized));
    assert_eq!(take_turn(&mut room, 1, &throw("fold", None, vec![])), Err(GameError::InvalidAction));
    assert!(!room.dirty);
    room.active = false;
    assert_eq!(take_turn(&mut room, 1, &throw("pass", None, vec![])), Err(GameError::RoomInactive));
}

#[test]
fn actions_by_name() {
    assert_eq!(parse_action(&"sum".to_string()), Some(Action::Sum));
    assert_eq!(parse_action(&"pass".to_string()), Some(Action::Pass));
    assert_eq!(parse_action(&"claim".to_string()), Some(Action::Claim));
    assert_eq!(parse_action(&"Sum".to_string()), None);
}

#[test]
fn seats_and_turns() {
    let mut room = Room::new();
    assert!(!room.active);
    assert_eq!(room.turn, 0);
    room.push(User::new("ana", 7)).push(User::new("ben", 9));
    assert!(room.includes(9));
    assert!(!room.includes(8));
    room.player(9).points = 5;
    assert_eq!(room.players[1].points, 5);
    room.update_player();
    assert_eq!(room.current_player.id, 7);
    room.next_turn();
    assert_eq!(room.turn, 1);
    assert_eq!(room.current_player.id, 9);
    assert_eq!(room.current_player.points, 5);
    room.next_turn();
    assert_eq!(room.current_player.id, 7);
}

#[test]
fn new_seat_is_empty() {
    let u = User::new("ana", 3);
    assert_eq!(u.name, "ana");
    assert_eq!(u.id, 3);
    assert!(u.hand.is_empty());
    assert_eq!(u.points, 0);
    assert_eq!(u.card_points, 0);
    assert_eq!(u, User::new("other", 3));
}

#[test]
fn failed_action_keeps_the_last_card() {
    let five = card(16, "5", "C");
    let two = card(4, "2", "C");
    let mut room = table(vec![five.clone()], vec![two.clone()]);
    room.last_card = card(0, "A", "C");
    let r = take_turn(&mut room, 1, &throw("sum", Some(five.clone()), vec![two]));
    assert_eq!(r, Err(GameError::ValueMismatch));
    assert_eq!(room.last_card.id, 0);
    let r = take_turn(&mut room, 1, &throw("sum", Some(five), vec![]));
    assert_eq!(r, Err(GameError::AlreadyThrew));
    assert_eq!(room.last_card.id, 0);
    assert_eq!(ids(&room.players[0].hand), vec![16]);
}

#[test]
fn seatless_requester_is_refused() {
    let mut room = table(vec![card(0, "A", "C")], vec![]);
    room.current_player.id = 5;
    assert_eq!(take_turn(&mut room, 5, &throw("pass", None, vec![])), Err(GameError::Unauthorized));
    assert_eq!(take_turn(&mut room, 6, &throw("pass", None, vec![])), Err(GameError::Unauthorized));
    room.active = false;
    assert_eq!(take_turn(&mut room, 5, &throw("pass", None, vec![])), Err(GameError::RoomInactive));
}

#[test]
fn join_on_an_empty_room() {
    let mut room = Room::new();
    assert_eq!(join(&mut room, 4).unwrap_err(), GameError::ConfigurationError);
}

#[test]
fn well_formed_rooms() {
    let mut room = table(vec![], vec![card(0, "A", "C"), card(1, "A", "D")]);
    assert!(room.is_well_formed());
    room.claim = vec![card(1, "A", "D")];
    assert!(room.is_well_formed());
    room.claim = vec![card(2, "A", "H")];
    assert!(!room.is_well_formed());
    room.claim = vec![];
    room.board.push(card(0, "K", "S"));
    assert!(!room.is_well_formed());
    room.board.pop();
    room.players[1].hand.push(card(30, "K", "S"));
    assert!(!room.is_well_formed());
    room.players[1].hand.pop();
    room.deck.push(card(31, "A", "S"));
    assert!(!room.is_well_formed());
    room.deck.pop();
    room.current_player.hand = vec![card(2, "A", "H"), card(2, "A", "H")];
    assert!(!room.is_well_formed());
}

#[test]
fn mismatch_still_reworks_the_claim() {
    let king = card(36, "K", "C");
    let jack = card(28, "J", "C");
    let ace = card(0, "A", "C");
    let mut room = table(vec![king.clone()], vec![jack.clone(), ace.clone()]);
    room.claim = vec![jack.clone()];
    let r = sum(&mut room, &throw("sum", Some(king), vec![ace.clone()]));
    assert_eq!(r, Err(GameError::ValueMismatch));
    assert!(room.claim.is_empty());
    assert_eq!(ids(&room.board), vec![0, 28]);

    let six = card(20, "6", "C");
    let seven = card(24, "7", "C");
    let mut room = table(vec![six.clone()], vec![seven.clone(), ace.clone()]);
    let r = sum(&mut room, &throw("sum", Some(six), vec![ace.clone()]));
    assert_eq!(r, Err(GameError::ValueMismatch));
    assert_eq!(ids(&room.claim), vec![24]);

    let mut room = table(vec![], vec![jack.clone(), ace.clone()]);
    room.claim = vec![jack];
    let r = sum(&mut room, &throw("sum", None, vec![ace]));
    assert_eq!(r, Err(GameError::ValueMismatch));
    assert!(room.claim.is_empty());
}

#[test]
fn unknown_action_comes_before_the_seat_lookup() {
    let mut room = table(vec![card(0, "A", "C")], vec![]);
    room.current_player.id = 5;
    assert_eq!(take_turn(&mut room, 5, &throw("fold", None, vec![])), Err(GameError::InvalidAction));
}

#[test]
fn limits_of_a_move() {
    let five = card(16, "5", "C");
    let two = card(4, "2", "C");
    let three = card(8, "3", "C");
    let mut room = table(vec![five.clone()], vec![two.clone(), three.clone()]);
    let capture = throw("sum", Some(five.clone()), vec![two.clone(), three.clone()]);
    assert!(fits_in_limits(&room, &capture));
    room.current_player.card_points = u32::MAX - 2;
    assert!(!fits_in_limits(&room, &capture));
    assert!(fits_in_limits(&room, &throw("sum", Some(five), vec![])));
    assert!(fits_in_limits(&room, &throw("fold", None, vec![])));
    room.turn = usize::MAX;
    assert!(fits_in_limits(&room, &throw("pass", None, vec![])));
    room.dirty = true;
    assert!(!fits_in_limits(&room, &throw("pass", None, vec![])));
}
