use rand::seq::SliceRandom;
use vstd::prelude::*;
use crate::card::{chain_of, is_canonical, is_full_deck, Card, DECK_SIZE};
use crate::room::{distinct_ids, lemma_distinct_ids_no_duplicates, lemma_subrange_distinct_ids, has_id, has_seat, lemma_seat_index, seat_index, Room};
use crate::user::User;

verus! {

/// Why a request on a room was refused.
#[derive(Debug, Clone, Copy, PartialEq, Eq, Structural)]
pub enum GameError {
    RoomNotFound,
    ConfigurationError,
    RoomInactive,
    Unauthorized,
    InvalidAction,
    AlreadyThrew,
    HaventThrown,
    ValueMismatch,
    NothingToClaim,
    InvalidClaim,
    InsufficientDeck,
}

/// A move as a player sends it: the action's name, the card thrown (none for
/// a pass) and the board cards it selects.
#[derive(Debug)]
pub struct Turn {
    pub action: String,
    pub hand: Option<Card>,
    pub board: Vec<Card>,
}

/// Sum of the arithmetic values of the cards in `s`.
pub open spec fn value_sum(s: Seq<Card>) -> int
    decreases s.len(),
{
    if s.len() == 0 {
        0
    } else {
        value_sum(s.drop_last()) + s.last().spec_value()
    }
}

/// `s` without any card whose id is `id`.
pub open spec fn without_card(s: Seq<Card>, id: u64) -> Seq<Card> {
    s.filter(|c: Card| c.id != id)
}

/// `s` without any card whose id appears in `sel`.
pub open spec fn without_cards(s: Seq<Card>, sel: Seq<Card>) -> Seq<Card> {
    s.filter(|c: Card| !has_id(sel, c.id))
}

/// The board after a card is laid on it: a card already there is not added twice.
pub open spec fn laid_on(board: Seq<Card>, card: Card) -> Seq<Card> {
    if has_id(board, card.id) {
        board
    } else {
        board.push(card)
    }
}

/// Whether some card of `board` has chain rank `k`.
pub open spec fn has_rank(board: Seq<Card>, k: int) -> bool {
    exists|i: int| 0 <= i < board.len() && board[i].spec_chain_value() == k
}

/// The first chain rank from `k` upwards that no card of `board` has.
pub open spec fn run_end(board: Seq<Card>, k: int) -> int
    decreases 11 - k,
{
    if k <= 10 && has_rank(board, k) {
        run_end(board, k + 1)
    } else {
        k
    }
}

/// Whether `claim` holds exactly the cards of `board` that form the unbroken run
/// of chain ranks starting just above the thrown card's, each card once.
pub open spec fn is_chain_claim(claim: Seq<Card>, board: Seq<Card>, thrown: Card) -> bool {
    let from = thrown.spec_chain_value() + 1;
    &&& claim.no_duplicates()
    &&& forall|c: Card|
        #[trigger] claim.contains(c) <==> board.contains(c) && from <= c.spec_chain_value()
            < run_end(board, from)
}

/// Points won by a capture with `card`: two when it matches the value of the
/// card thrown before it, two more when it leaves the board empty.
pub open spec fn capture_bonus(card: Card, last: Card, board_after: Seq<Card>) -> int {
    (if card.spec_value() == last.spec_value() {
        2int
    } else {
        0int
    }) + (if board_after.len() == 0 {
        2int
    } else {
        0int
    })
}

proof fn lemma_filter_distinct_ids(s: Seq<Card>, p: spec_fn(Card) -> bool)
    requires
        distinct_ids(s),
    ensures
        distinct_ids(s.filter(p)),
    decreases s.len(),
{
    reveal(Seq::filter);
    if s.len() > 0 {
        let t = s.drop_last();
        lemma_filter_distinct_ids(t, p);
        let f = t.filter(p);
        if p(s.last()) {
            let g = f.push(s.last());
            assert forall|i: int, j: int| 0 <= i < j < g.len() implies g[i].id != g[j].id by {
                if j == g.len() - 1 {
                    assert(f.contains(f[i]));
                    t.lemma_filter_contains_rev(p, f[i]);
                    let k = choose|k: int| 0 <= k < t.len() && t[k] == f[i];
                    assert(s[k].id != s[s.len() - 1].id);
                }
            }
        }
    }
}

/// A claim set drawn from a board with distinct ids has distinct ids.
proof fn lemma_claim_distinct_ids(claim: Seq<Card>, board: Seq<Card>)
    requires
        claim.no_duplicates(),
        forall|c: Card| #[trigger] claim.contains(c) ==> board.contains(c),
        distinct_ids(board),
    ensures
        distinct_ids(claim),
{
    assert forall|i: int, j: int| 0 <= i < j < claim.len() implies claim[i].id != claim[j].id by {
        assert(claim.contains(claim[i]));
        assert(claim.contains(claim[j]));
        let a = choose|a: int| 0 <= a < board.len() && board[a] == claim[i];
        let b = choose|b: int| 0 <= b < board.len() && board[b] == claim[j];
        if claim[i].id == claim[j].id {
            if a < b {
                assert(board[a].id != board[b].id);
            } else if b < a {
                assert(board[b].id != board[a].id);
            }
        }
    }
}

proof fn lemma_value_sum_prefix(s: Seq<Card>, i: int)
    requires
        0 <= i <= s.len(),
    ensures
        value_sum(s) >= value_sum(s.take(i)),
    decreases s.len(),
{
    if i < s.len() {
        lemma_value_sum_prefix(s.drop_last(), i);
        assert(s.drop_last().take(i) =~= s.take(i));
    } else {
        assert(s.take(i) =~= s);
    }
}

/// Whether the values of `sel` add up to `target`.
fn adds_up(sel: &Vec<Card>, target: u8) -> (r: bool)
    requires
        target <= 13,
    ensures
        r == (value_sum(sel@) == target),
{
    let mut total: u8 = 0;
    let mut i: usize = 0;
    while i < sel.len() && total <= 13
        invariant
            i <= sel@.len(),
            total == value_sum(sel@.take(i as int)),
            total <= 26,
        decreases sel@.len() - i,
    {
        assert(sel@.take(i as int + 1).drop_last() =~= sel@.take(i as int));
        total = total + sel[i].value();
        i += 1;
    }
    if total > 13 {
        proof {
            lemma_value_sum_prefix(sel@, i as int);
        }
        false
    } else {
        assert(sel@.take(i as int) =~= sel@);
        total == target
    }
}

/// Whether a card with this id lies in `v`.
fn contains_id(v: &Vec<Card>, id: u64) -> (r: bool)
    ensures
        r == has_id(v@, id),
{
    let mut i: usize = 0;
    while i < v.len()
        invariant
            i <= v@.len(),
            forall|j: int| 0 <= j < i ==> v@[j].id != id,
        decreases v@.len() - i,
    {
        if v[i].id == id {
            return true;
        }
        i += 1;
    }
    false
}

/// The cards of `v` whose id is not `id`, in order.
fn remove_card(v: &Vec<Card>, id: u64) -> (r: Vec<Card>)
    ensures
        r@ == without_card(v@, id),
{
    let mut out: Vec<Card> = Vec::new();
    let mut i: usize = 0;
    while i < v.len()
        invariant
            i <= v@.len(),
            out@ == without_card(v@.take(i as int), id),
        decreases v@.len() - i,
    {
        proof {
            reveal(Seq::filter);
            assert(v@.take(i as int + 1).drop_last() =~= v@.take(i as int));
        }
        if v[i].id != id {
            out.push(v[i].clone());
        }
        i += 1;
    }
    assert(v@.take(i as int) =~= v@);
    out
}

/// The cards of `v` whose id is not among those of `sel`, in order.
fn remove_cards(v: &Vec<Card>, sel: &Vec<Card>) -> (r: Vec<Card>)
    ensures
        r@ == without_cards(v@, sel@),
{
    let mut out: Vec<Card> = Vec::new();
    let mut i: usize = 0;
    while i < v.len()
        invariant
            i <= v@.len(),
            out@ == without_cards(v@.take(i as int), sel@),
        decreases v@.len() - i,
    {
        proof {
            reveal(Seq::filter);
            assert(v@.take(i as int + 1).drop_last() =~= v@.take(i as int));
        }
        if !contains_id(sel, v[i].id) {
            out.push(v[i].clone());
        }
        i += 1;
    }
    assert(v@.take(i as int) =~= v@);
    out
}

/// The cards of `board` open to a chain claim after `thrown` was played:
/// those of chain rank one above it, then two above it, and so on while each
/// rank is present.
fn chain_claim(board: &Vec<Card>, thrown: &Card) -> (r: Vec<Card>)
    requires
        distinct_ids(board@),
    ensures
        is_chain_claim(r@, board@, *thrown),
        distinct_ids(r@),
        forall|i: int| 0 <= i < r@.len() ==> has_id(board@, #[trigger] r@[i].id),
{
    proof {
        lemma_distinct_ids_no_duplicates(board@);
    }
    let ghost from: int = thrown.spec_chain_value() + 1;
    let mut out: Vec<Card> = Vec::new();
    let mut k: u8 = thrown.chain_value() + 1;
    loop
        invariant
            board@.no_duplicates(),
            from == thrown.spec_chain_value() + 1,
            from <= k <= 11,
            run_end(board@, from) == run_end(board@, k as int),
            out@.no_duplicates(),
            forall|c: Card|
                #[trigger] out@.contains(c) <==> board@.contains(c) && from
                    <= c.spec_chain_value() < k,
        ensures
            is_chain_claim(out@, board@, *thrown),
        decreases 11 - k,
    {
        let mut found = false;
        let mut j: usize = 0;
        while j < board.len()
            invariant
                board@.no_duplicates(),
                from == thrown.spec_chain_value() + 1,
                run_end(board@, from) == run_end(board@, k as int),
                from <= k <= 11,
                j <= board@.len(),
                found == (exists|m: int| 0 <= m < j && board@[m].spec_chain_value() == k),
                out@.no_duplicates(),
                forall|c: Card|
                    #[trigger] out@.contains(c) <==> board@.contains(c) && (from
                        <= c.spec_chain_value() < k || (c.spec_chain_value() == k
                        && board@.take(j as int).contains(c))),
            decreases board@.len() - j,
        {
            let ghost before = out@;
            let ghost x = board@[j as int];
            if board[j].chain_value() == k {
                let card = board[j].clone();
                proof {
                    if before.contains(card) {
                        let m = choose|m: int| 0 <= m < j && #[trigger] board@.take(j as int)[m] == card;
                        assert(board@[m] == board@[j as int]);
                    }
                }
                out.push(card);
                found = true;
            }
            proof {
                assert(x.spec_chain_value() == k ==> out@ == before.push(x));
                assert(x.spec_chain_value() != k ==> out@ == before);
                assert(board@.take(j as int + 1) == board@.take(j as int).push(x));
                assert forall|c: Card|
                    #[trigger] out@.contains(c) <==> board@.contains(c) && (from
                        <= c.spec_chain_value() < k || (c.spec_chain_value() == k
                        && board@.take(j as int + 1).contains(c))) by {
                    if out@.contains(c) {
                        if before.contains(c) {
                            if board@.take(j as int).contains(c) {
                                let m = choose|m: int| 0 <= m < j && #[trigger] board@.take(j as int)[m] == c;
                                assert(board@.take(j as int + 1)[m] == c);
                            }
                        } else {
                            assert(c == x);
                            assert(board@[j as int] == c);
                            assert(board@.take(j as int + 1)[j as int] == c);
                        }
                    }
                    if board@.contains(c) && (from <= c.spec_chain_value() < k || (c.spec_chain_value() == k
                        && board@.take(j as int + 1).contains(c))) {
                        if from <= c.spec_chain_value() < k {
                            assert(before.contains(c));
                            let q = choose|q: int| 0 <= q < before.len() && #[trigger] before[q] == c;
                            assert(out@[q] == c);
                        } else {
                            let m = choose|m: int| 0 <= m < j + 1 && #[trigger] board@.take(j as int + 1)[m] == c;
                            if m < j {
                                assert(board@.take(j as int)[m] == c);
                                assert(before.contains(c));
                                let q = choose|q: int| 0 <= q < before.len() && #[trigger] before[q] == c;
                                assert(out@[q] == c);
                            } else {
                                assert(c == x);
                                assert(out@[out@.len() - 1] == c);
                            }
                        }
                    }
                }
            }
            j += 1;
        }
        proof {
            assert(board@.take(j as int) =~= board@);
        }
        if !found {
            proof {
                assert(!has_rank(board@, k as int));
                assert(run_end(board@, k as int) == k);
                assert forall|c: Card| #[trigger] out@.contains(c) <==> board@.contains(c) && from
                    <= c.spec_chain_value() < run_end(board@, from) by {
                    if board@.contains(c) && c.spec_chain_value() == k {
                        let m = choose|m: int| 0 <= m < board@.len() && board@[m] == c;
                        assert(board@[m].spec_chain_value() == k);
                    }
                }
            }
            break;
        }
        proof {
            let m = choose|m: int| 0 <= m < j && board@[m].spec_chain_value() == k;
            assert(has_rank(board@, k as int));
            assert(chain_of(board@[m].number@) <= 10);
            assert(run_end(board@, k as int) == run_end(board@, k as int + 1));
        }
        k = k + 1;
    }
    proof {
        lemma_claim_distinct_ids(out@, board@);
        assert forall|i: int| 0 <= i < out@.len() implies has_id(board@, #[trigger] out@[i].id) by {
            assert(out@.contains(out@[i]));
            let a = choose|a: int| 0 <= a < board@.len() && board@[a] == out@[i];
        }
    }
    out
}

/// What a throw that was allowed does to the room, by its selection: with
/// none the card is laid on the board; otherwise the selected cards are
/// captured when their values add up to the card's, and the throw is wasted
/// when they do not.
pub open spec fn is_sum(
    before: Room,
    after: Room,
    hand: Option<Card>,
    sel: Seq<Card>,
    r: Result<String, GameError>,
) -> bool {
    let p = before.current_player;
    let q = after.current_player;
    if sel.len() == 0 {
        &&& r is Ok
        &&& r->Ok_0@ == "Sum successful"@
        &&& q.points == p.points
        &&& q.card_points == p.card_points
        &&& match hand {
            Some(card) => {
                &&& q.hand@ == without_card(p.hand@, card.id)
                &&& after.board@ == laid_on(before.board@, card)
                &&& is_chain_claim(after.claim@, after.board@, card)
            },
            None => {
                &&& q.hand == p.hand
                &&& after.board == before.board
                &&& after.claim@.len() == 0
            },
        }
    } else {
        match hand {
            Some(card) => if value_sum(sel) == card.spec_value() {
                &&& r is Ok
                &&& r->Ok_0@ == "Sum successful"@
                &&& q.hand@ == without_card(p.hand@, card.id)
                &&& after.board@ == without_cards(before.board@, sel)
                &&& q.card_points == p.card_points + sel.len() + 1
                &&& q.points == p.points + capture_bonus(card, before.last_card, after.board@)
                &&& is_chain_claim(after.claim@, after.board@, card)
            } else {
                is_mismatch(before, after, r) && is_chain_claim(after.claim@, after.board@, card)
            },
            None => is_mismatch(before, after, r) && after.claim@.len() == 0,
        }
    }
}

/// A throw whose selection does not add up: it fails and leaves the seat and
/// the board alone (the claim set is still worked out anew by the caller's
/// relation).
pub open spec fn is_mismatch(before: Room, after: Room, r: Result<String, GameError>) -> bool {
    &&& r == Err::<String, GameError>(GameError::ValueMismatch)
    &&& after.current_player == before.current_player
    &&& after.board == before.board
}

fn sum_message() -> (m: String)
    ensures
        m@ == "Sum successful"@,
{
    "Sum successful".to_owned()
}

/// Whether `sum` would credit a capture: the room awaits a throw, a card is
/// thrown and a non-empty selection adds up to its value.
pub open spec fn sum_adds(before: Room, turn: Turn) -> bool {
    &&& !before.dirty
    &&& turn.board@.len() > 0
    &&& turn.hand matches Some(c)
    &&& value_sum(turn.board@) == c.spec_value()
}

/// Whether the scores after a capture still fit in 32 bits.
pub open spec fn sum_fits(before: Room, turn: Turn) -> bool {
    &&& before.current_player.card_points + turn.board@.len() + 1 <= u32::MAX
    &&& before.current_player.points + 4 <= u32::MAX
}

/// What `sum` does to a room.
pub open spec fn sum_step(
    before: Room,
    after: Room,
    turn: Turn,
    r: Result<String, GameError>,
) -> bool {
    &&& after.dirty
    &&& after.deck == before.deck
    &&& after.players == before.players
    &&& after.turn == before.turn
    &&& after.active == before.active
    &&& after.last_card == before.last_card
    &&& after.current_player.id == before.current_player.id
    &&& after.current_player.name == before.current_player.name
    &&& before.dirty ==> r == Err::<String, GameError>(GameError::AlreadyThrew)
    &&& before.dirty ==> after == before
    &&& !before.dirty ==> is_sum(before, after, turn.hand, turn.board@, r)
}

/// Throws a card: lays it on the board, or captures the selected board cards
/// whose values add up to its value. Either way the chain claim is worked out
/// anew from what is left on the board.
pub fn sum(room: &mut Room, turn: &Turn) -> (r: Result<String, GameError>)
    requires
        old(room).wf(),
        sum_adds(*old(room), *turn) ==> sum_fits(*old(room), *turn),
    ensures
        final(room).wf(),
        sum_step(*old(room), *final(room), *turn, r),
{
    if room.dirty {
        return Err(GameError::AlreadyThrew);
    }
    room.dirty = true;
    if turn.board.len() == 0 {
        match &turn.hand {
            Some(card) => {
                room.current_player.hand = remove_card(&room.current_player.hand, card.id);
                proof {
                    lemma_filter_distinct_ids(old(room).current_player.hand@, |c: Card| c.id != card.id);
                }
                if !contains_id(&room.board, card.id) {
                    proof {
                        assert forall|i: int, j: int|
                            0 <= i < j < room.board@.len() + 1 implies room.board@.push(
                            *card,
                        )[i].id != room.board@.push(*card)[j].id by {
                            if j == room.board@.len() {
                                assert(room.board@[i].id != card.id);
                            }
                        }
                    }
                    room.board.push(card.clone());
                }
                room.claim = chain_claim(&room.board, card);
            },
            None => {
                room.claim = Vec::new();
            },
        }
    } else {
        match &turn.hand {
            Some(card) => {
                if !adds_up(&turn.board, card.value()) {
                    room.claim = chain_claim(&room.board, card);
                    return Err(GameError::ValueMismatch);
                }
                room.current_player.hand = remove_card(&room.current_player.hand, card.id);
                proof {
                    lemma_filter_distinct_ids(old(room).current_player.hand@, |c: Card| c.id != card.id);
                }
                room.board = remove_cards(&room.board, &turn.board);
                proof {
                    lemma_filter_distinct_ids(old(room).board@, |c: Card| !has_id(turn.board@, c.id));
                }
                room.current_player.card_points = room.current_player.card_points
                    + turn.board.len() as u32 + 1;
                if card.value() == room.last_card.value() {
                    room.current_player.points = room.current_player.points + 2;
                }
                if room.board.len() == 0 {
                    room.current_player.points = room.current_player.points + 2;
                }
                room.claim = chain_claim(&room.board, card);
            },
            None => {
                room.claim = Vec::new();
                return Err(GameError::ValueMismatch);
            },
        }
    }
    Ok(sum_message())
}

/// Two points for leaving the board empty.
pub open spec fn sweep_bonus(board: Seq<Card>) -> int {
    if board.len() == 0 {
        2
    } else {
        0
    }
}

/// Whether every card of `sel` has the id of some card of `claim`.
pub open spec fn all_claimable(sel: Seq<Card>, claim: Seq<Card>) -> bool {
    forall|i: int| 0 <= i < sel.len() ==> has_id(claim, #[trigger] sel[i].id)
}

fn all_in(sel: &Vec<Card>, claim: &Vec<Card>) -> (r: bool)
    ensures
        r == all_claimable(sel@, claim@),
{
    let mut i: usize = 0;
    while i < sel.len()
        invariant
            i <= sel@.len(),
            forall|j: int| 0 <= j < i ==> has_id(claim@, #[trigger] sel@[j].id),
        decreases sel@.len() - i,
    {
        if !contains_id(claim, sel[i].id) {
            return false;
        }
        i += 1;
    }
    true
}

fn claim_message() -> (m: String)
    ensures
        m@ == "Claim successful"@,
{
    "Claim successful".to_owned()
}

/// Whether `claim` would credit the claim set: it is not empty and holds
/// every selected card.
pub open spec fn claim_adds(before: Room, turn: Turn) -> bool {
    before.claim@.len() > 0 && all_claimable(turn.board@, before.claim@)
}

/// Whether the scores after a claim still fit in 32 bits.
pub open spec fn claim_fits(before: Room) -> bool {
    &&& before.current_player.card_points + before.claim@.len() <= u32::MAX
    &&& before.current_player.points + 2 <= u32::MAX
}

/// What `claim` does to a room.
pub open spec fn claim_step(
    before: Room,
    after: Room,
    turn: Turn,
    r: Result<String, GameError>,
) -> bool {
    &&& after.deck == before.deck
    &&& after.players == before.players
    &&& after.turn == before.turn
    &&& after.active == before.active
    &&& after.dirty == before.dirty
    &&& after.last_card == before.last_card
    &&& after.current_player.id == before.current_player.id
    &&& after.current_player.name == before.current_player.name
    &&& after.current_player.hand == before.current_player.hand
    &&& before.claim@.len() == 0 ==> r == Err::<String, GameError>(GameError::NothingToClaim)
        && after == before
    &&& before.claim@.len() > 0 && !all_claimable(turn.board@, before.claim@) ==> r == Err::<
        String,
        GameError,
    >(GameError::InvalidClaim) && after == before
    &&& before.claim@.len() > 0 && all_claimable(turn.board@, before.claim@) ==> {
        &&& r is Ok
        &&& r->Ok_0@ == "Claim successful"@
        &&& after.claim@.len() == 0
        &&& after.board@ == without_cards(before.board@, turn.board@)
        &&& after.current_player.card_points == before.current_player.card_points
            + before.claim@.len()
        &&& after.current_player.points == before.current_player.points + sweep_bonus(
            after.board@,
        )
    }
}

/// Claims the chain: credits the whole claim set to the acting seat, empties it,
/// and takes the selected cards off the board.
pub fn claim(room: &mut Room, turn: &Turn) -> (r: Result<String, GameError>)
    requires
        old(room).wf(),
        claim_adds(*old(room), *turn) ==> claim_fits(*old(room)),
    ensures
        final(room).wf(),
        claim_step(*old(room), *final(room), *turn, r),
{
    if room.claim.len() == 0 {
        return Err(GameError::NothingToClaim);
    }
    if !all_in(&turn.board, &room.claim) {
        return Err(GameError::InvalidClaim);
    }
    room.current_player.card_points = room.current_player.card_points + room.claim.len() as u32;
    room.claim = Vec::new();
    room.board = remove_cards(&room.board, &turn.board);
    proof {
        lemma_filter_distinct_ids(old(room).board@, |c: Card| !has_id(turn.board@, c.id));
    }
    if room.board.len() == 0 {
        room.current_player.points = room.current_player.points + 2;
    }
    Ok(claim_message())
}

/// Cards dealt to each seat.
pub const HAND_SIZE: usize = 5;

/// Whether `b` is seat `a` with only its hand changed.
pub open spec fn same_seat(a: User, b: User) -> bool {
    &&& b.id == a.id
    &&& b.name == a.name
    &&& b.points == a.points
    &&& b.card_points == a.card_points
}

/// Whether `after` holds a deal from `pile` to the seats `before`: five cards
/// to each seat from the front of the pile, in seating order, the rest left as
/// the draw pile, and the room active.
pub open spec fn is_deal(before: Seq<User>, after: Room, pile: Seq<Card>) -> bool {
    let n = before.len() as int;
    &&& pile.len() >= 5 * n
    &&& after.players@.len() == n
    &&& forall|i: int|
        0 <= i < n ==> same_seat(before[i], #[trigger] after.players@[i])
            && after.players@[i].hand@ == pile.subrange(5 * i, 5 * i + 5)
    &&& after.deck@ == pile.subrange(5 * n, pile.len() as int)
    &&& after.active
}

/// What a deal does to the draw pile, the seats, the board and the claim set,
/// and whether it fails for want of cards.
pub open spec fn deals_into(before: Room, after: Room, r: Result<(), GameError>) -> bool {
    let n = before.players@.len();
    let short = if before.deck@.len() > 0 {
        before.deck@.len() < 5 * n
    } else {
        40 < 5 * n
    };
    if short {
        &&& r == Err::<(), GameError>(GameError::InsufficientDeck)
        &&& after.deck == before.deck
        &&& after.players == before.players
        &&& after.board == before.board
        &&& after.claim == before.claim
        &&& after.active == before.active
    } else if before.deck@.len() > 0 {
        &&& r is Ok
        &&& is_deal(before.players@, after, before.deck@)
        &&& after.board == before.board
        &&& after.claim == before.claim
    } else {
        &&& r is Ok
        &&& exists|pile: Seq<Card>|
            is_shuffled_deck(pile) && #[trigger] is_deal(before.players@, after, pile)
        &&& after.board@.len() == 0
        &&& after.claim@.len() == 0
    }
}

/// Whether `pile` is the full deck in some order.
pub open spec fn is_shuffled_deck(pile: Seq<Card>) -> bool {
    exists|d: Seq<Card>| is_full_deck(d) && #[trigger] d.to_multiset() == pile.to_multiset()
}

/// Relies on rand's `SliceRandom::shuffle` with the thread-local generator:
/// the shuffle only swaps elements, so the result is a reordering of the input.
#[verifier::external_body]
fn shuffle_cards(cards: &mut Vec<Card>)
    ensures
        final(cards)@.to_multiset() == old(cards)@.to_multiset(),
{
    let mut rng = rand::thread_rng();
    cards.shuffle(&mut rng);
}

/// Deals five cards to every seat from the front of the draw pile. An empty
/// pile is first replaced by a freshly shuffled full deck, and then the board
/// and the claim set are cleared. Fails, changing nothing, when the pile holds
/// too few cards for every seat.
pub fn shuffle(room: &mut Room) -> (r: Result<(), GameError>)
    requires
        old(room).wf(),
    ensures
        final(room).wf(),
        final(room).turn == old(room).turn,
        final(room).dirty == old(room).dirty,
        final(room).current_player == old(room).current_player,
        final(room).last_card == old(room).last_card,
        deals_into(*old(room), *final(room), r),
        r is Err ==> *final(room) == *old(room),
        final(room).players@.len() == old(room).players@.len(),
        forall|i: int|
            0 <= i < old(room).players@.len() ==> same_seat(
                old(room).players@[i],
                #[trigger] final(room).players@[i],
            ),
{
    let n = room.players.len();
    let available = if room.deck.len() == 0 {
        DECK_SIZE
    } else {
        room.deck.len()
    };
    if available / HAND_SIZE < n {
        proof {
            assert(available < 5 * n) by (nonlinear_arith)
                requires
                    available / 5 < n,
            ;
        }
        return Err(GameError::InsufficientDeck);
    }
    proof {
        assert(available >= 5 * n) by (nonlinear_arith)
            requires
                available / 5 >= n,
        ;
    }
    let ghost fresh = room.deck@.len() == 0;
    if room.deck.len() == 0 {
        let mut cards = Card::all();
        let ghost full = cards@;
        shuffle_cards(&mut cards);
        proof {
            vstd::seq_lib::to_multiset_len(full);
            vstd::seq_lib::to_multiset_len(cards@);
        }
        assert(is_shuffled_deck(cards@) && is_full_deck(full) && full.to_multiset()
            == cards@.to_multiset());
        room.deck = cards;
        room.board = Vec::new();
        room.claim = Vec::new();
    }
    let ghost pile = room.deck@;
    let ghost seats = room.players@;
    proof {
        if fresh {
            lemma_shuffled_distinct_ids(pile);
        }
    }
    let mut rest = room.deck.split_off(0);
    let mut i: usize = 0;
    while i < n
        invariant
            n == seats.len(),
            pile.len() >= 5 * n,
            i <= n,
            room.players@.len() == n,
            rest@ == pile.subrange(5 * i, pile.len() as int),
            forall|k: int|
                0 <= k < i ==> same_seat(seats[k], #[trigger] room.players@[k])
                    && room.players@[k].hand@ == pile.subrange(5 * k, 5 * k + 5),
            forall|k: int| i <= k < n ==> #[trigger] room.players@[k] == seats[k],
            seats == old(room).players@,
            fresh == (old(room).deck@.len() == 0),
            fresh ==> is_shuffled_deck(pile) && room.board@.len() == 0 && room.claim@.len() == 0,
            distinct_ids(pile),
            !fresh ==> pile == old(room).deck@ && room.board == old(room).board && room.claim
                == old(room).claim,
            room.wf(),
            room.turn == old(room).turn,
            room.dirty == old(room).dirty,
            room.current_player == old(room).current_player,
            room.last_card == old(room).last_card,
        decreases n - i,
    {
        let tail = rest.split_off(HAND_SIZE);
        proof {
            lemma_subrange_distinct_ids(pile, 5 * i, 5 * i + 5);
            assert(rest@ == pile.subrange(5 * i, 5 * i + 5));
        }
        room.players[i].hand = rest;
        rest = tail;
        i += 1;
    }
    proof {
        lemma_subrange_distinct_ids(pile, 5 * n, pile.len() as int);
    }
    room.deck = rest;
    room.active = true;
    proof {
        assert(is_deal(seats, *room, pile));
    }
    Ok(())
}

/// Whether no seat holds a card.
pub open spec fn all_hands_empty(players: Seq<User>) -> bool {
    forall|i: int| 0 <= i < players.len() ==> (#[trigger] players[i]).hand@.len() == 0
}

/// Whether a request succeeded, and if not, why.
pub open spec fn outcome<T>(r: Result<T, GameError>) -> Result<(), GameError> {
    match r {
        Ok(_) => Ok(()),
        Err(e) => Err(e),
    }
}

fn hands_empty(players: &Vec<User>) -> (r: bool)
    ensures
        r == all_hands_empty(players@),
{
    let mut i: usize = 0;
    while i < players.len()
        invariant
            i <= players@.len(),
            forall|j: int| 0 <= j < i ==> (#[trigger] players@[j]).hand@.len() == 0,
        decreases players@.len() - i,
    {
        if players[i].hand.len() != 0 {
            return false;
        }
        i += 1;
    }
    true
}

fn pass_message() -> (m: String)
    ensures
        m@ == "Pass successful"@,
{
    "Pass successful".to_owned()
}

/// Whether the turn can move on: the table has a seat and the turn counter
/// has room to grow.
pub open spec fn pass_fits(before: Room) -> bool {
    before.players@.len() > 0 && before.turn < usize::MAX
}

/// What `pass` does to a room.
pub open spec fn pass_step(before: Room, after: Room, r: Result<String, GameError>) -> bool {
    &&& !before.dirty ==> r == Err::<String, GameError>(GameError::HaventThrown)
    &&& !before.dirty ==> after == before
    &&& before.dirty ==> {
        &&& after.turn == before.turn + 1
        &&& !after.dirty
        &&& after.last_card == before.last_card
        &&& after.current_player@ == after.players@[after.turn_seat()]@
    }
    &&& before.dirty && !all_hands_empty(before.players@) ==> {
        &&& r is Ok
        &&& r->Ok_0@ == "Pass successful"@
        &&& after.players == before.players
        &&& after.deck == before.deck
        &&& after.board == before.board
        &&& after.claim == before.claim
        &&& after.active == before.active
    }
    &&& before.dirty && all_hands_empty(before.players@) ==> {
        &&& deals_into(before, after, outcome(r))
        &&& r is Err ==> r == Err::<String, GameError>(GameError::InsufficientDeck)
        &&& r is Ok ==> r->Ok_0@ == "Pass successful"@
    }
}

/// Ends the acting seat's turn once it has thrown. The turn moves to the next
/// seat, and when no seat has a card left a new deal follows.
pub fn pass(room: &mut Room) -> (r: Result<String, GameError>)
    requires
        old(room).wf(),
        old(room).dirty ==> pass_fits(*old(room)),
    ensures
        final(room).wf(),
        pass_step(*old(room), *final(room), r),
{
    if !room.dirty {
        return Err(GameError::HaventThrown);
    }
    room.next_turn();
    room.dirty = false;
    if hands_empty(&room.players) {
        let ghost mid = *room;
        let dealt = shuffle(room);
        let ghost after_deal = *room;
        room.update_player();
        proof {
            if dealt.is_ok() && mid.deck@.len() == 0 && !(40 < 5 * mid.players@.len()) {
                let pile = choose|pile: Seq<Card>|
                    is_shuffled_deck(pile) && #[trigger] is_deal(mid.players@, after_deal, pile);
                assert(is_deal(old(room).players@, *room, pile));
            }
        }
        if dealt.is_err() {
            return Err(GameError::InsufficientDeck);
        }
    }
    Ok(pass_message())
}

/// The three moves a seat can make.
#[derive(Debug, Clone, Copy, PartialEq, Eq, Structural)]
pub enum Action {
    Sum,
    Pass,
    Claim,
}

/// The move an action name stands for, if any.
pub open spec fn action_of(name: Seq<char>) -> Option<Action> {
    if name == "sum"@ {
        Some(Action::Sum)
    } else if name == "pass"@ {
        Some(Action::Pass)
    } else if name == "claim"@ {
        Some(Action::Claim)
    } else {
        None
    }
}

/// Reads an action name.
pub fn parse_action(name: &String) -> (r: Option<Action>)
    ensures
        r == action_of(name@),
{
    if *name == "sum".to_owned() {
        Some(Action::Sum)
    } else if *name == "pass".to_owned() {
        Some(Action::Pass)
    } else if *name == "claim".to_owned() {
        Some(Action::Claim)
    } else {
        None
    }
}

/// Whether a table has the two or four seats that a game needs.
pub open spec fn valid_table(players: Seq<User>) -> bool {
    players.len() == 2 || players.len() == 4
}

/// What `join` does to a room: it checks the table, deals when the room is not
/// active yet, and refreshes the scratch copy of the acting seat.
pub open spec fn join_step(before: Room, after: Room, player_id: u32, r: Result<User, GameError>) -> bool {
    &&& !valid_table(before.players@) ==> r == Err::<User, GameError>(GameError::ConfigurationError)
        && after == before
    &&& valid_table(before.players@) ==> {
        &&& after.turn == before.turn
        &&& after.dirty == before.dirty
        &&& after.last_card == before.last_card
        &&& before.active ==> {
            &&& r is Ok
            &&& after.deck == before.deck
            &&& after.players == before.players
            &&& after.board == before.board
            &&& after.claim == before.claim
            &&& after.active
        }
        &&& !before.active ==> deals_into(before, after, outcome(r))
        &&& r is Err ==> r == Err::<User, GameError>(GameError::InsufficientDeck)
        &&& r matches Ok(u) ==> {
            &&& after.current_player@ == after.players@[after.turn_seat()]@
            &&& u@ == after.players@[seat_index(after.players@, player_id)]@
        }
    }
}

/// Brings a player to the table: deals if the game has not started, brings
/// the acting seat up to date, and returns the player's own seat.
pub fn join(room: &mut Room, player_id: u32) -> (r: Result<User, GameError>)
    requires
        old(room).wf(),
        valid_table(old(room).players@) ==> has_seat(old(room).players@, player_id),
    ensures
        final(room).wf(),
        join_step(*old(room), *final(room), player_id, r),
{
    let n = room.players.len();
    if n != 2 && n != 4 {
        return Err(GameError::ConfigurationError);
    }
    if !room.active {
        if shuffle(room).is_err() {
            return Err(GameError::InsufficientDeck);
        }
    }
    let ghost dealt = *room;
    room.update_player();
    proof {
        let i = choose|i: int| 0 <= i < old(room).players@.len() && old(room).players@[i].id == player_id;
        assert(room.players@[i].id == player_id);
        if !old(room).active && old(room).deck@.len() == 0 {
            let pile = choose|pile: Seq<Card>|
                is_shuffled_deck(pile) && #[trigger] is_deal(old(room).players@, dealt, pile);
            assert(is_deal(old(room).players@, *room, pile));
        }
    }
    match room.find_seat(player_id) {
        Some(i) => {
            proof {
                lemma_seat_index(room.players@, player_id, i as int);
            }
            Ok(room.players[i].clone())
        },
        None => Err(GameError::InsufficientDeck),
    }
}

/// Whether `after` is `mid` once the request is wound up: when the action
/// succeeded, the thrown card, if any, becomes the last card, and when
/// `write_back` also holds the scratch seat's hand and scores are copied into
/// the player's own seat. A failed action leaves both alone.
pub open spec fn is_wound_up(
    mid: Room,
    after: Room,
    player_id: u32,
    hand: Option<Card>,
    write_back: bool,
    succeeded: bool,
) -> bool {
    let k = seat_index(mid.players@, player_id);
    &&& after.last_card == (match hand {
        Some(c) => if succeeded {
            c
        } else {
            mid.last_card
        },
        None => mid.last_card,
    })
    &&& after.deck == mid.deck
    &&& after.board == mid.board
    &&& after.claim == mid.claim
    &&& after.current_player == mid.current_player
    &&& after.active == mid.active
    &&& after.turn == mid.turn
    &&& after.dirty == mid.dirty
    &&& !(write_back && succeeded) ==> after.players == mid.players
    &&& write_back && succeeded ==> {
        &&& after.players@.len() == mid.players@.len()
        &&& forall|j: int|
            0 <= j < mid.players@.len() && j != k ==> #[trigger] after.players@[j]
                == mid.players@[j]
        &&& after.players@[k].id == mid.players@[k].id
        &&& after.players@[k].name == mid.players@[k].name
        &&& after.players@[k].hand@ == mid.current_player.hand@
        &&& after.players@[k].points == mid.current_player.points
        &&& after.players@[k].card_points == mid.current_player.card_points
    }
}

/// Whether the action a move names keeps the scores and the turn counter
/// within their machine limits.
pub open spec fn turn_fits(room: Room, turn: Turn) -> bool {
    &&& action_of(turn.action@) == Some(Action::Sum) && sum_adds(room, turn) ==> sum_fits(room, turn)
    &&& action_of(turn.action@) == Some(Action::Claim) && claim_adds(room, turn) ==> claim_fits(room)
    &&& action_of(turn.action@) == Some(Action::Pass) && room.dirty ==> pass_fits(room)
}

/// Tells whether `take_turn` may be called with this move on this room.
pub fn fits_in_limits(room: &Room, turn: &Turn) -> (r: bool)
    ensures
        r == turn_fits(*room, *turn),
{
    match parse_action(&turn.action) {
        Some(Action::Sum) => {
            let adds = match &turn.hand {
                Some(card) => !room.dirty && turn.board.len() > 0 && adds_up(&turn.board, card.value()),
                None => false,
            };
            !adds || (turn.board.len() < (u32::MAX - room.current_player.card_points) as usize
                && room.current_player.points <= u32::MAX - 4)
        },
        Some(Action::Claim) => {
            let adds = room.claim.len() > 0 && all_in(&turn.board, &room.claim);
            !adds || (room.claim.len() <= (u32::MAX - room.current_player.card_points) as usize
                && room.current_player.points <= u32::MAX - 2)
        },
        Some(Action::Pass) => !room.dirty || (room.players.len() > 0 && room.turn < usize::MAX),
        None => true,
    }
}

/// What `take_turn` does to a room.
pub open spec fn turn_step(
    before: Room,
    after: Room,
    player_id: u32,
    turn: Turn,
    r: Result<String, GameError>,
) -> bool {
    let asked = before.active && before.current_player.id == player_id;
    let allowed = asked && action_of(turn.action@) is Some && has_seat(before.players@, player_id);
    &&& !before.active ==> r == Err::<String, GameError>(GameError::RoomInactive) && after
        == before
    &&& before.active && before.current_player.id != player_id ==> r == Err::<
        String,
        GameError,
    >(GameError::Unauthorized) && after == before
    &&& asked && action_of(turn.action@) is None ==> r == Err::<String, GameError>(
        GameError::InvalidAction,
    ) && after == before
    &&& asked && action_of(turn.action@) is Some && !has_seat(before.players@, player_id) ==> r
        == Err::<String, GameError>(GameError::Unauthorized) && after == before
    &&& allowed && action_of(turn.action@) == Some(Action::Sum) ==> exists|mid: Room|
        #[trigger] sum_step(before, mid, turn, r) && is_wound_up(mid, after, player_id, turn.hand, true, r is Ok)
    &&& allowed && action_of(turn.action@) == Some(Action::Claim) ==> exists|mid: Room|
        #[trigger] claim_step(before, mid, turn, r) && is_wound_up(mid, after, player_id, turn.hand, true, r is Ok)
    &&& allowed && action_of(turn.action@) == Some(Action::Pass) ==> exists|mid: Room|
        #[trigger] pass_step(before, mid, r) && is_wound_up(mid, after, player_id, turn.hand, false, r is Ok)
}

/// Carries out a player's request on an active room: checks that it is the
/// player's turn and that the action is known, performs it, records the
/// thrown card, and copies the acting seat back unless the action was a pass.
pub fn take_turn(room: &mut Room, player_id: u32, turn: &Turn) -> (r: Result<String, GameError>)
    requires
        old(room).wf(),
        turn_fits(*old(room), *turn),
    ensures
        final(room).wf(),
        turn_step(*old(room), *final(room), player_id, *turn, r),
{
    if !room.active {
        return Err(GameError::RoomInactive);
    }
    if room.current_player.id != player_id {
        return Err(GameError::Unauthorized);
    }
    let action = match parse_action(&turn.action) {
        Some(a) => a,
        None => return Err(GameError::InvalidAction),
    };
    if !room.includes(player_id) {
        return Err(GameError::Unauthorized);
    }
    let res = match action {
        Action::Sum => sum(room, turn),
        Action::Pass => pass(room),
        Action::Claim => claim(room, turn),
    };
    let ghost mid = *room;
    let succeeded = res.is_ok();
    if succeeded {
        if let Some(card) = &turn.hand {
            room.last_card = card.clone();
        }
    }
    if succeeded && action != Action::Pass {
        proof {
            let i = choose|i: int| 0 <= i < mid.players@.len() && mid.players@[i].id == player_id;
            assert(room.players@[i].id == player_id);
        }
        let k = match room.find_seat(player_id) {
            Some(k) => k,
            None => return res,
        };
        proof {
            lemma_seat_index(room.players@, player_id, k as int);
        }
        let copy = room.current_player.clone();
        let updated = User {
            name: room.players[k].name.clone(),
            id: room.players[k].id,
            hand: copy.hand,
            points: copy.points,
            card_points: copy.card_points,
        };
        room.players.set(k, updated);
        proof {
            assert(is_wound_up(mid, *room, player_id, turn.hand, true, succeeded));
        }
    } else {
        assert(is_wound_up(mid, *room, player_id, turn.hand, action != Action::Pass, succeeded));
    }
    res
}

proof fn lemma_same_block(i: int, a: int, j: int, b: int)
    requires
        0 <= a < 5,
        0 <= b < 5,
        5 * i + a == 5 * j + b,
    ensures
        i == j,
        a == b,
{
    assert(i == j) by (nonlinear_arith)
        requires
            0 <= a < 5,
            0 <= b < 5,
            5 * i + a == 5 * j + b,
    ;
}

/// A deal from a pile that holds no card twice gives every seat five cards,
/// no card to two seats and no dealt card to the draw pile; every card of the
/// pile ends up in one hand or in the draw pile.
pub proof fn lemma_deal_partitions(before: Seq<User>, after: Room, pile: Seq<Card>)
    requires
        is_deal(before, after, pile),
        pile.no_duplicates(),
    ensures
        forall|i: int| 0 <= i < before.len() ==> (#[trigger] after.players@[i]).hand@.len() == 5,
        forall|i: int, j: int, c: Card|
            0 <= i < before.len() && 0 <= j < before.len() && i != j && #[trigger] after.players@[i].hand@.contains(c) ==> !#[trigger] after.players@[j].hand@.contains(c),
        forall|i: int, c: Card|
            0 <= i < before.len() && #[trigger] after.players@[i].hand@.contains(c)
                ==> !after.deck@.contains(c),
        forall|c: Card|
            #[trigger] pile.contains(c) ==> after.deck@.contains(c) || exists|i: int|
                0 <= i < before.len() && #[trigger] after.players@[i].hand@.contains(c),
        after.deck@.len() + 5 * before.len() == pile.len(),
{
    let n = before.len() as int;
    assert forall|i: int| 0 <= i < n implies (#[trigger] after.players@[i]).hand@.len() == 5 by {
    }
    assert forall|i: int, j: int, c: Card|
        0 <= i < n && 0 <= j < n && i != j && #[trigger] after.players@[i].hand@.contains(c) implies !#[trigger] after.players@[j].hand@.contains(c) by {
        if after.players@[j].hand@.contains(c) {
            let a = choose|a: int| 0 <= a < 5 && after.players@[i].hand@[a] == c;
            let b = choose|b: int| 0 <= b < 5 && after.players@[j].hand@[b] == c;
            assert(pile[5 * i + a] == c);
            assert(pile[5 * j + b] == c);
            lemma_same_block(i, a, j, b);
        }
    }
    assert forall|i: int, c: Card|
        0 <= i < n && #[trigger] after.players@[i].hand@.contains(c) implies !after.deck@.contains(
            c,
        ) by {
        if after.deck@.contains(c) {
            let a = choose|a: int| 0 <= a < 5 && after.players@[i].hand@[a] == c;
            let m = choose|m: int| 0 <= m < after.deck@.len() && after.deck@[m] == c;
            assert(pile[5 * i + a] == c);
            assert(pile[5 * n + m] == c);
            assert(5 * i + a < 5 * n) by (nonlinear_arith)
                requires
                    0 <= a < 5,
                    i < n,
            ;
        }
    }
    assert forall|c: Card| #[trigger] pile.contains(c) implies after.deck@.contains(c) || exists|
        i: int,
    | 0 <= i < n && #[trigger] after.players@[i].hand@.contains(c) by {
        let m = choose|m: int| 0 <= m < pile.len() && pile[m] == c;
        if m < 5 * n {
            let i = m / 5;
            let a = m % 5;
            assert(0 <= i < n && 0 <= a < 5 && m == 5 * i + a) by (nonlinear_arith)
                requires
                    0 <= m < 5 * n,
                    i == m / 5,
                    a == m % 5,
            ;
            assert(after.players@[i].hand@[a] == c);
            assert(after.players@[i].hand@.contains(c));
        } else {
            assert(after.deck@[m - 5 * n] == c);
        }
    }
}

/// A re-deal from a leftover pile that holds no card twice and shares no card
/// with the board gives every seat five cards, no card to two seats, and no
/// dealt card to the draw pile or the board; the draw pile still holds no card
/// twice, and every card of the old pile is in one hand or in the draw pile.
pub proof fn lemma_redeal(before: Room, after: Room)
    requires
        deals_into(before, after, Ok(())),
        before.deck@.len() > 0,
        before.deck@.no_duplicates(),
        forall|c: Card| #[trigger] before.deck@.contains(c) ==> !before.board@.contains(c),
    ensures
        after.board == before.board,
        after.claim == before.claim,
        after.deck@.no_duplicates(),
        after.deck@.len() + 5 * before.players@.len() == before.deck@.len(),
        forall|i: int|
            0 <= i < before.players@.len() ==> (#[trigger] after.players@[i]).hand@.len() == 5,
        forall|i: int, j: int, c: Card|
            0 <= i < before.players@.len() && 0 <= j < before.players@.len() && i != j
                && #[trigger] after.players@[i].hand@.contains(c) ==> !#[trigger] after.players@[j].hand@.contains(c),
        forall|i: int, c: Card|
            0 <= i < before.players@.len() && #[trigger] after.players@[i].hand@.contains(c)
                ==> !after.deck@.contains(c) && !after.board@.contains(c),
        forall|c: Card|
            #[trigger] before.deck@.contains(c) ==> after.deck@.contains(c) || exists|i: int|
                0 <= i < before.players@.len() && #[trigger] after.players@[i].hand@.contains(c),
{
    let pile = before.deck@;
    let n = before.players@.len() as int;
    lemma_deal_partitions(before.players@, after, pile);
    assert forall|a: int, b: int|
        0 <= a < after.deck@.len() && 0 <= b < after.deck@.len() && a != b implies after.deck@[a]
        != after.deck@[b] by {
        assert(after.deck@[a] == pile[5 * n + a]);
        assert(after.deck@[b] == pile[5 * n + b]);
    }
    assert forall|i: int, c: Card|
        0 <= i < n && #[trigger] after.players@[i].hand@.contains(c) implies !after.board@.contains(
            c,
        ) by {
        let a = choose|a: int| 0 <= a < after.players@[i].hand@.len() && after.players@[i].hand@[a] == c;
        assert(after.players@[i].hand@ == pile.subrange(5 * i, 5 * i + 5));
        assert(pile[5 * i + a] == c);
        assert(pile.contains(c));
    }
}

/// A shuffled full deck holds no id twice.
pub proof fn lemma_shuffled_distinct_ids(pile: Seq<Card>)
    requires
        is_shuffled_deck(pile),
    ensures
        distinct_ids(pile),
{
    lemma_shuffled_deck(pile);
    let d = choose|d: Seq<Card>| is_full_deck(d) && #[trigger] d.to_multiset() == pile.to_multiset();
    assert forall|a: int, b: int| 0 <= a < b < pile.len() implies pile[a].id != pile[b].id by {
        vstd::seq_lib::to_multiset_contains(pile, pile[a]);
        vstd::seq_lib::to_multiset_contains(pile, pile[b]);
        vstd::seq_lib::to_multiset_contains(d, pile[a]);
        vstd::seq_lib::to_multiset_contains(d, pile[b]);
        assert(pile.contains(pile[a]));
        assert(pile.contains(pile[b]));
        let x = choose|x: int| 0 <= x < d.len() && d[x] == pile[a];
        let y = choose|y: int| 0 <= y < d.len() && d[y] == pile[b];
        assert(is_canonical(d[x], x));
        assert(is_canonical(d[y], y));
    }
}

/// A shuffled full deck holds forty cards, none twice.
pub proof fn lemma_shuffled_deck(pile: Seq<Card>)
    requires
        is_shuffled_deck(pile),
    ensures
        pile.len() == 40,
        pile.no_duplicates(),
{
    let d = choose|d: Seq<Card>| is_full_deck(d) && #[trigger] d.to_multiset() == pile.to_multiset();
    assert forall|i: int, j: int| 0 <= i < d.len() && 0 <= j < d.len() && i != j implies d[i]
        != d[j] by {
        assert(is_canonical(d[i], i));
        assert(is_canonical(d[j], j));
    }
    d.lemma_multiset_has_no_duplicates();
    pile.lemma_multiset_has_no_duplicates_conv();
    vstd::seq_lib::to_multiset_len(d);
    vstd::seq_lib::to_multiset_len(pile);
}

/// A first deal to a table of two or four seats leaves the board and the claim
/// set empty, gives every seat five cards with no card in two hands, and leaves
/// the rest of the forty cards in the draw pile: each card of the full deck is
/// in exactly one of the hands and the draw pile.
pub proof fn lemma_fresh_deal(before: Room, after: Room)
    requires
        deals_into(before, after, Ok(())),
        before.deck@.len() == 0,
        valid_table(before.players@),
    ensures
        after.board@.len() == 0,
        after.claim@.len() == 0,
        after.players@.len() == before.players@.len(),
        after.deck@.len() + 5 * before.players@.len() == 40,
        forall|i: int|
            0 <= i < before.players@.len() ==> (#[trigger] after.players@[i]).hand@.len() == 5,
        forall|i: int, j: int, c: Card|
            0 <= i < before.players@.len() && 0 <= j < before.players@.len() && i != j && #[trigger] after.players@[i].hand@.contains(c) ==> !#[trigger] after.players@[j].hand@.contains(c),
        forall|i: int, c: Card|
            0 <= i < before.players@.len() && #[trigger] after.players@[i].hand@.contains(c)
                ==> !after.deck@.contains(c),
        forall|k: int|
            0 <= k < 40 ==> #[trigger] has_id(after.deck@, k as u64) || exists|i: int|
                0 <= i < before.players@.len() && has_id(
                    #[trigger] after.players@[i].hand@,
                    k as u64,
                ),
        exists|d: Seq<Card>|
            is_full_deck(d) && forall|k: int|
                0 <= k < 40 ==> after.deck@.contains(#[trigger] d[k]) || exists|i: int|
                    0 <= i < before.players@.len() && #[trigger] after.players@[i].hand@.contains(d[k]),
{
    let pile = choose|pile: Seq<Card>|
        is_shuffled_deck(pile) && #[trigger] is_deal(before.players@, after, pile);
    lemma_shuffled_deck(pile);
    lemma_deal_partitions(before.players@, after, pile);
    let d = choose|d: Seq<Card>| is_full_deck(d) && #[trigger] d.to_multiset() == pile.to_multiset();
    assert forall|k: int| 0 <= k < 40 implies after.deck@.contains(#[trigger] d[k]) || exists|
        i: int,
    | 0 <= i < before.players@.len() && #[trigger] after.players@[i].hand@.contains(d[k]) by {
        vstd::seq_lib::to_multiset_contains(d, d[k]);
        vstd::seq_lib::to_multiset_contains(pile, d[k]);
        assert(d.contains(d[k]));
        assert(pile.contains(d[k]));
    }
    assert forall|k: int| 0 <= k < 40 implies #[trigger] has_id(after.deck@, k as u64) || exists|
        i: int,
    | 0 <= i < before.players@.len() && has_id(#[trigger] after.players@[i].hand@, k as u64) by {
        assert(is_canonical(d[k], k));
        if after.deck@.contains(d[k]) {
            let m = choose|m: int| 0 <= m < after.deck@.len() && after.deck@[m] == d[k];
            assert(after.deck@[m].id == k as u64);
        } else {
            let i = choose|i: int|
                0 <= i < before.players@.len() && #[trigger] after.players@[i].hand@.contains(d[k]);
            let m = choose|m: int| 0 <= m < after.players@[i].hand@.len() && after.players@[i].hand@[m] == d[k];
            assert(after.players@[i].hand@[m].id == k as u64);
        }
    }
}

/// Number of cards of `s` that satisfy `p`.
pub open spec fn count_where(s: Seq<Card>, p: spec_fn(Card) -> bool) -> nat
    decreases s.len(),
{
    if s.len() == 0 {
        0
    } else {
        count_where(s.drop_last(), p) + if p(s.last()) {
            1nat
        } else {
            0nat
        }
    }
}

proof fn lemma_filter_count(s: Seq<Card>, p: spec_fn(Card) -> bool)
    ensures
        s.filter(p).len() == count_where(s, p),
    decreases s.len(),
{
    reveal(Seq::filter);
    if s.len() > 0 {
        lemma_filter_count(s.drop_last(), p);
    }
}

proof fn lemma_count_split(
    s: Seq<Card>,
    p: spec_fn(Card) -> bool,
    q: spec_fn(Card) -> bool,
    r: spec_fn(Card) -> bool,
)
    requires
        forall|c: Card| #[trigger] r(c) == (p(c) || q(c)),
        forall|c: Card| !(#[trigger] p(c) && q(c)),
    ensures
        count_where(s, r) == count_where(s, p) + count_where(s, q),
    decreases s.len(),
{
    if s.len() > 0 {
        lemma_count_split(s.drop_last(), p, q, r);
        assert(r(s.last()) == (p(s.last()) || q(s.last())));
        assert(!(p(s.last()) && q(s.last())));
    }
}

proof fn lemma_count_complement(s: Seq<Card>, p: spec_fn(Card) -> bool, q: spec_fn(Card) -> bool)
    requires
        forall|c: Card| #[trigger] q(c) == !p(c),
    ensures
        count_where(s, p) + count_where(s, q) == s.len(),
    decreases s.len(),
{
    if s.len() > 0 {
        lemma_count_complement(s.drop_last(), p, q);
        assert(q(s.last()) == !p(s.last()));
    }
}

proof fn lemma_count_none(s: Seq<Card>, p: spec_fn(Card) -> bool)
    requires
        forall|c: Card| !#[trigger] p(c),
    ensures
        count_where(s, p) == 0,
    decreases s.len(),
{
    if s.len() > 0 {
        lemma_count_none(s.drop_last(), p);
        assert(!p(s.last()));
    }
}

proof fn lemma_count_id(s: Seq<Card>, id: u64)
    requires
        distinct_ids(s),
    ensures
        count_where(s, |c: Card| c.id == id) == if has_id(s, id) {
            1nat
        } else {
            0nat
        },
    decreases s.len(),
{
    if s.len() > 0 {
        let t = s.drop_last();
        lemma_count_id(t, id);
        if has_id(s, id) {
            let i = choose|i: int| 0 <= i < s.len() && s[i].id == id;
            if s.last().id == id {
                if has_id(t, id) {
                    let j = choose|j: int| 0 <= j < t.len() && t[j].id == id;
                    assert(s[j].id == s[s.len() - 1].id);
                }
            } else {
                assert(t[i].id == id);
            }
        } else {
            if has_id(t, id) {
                let j = choose|j: int| 0 <= j < t.len() && t[j].id == id;
                assert(s[j].id == id);
            }
            assert(s[s.len() - 1].id != id);
        }
    }
}

proof fn lemma_count_selection(board: Seq<Card>, sel: Seq<Card>)
    requires
        distinct_ids(board),
        distinct_ids(sel),
        forall|i: int| 0 <= i < sel.len() ==> has_id(board, #[trigger] sel[i].id),
    ensures
        count_where(board, |c: Card| has_id(sel, c.id)) == sel.len(),
    decreases sel.len(),
{
    if sel.len() == 0 {
        lemma_count_none(board, |c: Card| has_id(sel, c.id));
    } else {
        let t = sel.drop_last();
        let x = sel.last();
        assert forall|i: int| 0 <= i < t.len() implies has_id(board, #[trigger] t[i].id) by {
            assert(t[i] == sel[i]);
        }
        lemma_count_selection(board, t);
        lemma_count_id(board, x.id);
        assert(has_id(board, sel[sel.len() - 1].id));
        assert forall|c: Card| #[trigger] has_id(sel, c.id) == (has_id(t, c.id) || c.id == x.id) by {
            if has_id(sel, c.id) && c.id != x.id {
                let i = choose|i: int| 0 <= i < sel.len() && sel[i].id == c.id;
                assert(t[i].id == c.id);
            }
            if has_id(t, c.id) {
                let i = choose|i: int| 0 <= i < t.len() && t[i].id == c.id;
                assert(sel[i].id == c.id);
            }
        }
        assert forall|c: Card| !(has_id(t, c.id) && #[trigger] c.id == x.id) by {
            if has_id(t, c.id) && c.id == x.id {
                let i = choose|i: int| 0 <= i < t.len() && t[i].id == c.id;
                assert(sel[i].id == sel[sel.len() - 1].id);
            }
        }
        lemma_count_split(
            board,
            |c: Card| has_id(t, c.id),
            |c: Card| c.id == x.id,
            |c: Card| has_id(sel, c.id),
        );
    }
}

/// A capture whose selected cards lie on the board, with no id twice, and whose
/// thrown card is in the hand takes exactly the selected cards off the board
/// and the thrown card out of the hand, and credits that many cards.
pub proof fn lemma_capture_count(
    before: Room,
    after: Room,
    turn: Turn,
    card: Card,
    r: Result<String, GameError>,
)
    requires
        sum_step(before, after, turn, r),
        !before.dirty,
        turn.board@.len() > 0,
        turn.hand == Some(card),
        value_sum(turn.board@) == card.spec_value(),
        before.wf(),
        distinct_ids(turn.board@),
        forall|i: int| 0 <= i < turn.board@.len() ==> has_id(before.board@, #[trigger] turn.board@[i].id),
        has_id(before.current_player.hand@, card.id),
    ensures
        r is Ok,
        after.board@.len() + turn.board@.len() == before.board@.len(),
        after.current_player.hand@.len() + 1 == before.current_player.hand@.len(),
        after.current_player.card_points == before.current_player.card_points
            + turn.board@.len() + 1,
{
    let sel = turn.board@;
    let hand = before.current_player.hand@;
    lemma_filter_count(before.board@, |c: Card| !has_id(sel, c.id));
    lemma_count_selection(before.board@, sel);
    lemma_count_complement(before.board@, |c: Card| has_id(sel, c.id), |c: Card| !has_id(sel, c.id));
    lemma_filter_count(hand, |c: Card| c.id != card.id);
    lemma_count_id(hand, card.id);
    lemma_count_complement(hand, |c: Card| c.id == card.id, |c: Card| c.id != card.id);
}

} // verus!
