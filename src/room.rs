use vstd::prelude::*;
use crate::card::Card;
use crate::user::User;

verus! {

/// Whether a card with this id lies in `s`.
pub open spec fn has_id(s: Seq<Card>, id: u64) -> bool {
    exists|i: int| 0 <= i < s.len() && s[i].id == id
}

/// Whether no two cards of `s` share an id.
pub open spec fn distinct_ids(s: Seq<Card>) -> bool {
    forall|i: int, j: int| 0 <= i < j < s.len() ==> s[i].id != s[j].id
}

/// A stretch of cards with distinct ids has distinct ids.
pub proof fn lemma_subrange_distinct_ids(s: Seq<Card>, a: int, b: int)
    requires
        distinct_ids(s),
        0 <= a <= b <= s.len(),
    ensures
        distinct_ids(s.subrange(a, b)),
{
    assert forall|i: int, j: int| 0 <= i < j < b - a implies s.subrange(a, b)[i].id != s.subrange(
        a,
        b,
    )[j].id by {
        assert(s[a + i].id != s[a + j].id);
    }
}

/// Cards with distinct ids are distinct cards.
pub proof fn lemma_distinct_ids_no_duplicates(s: Seq<Card>)
    requires
        distinct_ids(s),
    ensures
        s.no_duplicates(),
{
    assert forall|i: int, j: int| 0 <= i < s.len() && 0 <= j < s.len() && i != j implies s[i]
        != s[j] by {
        if i < j {
            assert(s[i].id != s[j].id);
        } else {
            assert(s[j].id != s[i].id);
        }
    }
}

fn holds_id(v: &Vec<Card>, id: u64) -> (r: bool)
    ensures
        r == has_id(v@, id),
{
    let mut i: usize = 0;
    while i < v.len()
        invariant
            i <= v@.len(),
            forall|j: int| 0 <= j < i ==> v@[j].id != id,
        decreases v@.len() - i,
    {
        if v[i].id == id {
            return true;
        }
        i += 1;
    }
    false
}

fn ids_distinct(v: &Vec<Card>) -> (r: bool)
    ensures
        r == distinct_ids(v@),
{
    let mut j: usize = 0;
    while j < v.len()
        invariant
            j <= v@.len(),
            forall|a: int, b: int| 0 <= a < b < j ==> v@[a].id != v@[b].id,
        decreases v@.len() - j,
    {
        let mut i: usize = 0;
        while i < j
            invariant
                j < v@.len(),
                i <= j,
                forall|a: int, b: int| 0 <= a < b < j ==> v@[a].id != v@[b].id,
                forall|a: int| 0 <= a < i ==> v@[a].id != v@[j as int].id,
            decreases j - i,
        {
            if v[i].id == v[j].id {
                return false;
            }
            i += 1;
        }
        j += 1;
    }
    true
}

/// Whether a seat with this id is in `players`.
pub open spec fn has_seat(players: Seq<User>, id: u32) -> bool {
    exists|i: int| 0 <= i < players.len() && players[i].id == id
}

/// Whether `i` is the first seat of `players` with this id.
pub open spec fn is_first_seat(players: Seq<User>, id: u32, i: int) -> bool {
    &&& 0 <= i < players.len()
    &&& players[i].id == id
    &&& forall|j: int| 0 <= j < i ==> players[j].id != id
}

/// The index of the first seat with this id.
pub open spec fn seat_index(players: Seq<User>, id: u32) -> int {
    choose|i: int| is_first_seat(players, id, i)
}

/// The first seat with an id is the one that `seat_index` names.
pub proof fn lemma_seat_index(players: Seq<User>, id: u32, i: int)
    requires
        is_first_seat(players, id, i),
    ensures
        seat_index(players, id) == i,
{
    let k = seat_index(players, id);
    assert(is_first_seat(players, id, k));
    if k < i {
        assert(players[k].id != id);
    } else if i < k {
        assert(players[i].id != id);
    }
}

/// A game table: the seats, the draw pile, the cards lying face up, the cards
/// open to a chain claim, and whose turn it is.
#[derive(Debug)]
pub struct Room {
    pub deck: Vec<Card>,
    pub board: Vec<Card>,
    pub current_player: User,
    pub active: bool,
    pub players: Vec<User>,
    pub turn: usize,
    pub dirty: bool,
    pub claim: Vec<Card>,
    pub last_card: Card,
}

impl Room {
    /// Well-formedness: the board, the claim set, the draw pile and every hand
    /// hold no id twice, and every card open to a claim lies on the board.
    pub open spec fn wf(&self) -> bool {
        &&& distinct_ids(self.board@)
        &&& distinct_ids(self.claim@)
        &&& forall|i: int| 0 <= i < self.claim@.len() ==> has_id(self.board@, #[trigger] self.claim@[i].id)
        &&& distinct_ids(self.deck@)
        &&& distinct_ids(self.current_player.hand@)
        &&& forall|i: int| 0 <= i < self.players@.len() ==> distinct_ids(#[trigger] self.players@[i].hand@)
    }

    /// Whether the room is well formed.
    pub fn is_well_formed(&self) -> (r: bool)
        ensures
            r == self.wf(),
    {
        if !ids_distinct(&self.board) || !ids_distinct(&self.claim) || !ids_distinct(&self.deck)
            || !ids_distinct(&self.current_player.hand) {
            return false;
        }
        let mut k: usize = 0;
        while k < self.players.len()
            invariant
                k <= self.players@.len(),
                forall|j: int| 0 <= j < k ==> distinct_ids(#[trigger] self.players@[j].hand@),
            decreases self.players@.len() - k,
        {
            if !ids_distinct(&self.players[k].hand) {
                return false;
            }
            k += 1;
        }
        let mut i: usize = 0;
        while i < self.claim.len()
            invariant
                i <= self.claim@.len(),
                forall|j: int| 0 <= j < i ==> has_id(self.board@, #[trigger] self.claim@[j].id),
            decreases self.claim@.len() - i,
        {
            if !holds_id(&self.board, self.claim[i].id) {
                return false;
            }
            i += 1;
        }
        true
    }

    /// Index of the seat whose turn it is.
    pub open spec fn turn_seat(&self) -> int {
        self.turn as int % self.players@.len() as int
    }

    /// An inactive room with no seats and nothing dealt.
    pub fn new() -> (r: Self)
        ensures
            r.wf(),
            r.deck@.len() == 0,
            r.board@.len() == 0,
            r.claim@.len() == 0,
            r.players@.len() == 0,
            !r.active,
            !r.dirty,
            r.turn == 0,
            r.current_player@.id == 0,
            r.current_player@.name.len() == 0,
            r.current_player@.hand.len() == 0,
            r.current_player@.points == 0,
            r.current_player@.card_points == 0,
            r.last_card.id == 0,
            r.last_card.number@.len() == 0,
    {
        proof {
            reveal_strlit("");
        }
        Room {
            deck: Vec::new(),
            board: Vec::new(),
            current_player: User::new("", 0),
            active: false,
            players: Vec::new(),
            turn: 0,
            dirty: false,
            claim: Vec::new(),
            last_card: Card::new(0, "", "", ""),
        }
    }

    /// Index of the first seat with this id, if any.
    pub fn find_seat(&self, player_id: u32) -> (r: Option<usize>)
        ensures
            r is None <==> !has_seat(self.players@, player_id),
            r matches Some(i) ==> is_first_seat(self.players@, player_id, i as int),
    {
        let mut i: usize = 0;
        while i < self.players.len()
            invariant
                i <= self.players@.len(),
                forall|j: int| 0 <= j < i ==> self.players@[j].id != player_id,
            decreases self.players@.len() - i,
        {
            if self.players[i].id == player_id {
                return Some(i);
            }
            i += 1;
        }
        None
    }

    /// The seat with this id, to be changed in place.
    pub fn player(&mut self, player_id: u32) -> (r: &mut User)
        requires
            has_seat(old(self).players@, player_id),
        ensures
            *r == old(self).players@[seat_index(old(self).players@, player_id)],
            final(self).players@ == old(self).players@.update(
                seat_index(old(self).players@, player_id),
                *final(r),
            ),
            final(self).deck == old(self).deck,
            final(self).board == old(self).board,
            final(self).claim == old(self).claim,
            final(self).current_player == old(self).current_player,
            final(self).active == old(self).active,
            final(self).turn == old(self).turn,
            final(self).dirty == old(self).dirty,
            final(self).last_card == old(self).last_card,
    {
        let i = match self.find_seat(player_id) {
            Some(i) => i,
            None => 0,
        };
        proof {
            lemma_seat_index(self.players@, player_id, i as int);
        }
        &mut self.players[i]
    }

    /// Makes the scratch seat a copy of the seat whose turn it is.
    pub fn update_player(&mut self)
        requires
            old(self).players@.len() > 0,
        ensures
            final(self).current_player@ == old(self).players@[old(self).turn_seat()]@,
            final(self).players == old(self).players,
            final(self).deck == old(self).deck,
            final(self).board == old(self).board,
            final(self).claim == old(self).claim,
            final(self).active == old(self).active,
            final(self).turn == old(self).turn,
            final(self).dirty == old(self).dirty,
            final(self).last_card == old(self).last_card,
    {
        self.current_player = self.players[self.turn % self.players.len()].clone();
    }

    /// Moves the turn to the next seat.
    pub fn next_turn(&mut self)
        requires
            old(self).players@.len() > 0,
            old(self).turn < usize::MAX,
        ensures
            final(self).turn == old(self).turn + 1,
            final(self).current_player@ == final(self).players@[final(self).turn_seat()]@,
            final(self).players == old(self).players,
            final(self).deck == old(self).deck,
            final(self).board == old(self).board,
            final(self).claim == old(self).claim,
            final(self).active == old(self).active,
            final(self).dirty == old(self).dirty,
            final(self).last_card == old(self).last_card,
    {
        self.turn += 1;
        self.update_player();
    }

    /// Seats a player after the others.
    pub fn push(&mut self, user: User) -> (r: &mut Self)
        ensures
            r.players@ == old(self).players@.push(user),
            r.deck == old(self).deck,
            r.board == old(self).board,
            r.claim == old(self).claim,
            r.current_player == old(self).current_player,
            r.active == old(self).active,
            r.turn == old(self).turn,
            r.dirty == old(self).dirty,
            r.last_card == old(self).last_card,
            *final(self) == *final(r),
    {
        self.players.push(user);
        self
    }

    /// Whether a seat with this id is at the table.
    pub fn includes(&self, id: u32) -> (r: bool)
        ensures
            r == has_seat(self.players@, id),
    {
        self.find_seat(id).is_some()
    }
}

} // verus!
