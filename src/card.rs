use vstd::prelude::*;
use vstd::string::{StrSliceExecFns, StringExecFns};

verus! {

/// Arithmetic value of a rank token: A is 1, numerals are their face, J, Q and
/// K are 11, 12 and 13. Any other token is worth 0.
pub open spec fn value_of(t: Seq<char>) -> u8 {
    if t.len() != 1 {
        0
    } else if t[0] == 'A' {
        1
    } else if t[0] == '2' {
        2
    } else if t[0] == '3' {
        3
    } else if t[0] == '4' {
        4
    } else if t[0] == '5' {
        5
    } else if t[0] == '6' {
        6
    } else if t[0] == '7' {
        7
    } else if t[0] == 'J' {
        11
    } else if t[0] == 'Q' {
        12
    } else if t[0] == 'K' {
        13
    } else {
        0
    }
}

/// Chain rank of a rank token, used only for runs: like the value, except that
/// J, Q and K stand at 8, 9 and 10. Any other token has rank 0.
pub open spec fn chain_of(t: Seq<char>) -> u8 {
    if value_of(t) >= 11 {
        (value_of(t) - 3) as u8
    } else {
        value_of(t)
    }
}

/// The rank token at position `r` of the deck's rank order A,2..7,J,Q,K.
pub open spec fn rank_token(r: int) -> Seq<char> {
    if r == 0 {
        seq!['A']
    } else if r == 1 {
        seq!['2']
    } else if r == 2 {
        seq!['3']
    } else if r == 3 {
        seq!['4']
    } else if r == 4 {
        seq!['5']
    } else if r == 5 {
        seq!['6']
    } else if r == 6 {
        seq!['7']
    } else if r == 7 {
        seq!['J']
    } else if r == 8 {
        seq!['Q']
    } else {
        seq!['K']
    }
}

/// The suit token at position `s` of the suit order C,D,H,S.
pub open spec fn suit_token(s: int) -> Seq<char> {
    if s == 0 {
        seq!['C']
    } else if s == 1 {
        seq!['D']
    } else if s == 2 {
        seq!['H']
    } else {
        seq!['S']
    }
}

/// Number of ranks in the deck.
pub const RANKS: usize = 10;

/// Number of suits in the deck.
pub const SUITS: usize = 4;

/// Number of cards in a full deck.
pub const DECK_SIZE: usize = 40;

/// A playing card: a stable id, a display name, a rank token and a suit token.
/// Two cards are the same card when their ids are equal.
#[derive(Debug)]
pub struct Card {
    pub id: u64,
    pub name: String,
    pub number: String,
    pub sign: String,
}

impl Clone for Card {
    fn clone(&self) -> (r: Self)
        ensures
            r == *self,
    {
        Card {
            id: self.id,
            name: self.name.clone(),
            number: self.number.clone(),
            sign: self.sign.clone(),
        }
    }
}

impl PartialEq for Card {
    fn eq(&self, other: &Card) -> (r: bool) {
        self.id == other.id
    }
}

impl vstd::std_specs::cmp::PartialEqSpecImpl for Card {
    open spec fn obeys_eq_spec() -> bool {
        true
    }

    open spec fn eq_spec(&self, other: &Card) -> bool {
        self.id == other.id
    }
}

impl Eq for Card {

}

/// Whether `c` is the deck's card at position `k`: id `k`, rank `k / 4`, suit
/// `k % 4`, and a name made of the two tokens.
pub open spec fn is_canonical(c: Card, k: int) -> bool {
    &&& c.id == k
    &&& c.number@ == rank_token(k / 4)
    &&& c.sign@ == suit_token(k % 4)
    &&& c.name@ == rank_token(k / 4) + suit_token(k % 4)
}

/// Whether `s` is the full deck in its fixed order, rank-major and suit-minor.
pub open spec fn is_full_deck(s: Seq<Card>) -> bool {
    &&& s.len() == 40
    &&& forall|k: int| 0 <= k < 40 ==> #[trigger] is_canonical(s[k], k)
}

fn rank_str(r: usize) -> (t: &'static str)
    requires
        r < 10,
    ensures
        t@ == rank_token(r as int),
{
    proof {
        reveal_strlit("A");
        reveal_strlit("2");
        reveal_strlit("3");
        reveal_strlit("4");
        reveal_strlit("5");
        reveal_strlit("6");
        reveal_strlit("7");
        reveal_strlit("J");
        reveal_strlit("Q");
        reveal_strlit("K");
    }
    match r {
        0 => "A",
        1 => "2",
        2 => "3",
        3 => "4",
        4 => "5",
        5 => "6",
        6 => "7",
        7 => "J",
        8 => "Q",
        _ => "K",
    }
}

fn suit_str(s: usize) -> (t: &'static str)
    requires
        s < 4,
    ensures
        t@ == suit_token(s as int),
{
    proof {
        reveal_strlit("C");
        reveal_strlit("D");
        reveal_strlit("H");
        reveal_strlit("S");
    }
    match s {
        0 => "C",
        1 => "D",
        2 => "H",
        _ => "S",
    }
}

impl Card {
    pub open spec fn spec_value(&self) -> u8 {
        value_of(self.number@)
    }

    pub open spec fn spec_chain_value(&self) -> u8 {
        chain_of(self.number@)
    }

    pub fn new(id: u64, name: &str, number: &str, sign: &str) -> (c: Self)
        ensures
            c.id == id,
            c.name@ == name@,
            c.number@ == number@,
            c.sign@ == sign@,
    {
        Card { id, name: name.to_owned(), number: number.to_owned(), sign: sign.to_owned() }
    }

    /// Arithmetic value used by sum captures.
    pub fn value(&self) -> (r: u8)
        ensures
            r == self.spec_value(),
    {
        let t = self.number.as_str();
        if t.unicode_len() != 1 {
            return 0;
        }
        match t.get_char(0) {
            'A' => 1,
            '2' => 2,
            '3' => 3,
            '4' => 4,
            '5' => 5,
            '6' => 6,
            '7' => 7,
            'J' => 11,
            'Q' => 12,
            'K' => 13,
            _ => 0,
        }
    }

    /// Rank used by chain captures.
    pub fn chain_value(&self) -> (r: u8)
        ensures
            r == self.spec_chain_value(),
    {
        let v = self.value();
        if v >= 11 {
            v - 3
        } else {
            v
        }
    }

    /// The full forty-card deck in its fixed order, ids 0 to 39.
    pub fn all() -> (deck: Vec<Card>)
        ensures
            is_full_deck(deck@),
    {
        let mut deck: Vec<Card> = Vec::new();
        let mut i: usize = 0;
        while i < RANKS
            invariant
                i <= RANKS,
                deck@.len() == i * SUITS,
                forall|k: int| 0 <= k < deck@.len() ==> #[trigger] is_canonical(deck@[k], k),
            decreases RANKS - i,
        {
            let number = rank_str(i);
            let mut j: usize = 0;
            while j < SUITS
                invariant
                    i < RANKS,
                    j <= SUITS,
                    number@ == rank_token(i as int),
                    deck@.len() == i * SUITS + j,
                    forall|k: int| 0 <= k < deck@.len() ==> #[trigger] is_canonical(deck@[k], k),
                decreases SUITS - j,
            {
                let sign = suit_str(j);
                let name = number.to_owned().concat(sign);
                let id = (i * SUITS + j) as u64;
                let card = Card::new(id, name.as_str(), number, sign);
                proof {
                    let k = (i * SUITS + j) as int;
                    assert(k / 4 == i as int && k % 4 == j as int);
                }
                deck.push(card);
                j += 1;
            }
            i += 1;
        }
        deck
    }
}

/// Whether some card of `deck` has rank `r` and suit `s` of the deck's orders.
pub open spec fn holds_pair(deck: Seq<Card>, r: int, s: int) -> bool {
    exists|k: int|
        0 <= k < deck.len() && (#[trigger] deck[k]).number@ == rank_token(r) && deck[k].sign@
            == suit_token(s)
}

/// Every card of the full deck has a value from 1 to 13 and a chain rank from
/// 1 to 10: neither lookup falls back to 0 on a card of the deck.
pub proof fn lemma_deck_values(deck: Seq<Card>)
    requires
        is_full_deck(deck),
    ensures
        forall|k: int|
            0 <= k < 40 ==> 1 <= (#[trigger] deck[k]).spec_value() <= 13 && 1
                <= deck[k].spec_chain_value() <= 10,
{
    assert forall|k: int| 0 <= k < 40 implies 1 <= (#[trigger] deck[k]).spec_value() <= 13 && 1
        <= deck[k].spec_chain_value() <= 10 by {
        assert(is_canonical(deck[k], k));
        let r = k / 4;
        assert(0 <= r < 10);
    }
}

/// The full deck holds forty cards with distinct ids, and each pair of a rank
/// and a suit exactly once.
pub proof fn lemma_deck_complete(deck: Seq<Card>)
    requires
        is_full_deck(deck),
    ensures
        deck.len() == 40,
        forall|i: int, j: int| 0 <= i < j < 40 ==> deck[i].id != deck[j].id,
        forall|r: int, s: int| 0 <= r < 10 && 0 <= s < 4 ==> #[trigger] holds_pair(deck, r, s),
        forall|i: int, j: int|
            0 <= i < 40 && 0 <= j < 40 && (#[trigger] deck[i]).number@ == deck[j].number@
                && deck[i].sign@ == (#[trigger] deck[j]).sign@ ==> i == j,
{
    assert forall|i: int, j: int| 0 <= i < j < 40 implies deck[i].id != deck[j].id by {
        assert(is_canonical(deck[i], i));
        assert(is_canonical(deck[j], j));
    }
    assert forall|r: int, s: int| 0 <= r < 10 && 0 <= s < 4 implies #[trigger] holds_pair(
        deck,
        r,
        s,
    ) by {
        let k = 4 * r + s;
        assert(k / 4 == r && k % 4 == s);
        assert(is_canonical(deck[k], k));
    }
    assert forall|i: int, j: int|
        0 <= i < 40 && 0 <= j < 40 && (#[trigger] deck[i]).number@ == deck[j].number@
            && deck[i].sign@ == (#[trigger] deck[j]).sign@ implies i == j by {
        assert(is_canonical(deck[i], i));
        assert(is_canonical(deck[j], j));
        let (ri, si, rj, sj) = (i / 4, i % 4, j / 4, j % 4);
        assert(rank_token(ri)[0] == rank_token(rj)[0]);
        assert(suit_token(si)[0] == suit_token(sj)[0]);
        assert(ri == rj);
        assert(si == sj);
    }
}

} // verus!
