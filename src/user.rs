use vstd::prelude::*;
use crate::card::Card;

verus! {

/// A seat at a table: who sits there, the cards in hand and the two scores.
/// Two seats are the same seat when their ids are equal.
#[derive(Debug)]
pub struct User {
    pub name: String,
    pub id: u32,
    pub hand: Vec<Card>,
    pub points: u32,
    pub card_points: u32,
}

/// What a seat holds, as plain values.
pub struct UserView {
    pub name: Seq<char>,
    pub id: u32,
    pub hand: Seq<Card>,
    pub points: u32,
    pub card_points: u32,
}

impl View for User {
    type V = UserView;

    open spec fn view(&self) -> UserView {
        UserView {
            name: self.name@,
            id: self.id,
            hand: self.hand@,
            points: self.points,
            card_points: self.card_points,
        }
    }
}

impl Clone for User {
    fn clone(&self) -> (r: Self)
        ensures
            r@ == self@,
    {
        let hand = self.hand.clone();
        proof {
            assert forall|i: int| 0 <= i < hand@.len() implies hand@[i] == self.hand@[i] by {
                assert(cloned::<Card>(self.hand@[i], hand@[i]));
            }
            assert(hand@ =~= self.hand@);
        }
        User {
            name: self.name.clone(),
            id: self.id,
            hand,
            points: self.points,
            card_points: self.card_points,
        }
    }
}

impl PartialEq for User {
    fn eq(&self, other: &User) -> (r: bool) {
        self.id == other.id
    }
}

impl vstd::std_specs::cmp::PartialEqSpecImpl for User {
    open spec fn obeys_eq_spec() -> bool {
        true
    }

    open spec fn eq_spec(&self, other: &User) -> bool {
        self.id == other.id
    }
}

impl Eq for User {

}

impl User {
    /// A new seat with an empty hand and no points.
    pub fn new(name: &str, id: u32) -> (u: User)
        ensures
            u@.name == name@,
            u@.id == id,
            u@.hand == Seq::<Card>::empty(),
            u@.points == 0,
            u@.card_points == 0,
    {
        User { name: name.to_owned(), id, hand: Vec::new(), points: 0, card_points: 0 }
    }
}

} // verus!
