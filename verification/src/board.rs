//! Snapshot data model: the fully materialized board that the reader returns.

use vstd::prelude::*;

verus! {

/// A card: the unit being ordered within a column.
pub struct Card {
    pub id: i64,
    pub title: String,
    pub description: Option<String>,
}

impl Card {
    pub fn new(id: i64, title: &str, description: Option<String>) -> (c: Card)
        ensures
            c.id == id,
            c.title@ == title@,
            c.description == description,
    {
        Card { id, title: title.to_owned(), description }
    }
}

impl Clone for Card {
    fn clone(&self) -> (c: Card)
        ensures
            c == *self,
    {
        let title = self.title.clone();
        let description = self.description.clone();
        proof {
            if self.description is Some {
                assert(description is Some);
                assert(description.unwrap() == self.description.unwrap());
            }
            assert(description == self.description);
        }
        Card { id: self.id, title, description }
    }
}

/// A column: a named, ordered container of cards.  In a snapshot the
/// index of a card in `cards` is its position in the column.
pub struct Column {
    pub id: i64,
    pub title: String,
    pub cards: Vec<Card>,
}

impl Column {
    pub fn new(id: i64, title: &str) -> (c: Column)
        ensures
            c.id == id,
            c.title@ == title@,
            c.cards@.len() == 0,
    {
        Column { id, title: title.to_owned(), cards: Vec::new() }
    }

    pub fn add_card(&mut self, card: Card)
        ensures
            final(self).id == old(self).id,
            final(self).title == old(self).title,
            final(self).cards@ == old(self).cards@.push(card),
    {
        self.cards.push(card);
    }
}

/// The whole board: every column with its cards, in column-id order.
pub struct Board {
    pub columns: Vec<Column>,
}

/// A slot: a column together with a position inside it.  Used both as the
/// target of an insertion or move and as the source being vacated.
#[derive(Clone, Copy, PartialEq, Eq, Structural, Debug)]
pub struct CardPos {
    pub column_id: i64,
    pub position: i64,
}

} // verus!
