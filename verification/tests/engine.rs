use kanban::board::Card;
use kanban::board::CardPos;
use kanban::store::Membership;
use kanban::store::StorageError;
use kanban::store::Store;

fn pos(column_id: i64, position: i64) -> CardPos {
    CardPos { column_id, position }
}

/// A store with two columns: column 0 holding cards 10 and 11 at
/// positions 0 and 1, and column 1 empty.
fn two_card_store() -> Store {
    let mut s = Store::new();
    s.add_column(0, "backlog").unwrap();
    s.add_column(1, "doing").unwrap();
    s.insert_card(Card::new(10, "first", None), pos(0, 0)).unwrap();
    s.insert_card(Card::new(11, "second", None), pos(0, 1)).unwrap();
    s
}

fn column_card_ids(s: &Store, column_id: i64) -> Vec<i64> {
    let cols = s.get_columns().unwrap();
    for c in cols {
        if c.id == column_id {
            return c.cards.iter().map(|card| card.id).collect();
        }
    }
    panic!("no such column");
}

#[test]
fn example_scenario() {
    let mut s = two_card_store();
    s.insert_card(Card::new(12, "third", None), pos(0, 1)).unwrap();
    assert_eq!(column_card_ids(&s, 0), vec![10, 12, 11]);

    s.move_card(Card::new(12, "third", None), pos(0, 1), pos(1, 0)).unwrap();
    assert_eq!(column_card_ids(&s, 0), vec![10, 11]);
    assert_eq!(column_card_ids(&s, 1), vec![12]);

    s.delete_card(Card::new(10, "first", None), 0).unwrap();
    assert_eq!(column_card_ids(&s, 0), vec![11]);
    assert_eq!(column_card_ids(&s, 1), vec![12]);
}

#[test]
fn positions_stay_dense_after_mixed_ops() {
    let mut s = two_card_store();
    s.insert_card(Card::new(12, "third", None), pos(0, 0)).unwrap();
    s.move_card(Card::new(11, "second", None), pos(0, 2), pos(1, 0)).unwrap();
    s.delete_card(Card::new(10, "first", None), 0).unwrap();

    for col in [0i64, 1i64] {
        let mut positions: Vec<i64> = s
            .memberships
            .iter()
            .filter(|m| m.column_id == col)
            .map(|m| m.position)
            .collect();
        positions.sort();
        let expected: Vec<i64> = (0..positions.len() as i64).collect();
        assert_eq!(positions, expected);
    }
}

#[test]
fn insert_then_delete_restores_siblings() {
    let mut s = two_card_store();
    let before = s.memberships.clone();
    s.insert_card(Card::new(12, "third", None), pos(0, 1)).unwrap();
    s.delete_card(Card::new(12, "third", None), 0).unwrap();
    assert_eq!(s.memberships, before);
    assert_eq!(s.cards.len(), 2);
}

#[test]
fn noop_move_keeps_positions() {
    let mut s = two_card_store();
    let mut before = s.memberships.clone();
    s.move_card(Card::new(10, "first", None), pos(0, 0), pos(0, 0)).unwrap();
    let mut after = s.memberships.clone();
    before.sort_by_key(|m| m.card_id);
    after.sort_by_key(|m| m.card_id);
    assert_eq!(after, before);
}

#[test]
fn cross_column_move_renumbers_both_sides() {
    let mut s = two_card_store();
    s.insert_card(Card::new(12, "third", None), pos(1, 0)).unwrap();
    s.move_card(Card::new(10, "first", None), pos(0, 0), pos(1, 0)).unwrap();
    assert_eq!(column_card_ids(&s, 0), vec![11]);
    assert_eq!(column_card_ids(&s, 1), vec![10, 12]);
}

#[test]
fn delete_wrong_column_not_found() {
    let mut s = two_card_store();
    let before_ms = s.memberships.clone();
    let before_cards = s.cards.len();
    let r = s.delete_card(Card::new(10, "first", None), 1);
    assert_eq!(r, Err(StorageError::NotFound));
    assert_eq!(s.memberships, before_ms);
    assert_eq!(s.cards.len(), before_cards);
}

#[test]
fn move_missing_source_not_found() {
    let mut s = two_card_store();
    let before = s.memberships.clone();
    let r = s.move_card(Card::new(10, "first", None), pos(0, 1), pos(1, 0));
    assert_eq!(r, Err(StorageError::NotFound));
    assert_eq!(s.memberships, before);
}

#[test]
fn duplicate_insert_rejected() {
    let mut s = two_card_store();
    let before_ms = s.memberships.clone();
    let r = s.insert_card(Card::new(10, "again", None), pos(1, 0));
    assert_eq!(r, Err(StorageError::DuplicateItem));
    assert_eq!(s.memberships, before_ms);
    assert_eq!(s.cards.len(), 2);
}

#[test]
fn orphan_membership_inconsistent() {
    let mut s = two_card_store();
    s.memberships.push(Membership { column_id: 9, card_id: 10, position: 0 });
    assert_eq!(s.get_columns().err(), Some(StorageError::InconsistentState));
    assert_eq!(s.load_board().err(), Some(StorageError::InconsistentState));
}

#[test]
fn missing_card_row_inconsistent() {
    let mut s = two_card_store();
    s.cards.remove(0);
    assert_eq!(s.get_columns().err(), Some(StorageError::InconsistentState));
}

#[test]
fn gapped_positions_inconsistent() {
    let mut s = two_card_store();
    for m in s.memberships.iter_mut() {
        if m.card_id == 11 {
            m.position = 2;
        }
    }
    assert_eq!(s.get_columns().err(), Some(StorageError::InconsistentState));
}

#[test]
fn duplicate_positions_inconsistent() {
    let mut s = two_card_store();
    for m in s.memberships.iter_mut() {
        if m.card_id == 11 {
            m.position = 0;
        }
    }
    assert_eq!(s.get_columns().err(), Some(StorageError::InconsistentState));
}

#[test]
fn add_column_keeps_ascending_order() {
    let mut s = Store::new();
    s.add_column(5, "later").unwrap();
    s.add_column(2, "earlier").unwrap();
    s.add_column(8, "last").unwrap();
    let cols = s.get_columns().unwrap();
    let ids: Vec<i64> = cols.iter().map(|c| c.id).collect();
    assert_eq!(ids, vec![2, 5, 8]);
}

#[test]
fn add_duplicate_column_rejected() {
    let mut s = Store::new();
    s.add_column(2, "one").unwrap();
    let r = s.add_column(2, "two");
    assert_eq!(r, Err(StorageError::DuplicateItem));
    assert_eq!(s.columns.len(), 1);
}

#[test]
fn load_board_reflects_committed_mutations() {
    let mut s = two_card_store();
    let failed = s.insert_card(Card::new(11, "dup", None), pos(1, 0));
    assert!(failed.is_err());
    let board = s.load_board().unwrap();
    assert_eq!(board.columns.len(), 2);
    assert_eq!(board.columns[0].id, 0);
    assert_eq!(board.columns[0].title, "backlog");
    assert_eq!(board.columns[0].cards.len(), 2);
    assert_eq!(board.columns[0].cards[0].id, 10);
    assert_eq!(board.columns[0].cards[0].title, "first");
    assert_eq!(board.columns[1].cards.len(), 0);
}

#[test]
fn empty_store_loads_empty_board() {
    let s = Store::new();
    let board = s.load_board().unwrap();
    assert_eq!(board.columns.len(), 0);
}
