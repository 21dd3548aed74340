use kanban::board::Card;
use kanban::board::Column;
use kanban::store::StorageError;

#[test]
fn card_new_holds_content() {
    let card = Card::new(3, "write docs", Some(String::from("soon")));
    assert_eq!(card.id, 3);
    assert_eq!(card.title, "write docs");
    assert_eq!(card.description.as_deref(), Some("soon"));

    let bare = Card::new(4, "empty", None);
    assert!(bare.description.is_none());
}

#[test]
fn card_clone_is_equal() {
    let card = Card::new(3, "write docs", Some(String::from("soon")));
    let copy = card.clone();
    assert_eq!(copy.id, card.id);
    assert_eq!(copy.title, card.title);
    assert_eq!(copy.description, card.description);
}

#[test]
fn column_new_starts_empty() {
    let col = Column::new(1, "doing");
    assert_eq!(col.id, 1);
    assert_eq!(col.title, "doing");
    assert!(col.cards.is_empty());
}

#[test]
fn add_card_appends_in_order() {
    let mut col = Column::new(0, "backlog");
    col.add_card(Card::new(1, "one", None));
    col.add_card(Card::new(2, "two", None));
    assert_eq!(col.cards.len(), 2);
    assert_eq!(col.cards[0].id, 1);
    assert_eq!(col.cards[1].id, 2);
}

#[test]
fn error_names_are_stable() {
    assert_eq!(StorageError::StorageUnavailable.name(), "storage unavailable");
    assert_eq!(StorageError::InconsistentState.name(), "inconsistent state");
    assert_eq!(StorageError::NotFound.name(), "not found");
    assert_eq!(StorageError::DuplicateItem.name(), "duplicate item");
}
