//! The storage model and the ordered-position transaction engine.
//!
//! A [`Store`] mirrors the three relations of the backing database:
//! `columns(id, title)`, `cards(id, title, description)`, and
//! `memberships(column_id, card_id, position)`.  The engine's three
//! mutations keep every column's positions dense: for a column with `n`
//! members the positions present are exactly `{0, ..., n-1}`.

use vstd::prelude::*;

use crate::board::Board;
use crate::board::Card;
use crate::board::CardPos;
use crate::board::Column;

verus! {

/// One row of the membership relation: the binding of a card to a column
/// at a position.
#[derive(Clone, Copy, PartialEq, Eq, Structural, Debug)]
pub struct Membership {
    pub column_id: i64,
    pub card_id: i64,
    pub position: i64,
}

/// One row of the column relation: a column's identity and title, without
/// its cards.
pub struct ColumnRow {
    pub id: i64,
    pub title: String,
}

/// The error taxonomy that every operation reports through.
#[derive(Clone, Copy, PartialEq, Eq, Structural, Debug)]
pub enum StorageError {
    /// The backing store could not be reached or a transaction could not
    /// be opened or committed.  Produced only by an unverified shell that
    /// wraps real storage faults; the in-memory engine never raises it.
    StorageUnavailable,
    /// A read observed a malformed state: an orphaned membership, a
    /// membership whose card is missing, or a gap or duplicate among a
    /// column's positions.
    InconsistentState,
    /// A move or delete named a slot that holds no matching membership.
    NotFound,
    /// An insert named a card id that is already present.
    DuplicateItem,
}

impl StorageError {
    /// A short stable name for the error, for display by callers.
    pub fn name(&self) -> (s: &'static str)
        ensures
            s@ == match *self {
                StorageError::StorageUnavailable => "storage unavailable"@,
                StorageError::InconsistentState => "inconsistent state"@,
                StorageError::NotFound => "not found"@,
                StorageError::DuplicateItem => "duplicate item"@,
            },
    {
        match *self {
            StorageError::StorageUnavailable => "storage unavailable",
            StorageError::InconsistentState => "inconsistent state",
            StorageError::NotFound => "not found",
            StorageError::DuplicateItem => "duplicate item",
        }
    }
}

/// The number of membership rows that belong to column `col`.
pub open spec fn count_in(ms: Seq<Membership>, col: i64) -> int
    decreases ms.len(),
{
    if ms.len() == 0 {
        0
    } else {
        count_in(ms.drop_last(), col) + if ms.last().column_id == col {
            1int
        } else {
            0int
        }
    }
}

/// The in-memory model of the backing store.
pub struct Store {
    pub columns: Vec<ColumnRow>,
    pub cards: Vec<Card>,
    pub memberships: Vec<Membership>,
}

impl Store {
    /// Some column row carries the id `id`.
    pub open spec fn has_column(self, id: i64) -> bool {
        exists|i: int| 0 <= i < self.columns@.len() && self.columns@[i].id == id
    }

    /// Some card row carries the id `id`.
    pub open spec fn has_card(self, id: i64) -> bool {
        exists|i: int| 0 <= i < self.cards@.len() && self.cards@[i].id == id
    }

    /// The membership row `m` is present.
    pub open spec fn has_membership(self, m: Membership) -> bool {
        self.memberships@.contains(m)
    }

    /// Some membership row binds the card `id`.
    pub open spec fn ms_has_card(ms: Seq<Membership>, id: i64) -> bool {
        exists|j: int| 0 <= j < ms.len() && (#[trigger] ms[j]).card_id == id
    }

    /// The number of cards currently in column `col`.
    pub open spec fn col_size(self, col: i64) -> int {
        count_in(self.memberships@, col)
    }

    /// Well-formedness of the membership relation alone: card ids are
    /// unique (a card sits in at most one place), and within each column
    /// the positions are distinct and lie below the column's member count,
    /// which makes them exactly `{0, ..., n-1}`.
    pub open spec fn ms_wf(ms: Seq<Membership>) -> bool {
        &&& forall|i: int, j: int|
            0 <= i < ms.len() && 0 <= j < ms.len() && i != j ==> #[trigger] ms[i].card_id
                != #[trigger] ms[j].card_id
        &&& forall|i: int|
            0 <= i < ms.len() ==> 0 <= #[trigger] ms[i].position < count_in(ms, ms[i].column_id)
        &&& forall|i: int, j: int|
            0 <= i < ms.len() && 0 <= j < ms.len() && i != j && #[trigger] ms[i].column_id
                == #[trigger] ms[j].column_id ==> ms[i].position != ms[j].position
        &&& ms.len() <= i64::MAX
    }

    /// The full storage invariant: column ids strictly ascending, card ids
    /// unique, memberships well formed, and the relations referentially
    /// consistent (each membership names an existing column and card, and
    /// each card has a membership).
    pub open spec fn wf(self) -> bool {
        &&& forall|i: int, j: int|
            0 <= i < j < self.columns@.len() ==> #[trigger] self.columns@[i].id
                < #[trigger] self.columns@[j].id
        &&& forall|i: int, j: int|
            0 <= i < self.cards@.len() && 0 <= j < self.cards@.len() && i != j
                ==> #[trigger] self.cards@[i].id != #[trigger] self.cards@[j].id
        &&& Self::ms_wf(self.memberships@)
        &&& forall|i: int|
            0 <= i < self.memberships@.len() ==> self.has_card(
                #[trigger] self.memberships@[i].card_id,
            )
        &&& forall|i: int|
            0 <= i < self.memberships@.len() ==> self.has_column(
                #[trigger] self.memberships@[i].column_id,
            )
        &&& forall|i: int|
            0 <= i < self.cards@.len() ==> #[trigger] Self::ms_has_card(
                self.memberships@,
                self.cards@[i].id,
            )
    }

    /// An empty store.
    pub fn new() -> (s: Store)
        ensures
            s.wf(),
            s.columns@.len() == 0,
            s.cards@.len() == 0,
            s.memberships@.len() == 0,
    {
        Store { columns: Vec::new(), cards: Vec::new(), memberships: Vec::new() }
    }
}

/// The sibling-renumbering rule: rows of column `col` at or after position
/// `start` are moved by `delta`; every other row is untouched.
pub open spec fn pos_shift(m: Membership, col: i64, start: i64, delta: int) -> Membership {
    if m.column_id == col && m.position >= start {
        Membership { column_id: m.column_id, card_id: m.card_id, position: (m.position + delta) as i64 }
    } else {
        m
    }
}

pub proof fn lemma_count_in_bounds(ms: Seq<Membership>, col: i64)
    ensures
        0 <= count_in(ms, col) <= ms.len(),
    decreases ms.len(),
{
    if ms.len() > 0 {
        lemma_count_in_bounds(ms.drop_last(), col);
    }
}

pub proof fn lemma_count_in_map_values(
    ms: Seq<Membership>,
    f: spec_fn(Membership) -> Membership,
    col: i64,
)
    requires
        forall|m: Membership| (#[trigger] f(m)).column_id == m.column_id,
    ensures
        count_in(ms.map_values(f), col) == count_in(ms, col),
    decreases ms.len(),
{
    if ms.len() == 0 {
        assert(ms.map_values(f) =~= Seq::<Membership>::empty());
    } else {
        assert(ms.map_values(f).drop_last() =~= ms.drop_last().map_values(f));
        assert(ms.map_values(f).last() == f(ms.last()));
        lemma_count_in_map_values(ms.drop_last(), f, col);
    }
}

pub proof fn lemma_count_in_push(ms: Seq<Membership>, m: Membership, col: i64)
    ensures
        count_in(ms.push(m), col) == count_in(ms, col) + if m.column_id == col {
            1int
        } else {
            0int
        },
{
    assert(ms.push(m).drop_last() =~= ms);
    assert(ms.push(m).last() == m);
}

pub proof fn lemma_count_in_remove(ms: Seq<Membership>, k: int, col: i64)
    requires
        0 <= k < ms.len(),
    ensures
        count_in(ms.remove(k), col) == count_in(ms, col) - if ms[k].column_id == col {
            1int
        } else {
            0int
        },
    decreases ms.len(),
{
    if k == ms.len() - 1 {
        assert(ms.remove(k) =~= ms.drop_last());
    } else {
        assert(ms.remove(k).drop_last() =~= ms.drop_last().remove(k));
        assert(ms.remove(k).last() == ms.last());
        lemma_count_in_remove(ms.drop_last(), k, col);
    }
}

impl Store {
    /// The shared renumbering pass: every membership in `column_id` whose
    /// position is at or after `start_position` is shifted by `delta`.
    /// The affected rows are frozen into a fresh list before the store is
    /// touched, so no row is rewritten twice in one pass.
    fn update_card_positions(&mut self, column_id: i64, start_position: i64, delta: i64)
        requires
            delta == 1i64 || delta == -1i64,
            forall|i: int|
                0 <= i < old(self).memberships@.len()
                    && (#[trigger] old(self).memberships@[i]).column_id == column_id
                    && old(self).memberships@[i].position >= start_position ==> i64::MIN <= old(
                    self,
                ).memberships@[i].position + delta <= i64::MAX,
        ensures
            final(self).memberships@ == old(self).memberships@.map_values(
                |m: Membership| pos_shift(m, column_id, start_position, delta as int),
            ),
            final(self).cards@ == old(self).cards@,
            final(self).columns@ == old(self).columns@,
    {
        let ghost orig = self.memberships@;
        let ghost f = |m: Membership| pos_shift(m, column_id, start_position, delta as int);
        let mut updated: Vec<Membership> = Vec::new();
        let mut i: usize = 0;
        while i < self.memberships.len()
            invariant
                i <= self.memberships@.len(),
                self.memberships@ == orig,
                updated@ == orig.take(i as int).map_values(f),
                delta == 1i64 || delta == -1i64,
                f == (|m: Membership| pos_shift(m, column_id, start_position, delta as int)),
                forall|j: int|
                    0 <= j < orig.len() && (#[trigger] orig[j]).column_id == column_id
                        && orig[j].position >= start_position ==> i64::MIN <= orig[j].position
                        + delta <= i64::MAX,
            decreases self.memberships@.len() - i,
        {
            let m = self.memberships[i];
            if m.column_id == column_id && m.position >= start_position {
                updated.push(
                    Membership {
                        column_id: m.column_id,
                        card_id: m.card_id,
                        position: m.position + delta,
                    },
                );
            } else {
                updated.push(m);
            }
            proof {
                assert(updated@ =~= orig.take(i + 1).map_values(f));
            }
            i += 1;
        }
        proof {
            assert(orig.take(orig.len() as int) =~= orig);
        }
        self.memberships = updated;
    }
}

/// The membership relation after the insertion phase: the rows of `col`
/// at or after `pos` moved up by one, and a fresh row for `card_id`
/// appended at `pos`.
pub open spec fn insert_phase(ms: Seq<Membership>, col: i64, pos: i64, card_id: i64) -> Seq<
    Membership,
> {
    ms.map_values(|m: Membership| pos_shift(m, col, pos, 1)).push(
        Membership { column_id: col, card_id, position: pos },
    )
}

/// The membership relation after the removal phase: row `k` deleted, and
/// the rows of its column after it moved down by one.
pub open spec fn remove_phase(ms: Seq<Membership>, k: int) -> Seq<Membership> {
    ms.remove(k).map_values(|m: Membership| pos_shift(m, ms[k].column_id, ms[k].position, -1))
}

/// Shifting the rows of `col` at or after `pos` up by one and appending a
/// fresh row at `pos` keeps the membership relation well formed, provided
/// the landing position is within the column's current size.
pub proof fn lemma_insert_phase_wf(ms: Seq<Membership>, col: i64, pos: i64, card_id: i64)
    requires
        Store::ms_wf(ms),
        0 <= pos <= count_in(ms, col),
        forall|i: int| 0 <= i < ms.len() ==> (#[trigger] ms[i]).card_id != card_id,
        ms.len() + 1 <= i64::MAX,
    ensures
        Store::ms_wf(insert_phase(ms, col, pos, card_id)),
{
    let f = |m: Membership| pos_shift(m, col, pos, 1);
    let mapped = ms.map_values(f);
    let post = insert_phase(ms, col, pos, card_id);
    assert forall|c: i64| count_in(mapped, c) == count_in(ms, c) by {
        lemma_count_in_map_values(ms, f, c);
    }
    assert forall|c: i64|
        count_in(post, c) == count_in(ms, c) + if c == col {
            1int
        } else {
            0int
        } by {
        lemma_count_in_push(mapped, Membership { column_id: col, card_id, position: pos }, c);
    }
    assert forall|i: int| 0 <= i < ms.len() implies ms[i].position + 1 <= i64::MAX by {
        lemma_count_in_bounds(ms, ms[i].column_id);
    }
    assert forall|i: int| 0 <= i < post.len() implies 0 <= (#[trigger] post[i]).position
        < count_in(post, post[i].column_id) by {
        if i < ms.len() {
            assert(post[i] == f(ms[i]));
            lemma_count_in_bounds(ms, ms[i].column_id);
        } else {
            assert(post[i] == (Membership { column_id: col, card_id, position: pos }));
        }
    }
    assert forall|i: int, j: int|
        0 <= i < post.len() && 0 <= j < post.len() && i != j && (#[trigger] post[i]).column_id
            == (#[trigger] post[j]).column_id implies post[i].position != post[j].position by {
        if i < ms.len() && j < ms.len() {
            assert(post[i] == f(ms[i]));
            assert(post[j] == f(ms[j]));
        } else if i < ms.len() {
            assert(post[i] == f(ms[i]));
        } else if j < ms.len() {
            assert(post[j] == f(ms[j]));
        }
    }
    assert forall|i: int, j: int|
        0 <= i < post.len() && 0 <= j < post.len() && i != j implies (#[trigger] post[i]).card_id
        != (#[trigger] post[j]).card_id by {
        if i < ms.len() {
            assert(post[i] == f(ms[i]));
        }
        if j < ms.len() {
            assert(post[j] == f(ms[j]));
        }
    }
}

/// Removing row `k` and shifting the later rows of its column down by one
/// keeps the membership relation well formed; no surviving row carries the
/// removed row's card id.
pub proof fn lemma_remove_phase_wf(ms: Seq<Membership>, k: int)
    requires
        Store::ms_wf(ms),
        0 <= k < ms.len(),
    ensures
        Store::ms_wf(remove_phase(ms, k)),
        forall|i: int|
            0 <= i < ms.len() - 1 ==> (#[trigger] remove_phase(ms, k)[i]).card_id != ms[k].card_id,
{
    let col = ms[k].column_id;
    let p = ms[k].position;
    let f = |m: Membership| pos_shift(m, col, p, -1);
    let mid = ms.remove(k);
    let post = remove_phase(ms, k);
    assert(post == mid.map_values(f));
    assert forall|c: i64|
        count_in(mid, c) == count_in(ms, c) - if ms[k].column_id == c {
            1int
        } else {
            0int
        } by {
        lemma_count_in_remove(ms, k, c);
    }
    assert forall|c: i64| count_in(post, c) == count_in(mid, c) by {
        lemma_count_in_map_values(mid, f, c);
    }
    assert forall|i: int|
        0 <= i < mid.len() && (#[trigger] mid[i]).column_id == col implies mid[i].position != p by {
        if i < k {
            assert(mid[i] == ms[i]);
        } else {
            assert(mid[i] == ms[i + 1]);
        }
    }
    assert forall|i: int| 0 <= i < post.len() implies 0 <= (#[trigger] post[i]).position
        < count_in(post, post[i].column_id) by {
        assert(post[i] == f(mid[i]));
        if i < k {
            assert(mid[i] == ms[i]);
        } else {
            assert(mid[i] == ms[i + 1]);
        }
    }
    assert forall|i: int, j: int|
        0 <= i < post.len() && 0 <= j < post.len() && i != j && (#[trigger] post[i]).column_id
            == (#[trigger] post[j]).column_id implies post[i].position != post[j].position by {
        assert(post[i] == f(mid[i]));
        assert(post[j] == f(mid[j]));
        let i0 = if i < k { i } else { i + 1 };
        let j0 = if j < k { j } else { j + 1 };
        assert(mid[i] == ms[i0]);
        assert(mid[j] == ms[j0]);
    }
    assert forall|i: int, j: int|
        0 <= i < post.len() && 0 <= j < post.len() && i != j implies (#[trigger] post[i]).card_id
        != (#[trigger] post[j]).card_id by {
        assert(post[i] == f(mid[i]));
        assert(post[j] == f(mid[j]));
        let i0 = if i < k { i } else { i + 1 };
        let j0 = if j < k { j } else { j + 1 };
        assert(mid[i] == ms[i0]);
        assert(mid[j] == ms[j0]);
    }
    assert forall|i: int| 0 <= i < post.len() implies (#[trigger] post[i]).card_id != ms[k].card_id
        by {
        assert(post[i] == f(mid[i]));
        let i0 = if i < k { i } else { i + 1 };
        assert(mid[i] == ms[i0]);
    }
}

/// The first index holding exactly the membership row `target`.
fn find_membership(ms: &Vec<Membership>, target: Membership) -> (r: Option<usize>)
    ensures
        match r {
            Some(k) => k < ms@.len() && ms@[k as int] == target,
            None => !ms@.contains(target),
        },
{
    let mut i: usize = 0;
    while i < ms.len()
        invariant
            i <= ms@.len(),
            forall|j: int| 0 <= j < i ==> ms@[j] != target,
        decreases ms@.len() - i,
    {
        if ms[i] == target {
            return Some(i);
        }
        i += 1;
    }
    proof {
        if ms@.contains(target) {
            let j = choose|j: int| 0 <= j < ms@.len() && ms@[j] == target;
            assert(ms@[j] != target);
        }
    }
    None
}

/// The first index of a membership row binding `card_id` within `column_id`.
fn find_card_in_column(ms: &Vec<Membership>, column_id: i64, card_id: i64) -> (r: Option<usize>)
    ensures
        match r {
            Some(k) => k < ms@.len() && ms@[k as int].column_id == column_id && ms@[
                k as int
            ].card_id == card_id,
            None => forall|j: int|
                0 <= j < ms@.len() ==> !((#[trigger] ms@[j]).column_id == column_id && ms@[
                    j
                ].card_id == card_id),
        },
{
    let mut i: usize = 0;
    while i < ms.len()
        invariant
            i <= ms@.len(),
            forall|j: int|
                0 <= j < i ==> !((#[trigger] ms@[j]).column_id == column_id && ms@[j].card_id
                    == card_id),
        decreases ms@.len() - i,
    {
        let m = ms[i];
        if m.column_id == column_id && m.card_id == card_id {
            return Some(i);
        }
        i += 1;
    }
    None
}

/// The first index of a card row carrying `id`.
fn find_card(cards: &Vec<Card>, id: i64) -> (r: Option<usize>)
    ensures
        match r {
            Some(k) => k < cards@.len() && cards@[k as int].id == id,
            None => forall|j: int| 0 <= j < cards@.len() ==> (#[trigger] cards@[j]).id != id,
        },
{
    let mut i: usize = 0;
    while i < cards.len()
        invariant
            i <= cards@.len(),
            forall|j: int| 0 <= j < i ==> (#[trigger] cards@[j]).id != id,
        decreases cards@.len() - i,
    {
        if cards[i].id == id {
            return Some(i);
        }
        i += 1;
    }
    None
}

impl Store {
    /// Membership phase of an insertion: make room at `position` in
    /// `column_id`, then add the row binding `card_id` there.
    fn insert_card_position(&mut self, column_id: i64, card_id: i64, position: i64)
        requires
            position >= 0,
            forall|i: int|
                0 <= i < old(self).memberships@.len() && (#[trigger] old(
                    self,
                ).memberships@[i]).column_id == column_id && old(self).memberships@[i].position
                    >= position ==> old(self).memberships@[i].position + 1 <= i64::MAX,
        ensures
            final(self).memberships@ == insert_phase(
                old(self).memberships@,
                column_id,
                position,
                card_id,
            ),
            final(self).cards@ == old(self).cards@,
            final(self).columns@ == old(self).columns@,
    {
        self.update_card_positions(column_id, position, 1);
        self.memberships.push(Membership { column_id, card_id, position });
    }

    /// Membership phase of a removal: delete the row binding `card_id` at
    /// `position` in `column_id`, then close the gap it leaves.
    fn delete_card_position(&mut self, column_id: i64, card_id: i64, position: i64)
        requires
            position >= 0,
            old(self).memberships@.contains(Membership { column_id, card_id, position }),
        ensures
            exists|k: int|
                0 <= k < old(self).memberships@.len() && old(self).memberships@[k] == (Membership {
                    column_id,
                    card_id,
                    position,
                }) && final(self).memberships@ == remove_phase(old(self).memberships@, k),
            final(self).cards@ == old(self).cards@,
            final(self).columns@ == old(self).columns@,
    {
        let target = Membership { column_id, card_id, position };
        let idx = match find_membership(&self.memberships, target) {
            Some(idx) => idx,
            None => {
                proof {
                    assert(false);
                }
                0
            },
        };
        self.memberships.remove(idx);
        self.update_card_positions(column_id, position, -1);
    }
}

/// The slot where `id` belongs in a column list sorted by ascending id:
/// every earlier row has a smaller id; the flag says whether the id is
/// already present at that slot.
fn find_column_slot(columns: &Vec<ColumnRow>, id: i64) -> (r: (usize, bool))
    ensures
        r.0 <= columns@.len(),
        forall|j: int| 0 <= j < r.0 ==> (#[trigger] columns@[j]).id < id,
        r.1 ==> r.0 < columns@.len() && columns@[r.0 as int].id == id,
        !r.1 ==> r.0 == columns@.len() || columns@[r.0 as int].id > id,
{
    let mut k: usize = 0;
    while k < columns.len()
        invariant
            k <= columns@.len(),
            forall|j: int| 0 <= j < k ==> (#[trigger] columns@[j]).id < id,
        decreases columns@.len() - k,
    {
        let cid = columns[k].id;
        if cid == id {
            return (k, true);
        }
        if cid > id {
            return (k, false);
        }
        k += 1;
    }
    (k, false)
}

impl Store {
    /// Seed a new, empty column.  Column rows are kept in ascending id
    /// order.  Fails with `DuplicateItem`, changing nothing, when the id
    /// is already taken.
    pub fn add_column(&mut self, id: i64, title: &str) -> (r: Result<(), StorageError>)
        requires
            old(self).wf(),
        ensures
            final(self).wf(),
            r is Ok <==> !old(self).has_column(id),
            r is Err ==> *final(self) == *old(self) && r == Err::<(), StorageError>(
                StorageError::DuplicateItem,
            ),
            r is Ok ==> final(self).cards@ == old(self).cards@ && final(self).memberships@ == old(
                self,
            ).memberships@ && exists|k: int, row: ColumnRow|
                0 <= k <= old(self).columns@.len() && row.id == id && row.title@ == title@
                    && final(self).columns@ == #[trigger] old(self).columns@.insert(k, row),
    {
        let (k, found) = find_column_slot(&self.columns, id);
        if found {
            return Err(StorageError::DuplicateItem);
        }
        proof {
            let pre = *old(self);
            assert forall|j: int| 0 <= j < pre.columns@.len() implies (#[trigger] pre.columns@[j]).id
                != id by {
                if j >= k as int {
                    assert(pre.columns@[k as int].id > id || k as int == pre.columns@.len());
                }
            }
            assert(!pre.has_column(id));
        }
        let row = ColumnRow { id, title: title.to_owned() };
        self.columns.insert(k, row);
        proof {
            let pre = *old(self);
            let post = *self;
            let kk = k as int;
            assert forall|a: int, b: int| 0 <= a < b < post.columns@.len() implies (
            #[trigger] post.columns@[a]).id < (#[trigger] post.columns@[b]).id by {
                if a < kk && b < kk {
                    assert(post.columns@[a] == pre.columns@[a]);
                    assert(post.columns@[b] == pre.columns@[b]);
                } else if a < kk && b == kk {
                    assert(post.columns@[a] == pre.columns@[a]);
                } else if a < kk && b > kk {
                    assert(post.columns@[a] == pre.columns@[a]);
                    assert(post.columns@[b] == pre.columns@[b - 1]);
                    assert(pre.columns@[kk].id > id || kk == pre.columns@.len());
                    if kk < b - 1 {
                        assert(pre.columns@[kk].id <= pre.columns@[b - 1].id);
                    }
                } else if a == kk && b > kk {
                    assert(post.columns@[b] == pre.columns@[b - 1]);
                    assert(pre.columns@[kk].id > id);
                    if kk < b - 1 {
                        assert(pre.columns@[kk].id <= pre.columns@[b - 1].id);
                    }
                } else {
                    assert(post.columns@[a] == pre.columns@[a - 1]);
                    assert(post.columns@[b] == pre.columns@[b - 1]);
                }
            }
            assert forall|i: int| 0 <= i < post.memberships@.len() implies post.has_column(
                (#[trigger] post.memberships@[i]).column_id,
            ) by {
                assert(pre.has_column(pre.memberships@[i].column_id));
                let j = choose|j: int|
                    0 <= j < pre.columns@.len() && pre.columns@[j].id
                        == pre.memberships@[i].column_id;
                let j2 = if j < kk {
                    j
                } else {
                    j + 1
                };
                assert(post.columns@[j2] == pre.columns@[j]);
                assert(post.columns@[j2].id == post.memberships@[i].column_id);
            }
            assert(post.columns@ == pre.columns@.insert(kk, row));
        }
        Ok(())
    }
}

/// What a successful insertion does to the store: the card row is
/// appended, and the target column makes room at the requested slot.
pub open spec fn insert_transition(pre: Store, post: Store, card: Card, pos: CardPos) -> bool {
    &&& post.columns@ == pre.columns@
    &&& post.cards@ == pre.cards@.push(card)
    &&& post.memberships@ == insert_phase(pre.memberships@, pos.column_id, pos.position, card.id)
}

/// What a successful deletion does to the store: the membership row of
/// the card within `column_id` goes away, its later siblings close the
/// gap, and the card's content row goes away with it.
pub open spec fn delete_transition(pre: Store, post: Store, card_id: i64, column_id: i64) -> bool {
    exists|k: int, j: int|
        {
            &&& 0 <= k < pre.memberships@.len()
            &&& (#[trigger] pre.memberships@[k]).column_id == column_id
            &&& pre.memberships@[k].card_id == card_id
            &&& post.memberships@ == remove_phase(pre.memberships@, k)
            &&& 0 <= j < pre.cards@.len()
            &&& (#[trigger] pre.cards@[j]).id == card_id
            &&& post.cards@ == pre.cards@.remove(j)
            &&& post.columns@ == pre.columns@
        }
}

/// What a successful move does to the store: the membership row at the
/// source slot is removed (its column closing the gap), then re-inserted
/// at the destination slot (its column making room).  Card content is
/// untouched.
pub open spec fn move_transition(pre: Store, post: Store, card_id: i64, from: CardPos, to: CardPos) -> bool {
    exists|k: int|
        {
            &&& 0 <= k < pre.memberships@.len()
            &&& (#[trigger] pre.memberships@[k]) == (Membership {
                column_id: from.column_id,
                card_id,
                position: from.position,
            })
            &&& post.memberships@ == insert_phase(
                remove_phase(pre.memberships@, k),
                to.column_id,
                to.position,
                card_id,
            )
            &&& post.cards@ == pre.cards@
            &&& post.columns@ == pre.columns@
        }
}

impl Store {
    /// Insert a new card at the given slot, inside one atomic step: every
    /// sibling at or after the slot moves up one position, and the card's
    /// content row is persisted.  Fails with `DuplicateItem`, changing
    /// nothing, when the card id is already present.
    pub fn insert_card(&mut self, card: Card, pos: CardPos) -> (r: Result<(), StorageError>)
        requires
            old(self).wf(),
            old(self).has_column(pos.column_id),
            0 <= pos.position <= old(self).col_size(pos.column_id),
            old(self).memberships@.len() < i64::MAX,
        ensures
            final(self).wf(),
            r is Ok <==> !old(self).has_card(card.id),
            r is Err ==> *final(self) == *old(self) && r == Err::<(), StorageError>(
                StorageError::DuplicateItem,
            ),
            r is Ok ==> insert_transition(*old(self), *final(self), card, pos),
    {
        match find_card(&self.cards, card.id) {
            Some(_) => {
                return Err(StorageError::DuplicateItem);
            },
            None => {},
        }
        let card_id = card.id;
        self.cards.push(card);
        proof {
            let ms0 = old(self).memberships@;
            assert forall|i: int|
                0 <= i < ms0.len() && (#[trigger] ms0[i]).column_id == pos.column_id && ms0[i].position
                    >= pos.position implies ms0[i].position + 1 <= i64::MAX by {
                lemma_count_in_bounds(ms0, pos.column_id);
            }
        }
        self.insert_card_position(pos.column_id, card_id, pos.position);
        proof {
            let pre = *old(self);
            let post = *self;
            let ms0 = pre.memberships@;
            let ms1 = post.memberships@;
            assert forall|i: int| 0 <= i < ms0.len() implies (#[trigger] ms0[i]).card_id != card_id by {
                if ms0[i].card_id == card_id {
                    assert(pre.has_card(card_id));
                }
            }
            lemma_insert_phase_wf(ms0, pos.column_id, pos.position, card_id);
            let f = |m: Membership| pos_shift(m, pos.column_id, pos.position, 1);
            assert forall|i: int| 0 <= i < ms1.len() implies post.has_card(
                (#[trigger] ms1[i]).card_id,
            ) by {
                if i < ms0.len() {
                    assert(ms1[i] == f(ms0[i]));
                    assert(pre.has_card(ms0[i].card_id));
                    let j = choose|j: int|
                        0 <= j < pre.cards@.len() && pre.cards@[j].id == ms0[i].card_id;
                    assert(post.cards@[j].id == ms1[i].card_id);
                } else {
                    assert(ms1[i].card_id == card_id);
                    assert(post.cards@[pre.cards@.len() as int].id == card_id);
                }
            }
            assert forall|i: int| 0 <= i < ms1.len() implies post.has_column(
                (#[trigger] ms1[i]).column_id,
            ) by {
                if i < ms0.len() {
                    assert(ms1[i] == f(ms0[i]));
                    assert(pre.has_column(ms0[i].column_id));
                    let j = choose|j: int|
                        0 <= j < pre.columns@.len() && pre.columns@[j].id == ms0[i].column_id;
                    assert(post.columns@[j].id == ms1[i].column_id);
                } else {
                    assert(ms1[i].column_id == pos.column_id);
                    let j = choose|j: int|
                        0 <= j < pre.columns@.len() && pre.columns@[j].id == pos.column_id;
                    assert(post.columns@[j].id == ms1[i].column_id);
                }
            }
            assert forall|i: int| 0 <= i < post.cards@.len() implies #[trigger] Store::ms_has_card(
                post.memberships@,
                post.cards@[i].id,
            ) by {
                if i < pre.cards@.len() {
                    assert(Store::ms_has_card(pre.memberships@, pre.cards@[i].id));
                    let j = choose|j: int|
                        0 <= j < pre.memberships@.len() && (#[trigger] pre.memberships@[j]).card_id
                            == pre.cards@[i].id;
                    assert(ms1[j] == f(ms0[j]));
                    assert(0 <= j < ms1.len() && (ms1[j]).card_id == post.cards@[i].id);
                } else {
                    assert(0 <= ms0.len() < ms1.len() && (ms1[ms0.len() as int]).card_id
                        == post.cards@[i].id);
                }
            }
        }
        Ok(())
    }

    /// Delete a card from the given column, inside one atomic step: the
    /// card's membership row and content row go away, and every later
    /// sibling moves down one position.  Fails with `NotFound`, changing
    /// nothing, when the card has no membership within `column_id`.
    pub fn delete_card(&mut self, card: Card, column_id: i64) -> (r: Result<(), StorageError>)
        requires
            old(self).wf(),
        ensures
            final(self).wf(),
            r is Ok <==> exists|i: int|
                0 <= i < old(self).memberships@.len() && (#[trigger] old(
                    self,
                ).memberships@[i]).column_id == column_id && old(self).memberships@[i].card_id
                    == card.id,
            r is Err ==> *final(self) == *old(self) && r == Err::<(), StorageError>(
                StorageError::NotFound,
            ),
            r is Ok ==> delete_transition(*old(self), *final(self), card.id, column_id),
    {
        let k = match find_card_in_column(&self.memberships, column_id, card.id) {
            Some(k) => k,
            None => {
                return Err(StorageError::NotFound);
            },
        };
        let position = self.memberships[k].position;
        proof {
            let ms0 = old(self).memberships@;
            assert(ms0[k as int] == (Membership { column_id, card_id: card.id, position }));
            assert(ms0.contains(Membership { column_id, card_id: card.id, position }));
        }
        self.delete_card_position(column_id, card.id, position);
        let j = match find_card(&self.cards, card.id) {
            Some(j) => j,
            None => {
                proof {
                    assert(old(self).has_card(card.id));
                    assert(false);
                }
                0
            },
        };
        self.cards.remove(j);
        proof {
            let pre = *old(self);
            let post = *self;
            let ms0 = pre.memberships@;
            let ms1 = post.memberships@;
            let target = Membership { column_id, card_id: card.id, position };
            let k0 = choose|k0: int|
                0 <= k0 < ms0.len() && ms0[k0] == target && ms1 == remove_phase(ms0, k0);
            assert(ms0[k0].card_id == ms0[k as int].card_id);
            assert(k0 == k as int);
            lemma_remove_phase_wf(ms0, k0);
            let f = |m: Membership| pos_shift(m, column_id, position, -1);
            let mid = ms0.remove(k0);
            assert(ms1 == mid.map_values(f));
            assert forall|i: int| 0 <= i < ms1.len() implies (#[trigger] ms1[i]).card_id
                != card.id by {
                assert(ms1[i] == remove_phase(ms0, k0)[i]);
            }
            assert forall|i: int| 0 <= i < ms1.len() implies post.has_card(
                (#[trigger] ms1[i]).card_id,
            ) by {
                assert(ms1[i] == f(mid[i]));
                let i0 = if i < k0 {
                    i
                } else {
                    i + 1
                };
                assert(mid[i] == ms0[i0]);
                assert(pre.has_card(ms0[i0].card_id));
                let j2 = choose|j2: int|
                    0 <= j2 < pre.cards@.len() && pre.cards@[j2].id == ms0[i0].card_id;
                assert(j2 != j as int);
                let j3 = if j2 < j as int {
                    j2
                } else {
                    j2 - 1
                };
                assert(post.cards@[j3].id == ms1[i].card_id);
            }
            assert forall|i: int| 0 <= i < ms1.len() implies post.has_column(
                (#[trigger] ms1[i]).column_id,
            ) by {
                assert(ms1[i] == f(mid[i]));
                let i0 = if i < k0 {
                    i
                } else {
                    i + 1
                };
                assert(mid[i] == ms0[i0]);
                assert(pre.has_column(ms0[i0].column_id));
                let j2 = choose|j2: int|
                    0 <= j2 < pre.columns@.len() && pre.columns@[j2].id == ms0[i0].column_id;
                assert(post.columns@[j2].id == ms1[i].column_id);
            }
            assert forall|i: int, i2: int|
                0 <= i < post.cards@.len() && 0 <= i2 < post.cards@.len() && i != i2 implies (
            #[trigger] post.cards@[i]).id != (#[trigger] post.cards@[i2]).id by {
                let a = if i < j as int {
                    i
                } else {
                    i + 1
                };
                let b = if i2 < j as int {
                    i2
                } else {
                    i2 + 1
                };
                assert(post.cards@[i] == pre.cards@[a]);
                assert(post.cards@[i2] == pre.cards@[b]);
            }
            assert forall|i: int| 0 <= i < post.cards@.len() implies #[trigger] Store::ms_has_card(
                post.memberships@,
                post.cards@[i].id,
            ) by {
                let i0 = if i < j as int {
                    i
                } else {
                    i + 1
                };
                assert(post.cards@[i] == pre.cards@[i0]);
                assert(pre.cards@[i0].id != pre.cards@[j as int].id);
                assert(Store::ms_has_card(pre.memberships@, pre.cards@[i0].id));
                let j2 = choose|j2: int|
                    0 <= j2 < pre.memberships@.len() && (#[trigger] pre.memberships@[j2]).card_id
                        == pre.cards@[i0].id;
                assert(j2 != k0);
                let j3 = if j2 < k0 {
                    j2
                } else {
                    j2 - 1
                };
                assert(mid[j3] == ms0[j2]);
                assert(ms1[j3] == f(mid[j3]));
                assert(0 <= j3 < ms1.len() && (ms1[j3]).card_id == post.cards@[i].id);
            }
            let jj = j as int;
            assert(delete_transition(pre, post, card.id, column_id)) by {
                assert(0 <= k0 < ms0.len() && (#[trigger] ms0[k0]).column_id == column_id
                    && ms0[k0].card_id == card.id && ms1 == remove_phase(ms0, k0) && 0 <= jj
                    < pre.cards@.len() && (#[trigger] pre.cards@[jj]).id == card.id
                    && post.cards@ == pre.cards@.remove(jj) && post.columns@ == pre.columns@);
            }
        }
        Ok(())
    }

    /// Move a card from one slot to another, possibly across columns,
    /// inside one atomic step: the source column closes its gap, then the
    /// destination column makes room.  Fails with `NotFound`, changing
    /// nothing, when the source slot does not hold this card.
    pub fn move_card(&mut self, card: Card, from: CardPos, to: CardPos) -> (r: Result<
        (),
        StorageError,
    >)
        requires
            old(self).wf(),
            old(self).has_membership(
                Membership {
                    column_id: from.column_id,
                    card_id: card.id,
                    position: from.position,
                },
            ) ==> (old(self).has_column(to.column_id) && 0 <= to.position && to.position <= old(
                self,
            ).col_size(to.column_id) - (if from.column_id == to.column_id {
                1int
            } else {
                0int
            })),
        ensures
            final(self).wf(),
            r is Ok <==> old(self).has_membership(
                Membership {
                    column_id: from.column_id,
                    card_id: card.id,
                    position: from.position,
                },
            ),
            r is Err ==> *final(self) == *old(self) && r == Err::<(), StorageError>(
                StorageError::NotFound,
            ),
            r is Ok ==> move_transition(*old(self), *final(self), card.id, from, to),
    {
        let target = Membership {
            column_id: from.column_id,
            card_id: card.id,
            position: from.position,
        };
        let k = match find_membership(&self.memberships, target) {
            Some(k) => k,
            None => {
                return Err(StorageError::NotFound);
            },
        };
        proof {
            assert(old(self).memberships@[k as int] == target);
            assert(old(self).memberships@.contains(target));
            assert(0 <= old(self).memberships@[k as int].position < count_in(
                old(self).memberships@,
                old(self).memberships@[k as int].column_id,
            ));
            assert(from.position >= 0);
        }
        self.delete_card_position(from.column_id, card.id, from.position);
        proof {
            let ms0 = old(self).memberships@;
            let k0 = choose|k0: int|
                0 <= k0 < ms0.len() && ms0[k0] == target && self.memberships@ == remove_phase(
                    ms0,
                    k0,
                );
            lemma_remove_phase_wf(ms0, k0);
            let mid = self.memberships@;
            assert forall|c: i64|
                count_in(mid, c) == count_in(ms0, c) - (if c == from.column_id {
                    1int
                } else {
                    0int
                }) by {
                lemma_count_in_remove(ms0, k0, c);
                lemma_count_in_map_values(
                    ms0.remove(k0),
                    |m: Membership| pos_shift(m, ms0[k0].column_id, ms0[k0].position, -1),
                    c,
                );
            }
            assert forall|i: int|
                0 <= i < mid.len() && (#[trigger] mid[i]).column_id == to.column_id
                    && mid[i].position >= to.position implies mid[i].position + 1
                <= i64::MAX by {
                lemma_count_in_bounds(mid, to.column_id);
            }
        }
        self.insert_card_position(to.column_id, card.id, to.position);
        proof {
            let pre = *old(self);
            let post = *self;
            let ms0 = pre.memberships@;
            let ms1 = post.memberships@;
            let k0 = choose|k0: int|
                0 <= k0 < ms0.len() && ms0[k0] == target && ms1 == insert_phase(
                    remove_phase(ms0, k0),
                    to.column_id,
                    to.position,
                    card.id,
                );
            let mid = remove_phase(ms0, k0);
            lemma_remove_phase_wf(ms0, k0);
            assert forall|c: i64|
                count_in(mid, c) == count_in(ms0, c) - (if c == from.column_id {
                    1int
                } else {
                    0int
                }) by {
                lemma_count_in_remove(ms0, k0, c);
                lemma_count_in_map_values(
                    ms0.remove(k0),
                    |m: Membership| pos_shift(m, ms0[k0].column_id, ms0[k0].position, -1),
                    c,
                );
            }
            lemma_insert_phase_wf(mid, to.column_id, to.position, card.id);
            let g = |m: Membership| pos_shift(m, to.column_id, to.position, 1);
            let f = |m: Membership| pos_shift(m, from.column_id, from.position, -1);
            assert forall|i: int| 0 <= i < ms1.len() implies post.has_card(
                (#[trigger] ms1[i]).card_id,
            ) by {
                if i < mid.len() {
                    assert(ms1[i] == g(mid[i]));
                    assert(mid[i] == f(ms0.remove(k0)[i]));
                    let i0 = if i < k0 {
                        i
                    } else {
                        i + 1
                    };
                    assert(ms0.remove(k0)[i] == ms0[i0]);
                    assert(pre.has_card(ms0[i0].card_id));
                    let j = choose|j: int|
                        0 <= j < pre.cards@.len() && pre.cards@[j].id == ms0[i0].card_id;
                    assert(post.cards@[j].id == ms1[i].card_id);
                } else {
                    assert(ms1[i].card_id == card.id);
                    assert(ms0[k0].card_id == card.id);
                    assert(pre.has_card(card.id));
                    let j = choose|j: int| 0 <= j < pre.cards@.len() && pre.cards@[j].id == card.id;
                    assert(post.cards@[j].id == ms1[i].card_id);
                }
            }
            assert forall|i: int| 0 <= i < ms1.len() implies post.has_column(
                (#[trigger] ms1[i]).column_id,
            ) by {
                if i < mid.len() {
                    assert(ms1[i] == g(mid[i]));
                    assert(mid[i] == f(ms0.remove(k0)[i]));
                    let i0 = if i < k0 {
                        i
                    } else {
                        i + 1
                    };
                    assert(ms0.remove(k0)[i] == ms0[i0]);
                    assert(pre.has_column(ms0[i0].column_id));
                    let j = choose|j: int|
                        0 <= j < pre.columns@.len() && pre.columns@[j].id == ms0[i0].column_id;
                    assert(post.columns@[j].id == ms1[i].column_id);
                } else {
                    assert(ms1[i].column_id == to.column_id);
                    assert(pre.has_column(to.column_id));
                    let j = choose|j: int|
                        0 <= j < pre.columns@.len() && pre.columns@[j].id == to.column_id;
                    assert(post.columns@[j].id == ms1[i].column_id);
                }
            }
            assert forall|i: int| 0 <= i < post.cards@.len() implies #[trigger] Store::ms_has_card(
                post.memberships@,
                post.cards@[i].id,
            ) by {
                if pre.cards@[i].id == card.id {
                    assert((ms1[mid.len() as int]).card_id == card.id);
                    assert(0 <= mid.len() < ms1.len() && (ms1[mid.len() as int]).card_id
                        == post.cards@[i].id);
                } else {
                    assert(Store::ms_has_card(pre.memberships@, pre.cards@[i].id));
                    let j2 = choose|j2: int|
                        0 <= j2 < pre.memberships@.len() && (#[trigger] pre.memberships@[j2]).card_id
                            == pre.cards@[i].id;
                    assert(ms0[k0].card_id == card.id);
                    assert(j2 != k0);
                    let j3 = if j2 < k0 {
                        j2
                    } else {
                        j2 - 1
                    };
                    assert(ms0.remove(k0)[j3] == ms0[j2]);
                    assert(mid[j3] == f(ms0.remove(k0)[j3]));
                    assert(ms1[j3] == g(mid[j3]));
                    assert(0 <= j3 < ms1.len() && (ms1[j3]).card_id == post.cards@[i].id);
                }
            }
            assert(move_transition(pre, post, card.id, from, to)) by {
                assert(0 <= k0 < ms0.len() && ((#[trigger] ms0[k0]) == target) && ms1
                    == insert_phase(remove_phase(ms0, k0), to.column_id, to.position, card.id)
                    && post.cards@ == pre.cards@ && post.columns@ == pre.columns@);
            }
        }
        Ok(())
    }
}

impl Store {
    /// Some membership row sits in column `col` at position `p`.
    pub open spec fn has_member_at_int(self, col: i64, p: int) -> bool {
        exists|i: int|
            0 <= i < self.memberships@.len() && (#[trigger] self.memberships@[i]).column_id == col
                && self.memberships@[i].position == p
    }

    /// What the snapshot reader accepts: every membership row names an
    /// existing column and card, and within each column the positions
    /// cover `{0, ..., n-1}` for its member count `n`.  A store whose
    /// membership rows violate any of this is reported as inconsistent
    /// rather than silently repaired.
    pub open spec fn consistent(self) -> bool {
        &&& forall|i: int|
            0 <= i < self.memberships@.len() ==> self.has_column(
                (#[trigger] self.memberships@[i]).column_id,
            )
        &&& forall|i: int|
            0 <= i < self.memberships@.len() ==> self.has_card(
                (#[trigger] self.memberships@[i]).card_id,
            )
        &&& forall|i: int|
            0 <= i < self.columns@.len() ==> count_in(
                self.memberships@,
                (#[trigger] self.columns@[i]).id,
            ) <= i64::MAX
        &&& forall|i: int, p: int|
            0 <= i < self.columns@.len() && 0 <= p < count_in(
                self.memberships@,
                self.columns@[i].id,
            ) ==> #[trigger] self.has_member_at_int(self.columns@[i].id, p)
    }
}

/// The snapshot card at position `p` of column `col` is faithful: a
/// membership row places exactly this card's id there, and the card's
/// content equals a stored card row.
pub open spec fn card_backed(s: Store, col: i64, p: int, c: Card) -> bool {
    &&& exists|k: int|
        0 <= k < s.memberships@.len() && (#[trigger] s.memberships@[k]).column_id == col
            && s.memberships@[k].position == p && s.memberships@[k].card_id == c.id
    &&& exists|j: int| 0 <= j < s.cards@.len() && (#[trigger] s.cards@[j]) == c
}

/// The snapshot column `c` is faithful to column row `row`: same identity
/// and title, one card per membership of the column, each card backed by
/// the store at its position.
pub open spec fn column_matches(s: Store, row: ColumnRow, c: Column) -> bool {
    &&& c.id == row.id
    &&& c.title@ == row.title@
    &&& c.cards@.len() == count_in(s.memberships@, row.id)
    &&& forall|q: int| 0 <= q < c.cards@.len() ==> card_backed(s, row.id, q, #[trigger] c.cards@[q])
}

/// The snapshot `b` is faithful to the store: one entry per column row,
/// in the store's column order, each matching its row.
pub open spec fn board_matches(s: Store, b: Seq<Column>) -> bool {
    &&& b.len() == s.columns@.len()
    &&& forall|i: int| 0 <= i < b.len() ==> column_matches(s, s.columns@[i], #[trigger] b[i])
}

/// Whether some column row carries `id`.
fn contains_column(columns: &Vec<ColumnRow>, id: i64) -> (r: bool)
    ensures
        r == exists|i: int| 0 <= i < columns@.len() && columns@[i].id == id,
{
    let mut i: usize = 0;
    while i < columns.len()
        invariant
            i <= columns@.len(),
            forall|j: int| 0 <= j < i ==> (#[trigger] columns@[j]).id != id,
        decreases columns@.len() - i,
    {
        if columns[i].id == id {
            return true;
        }
        i += 1;
    }
    proof {
        if exists|j: int| 0 <= j < columns@.len() && columns@[j].id == id {
            let j = choose|j: int| 0 <= j < columns@.len() && columns@[j].id == id;
            assert(columns@[j].id != id);
        }
    }
    false
}

/// The number of membership rows that belong to column `col`.
fn count_members(ms: &Vec<Membership>, col: i64) -> (r: usize)
    ensures
        r as int == count_in(ms@, col),
{
    let mut cnt: usize = 0;
    let mut i: usize = 0;
    while i < ms.len()
        invariant
            i <= ms@.len(),
            cnt <= i,
            cnt as int == count_in(ms@.take(i as int), col),
        decreases ms@.len() - i,
    {
        proof {
            assert(ms@.take(i + 1).drop_last() =~= ms@.take(i as int));
            assert(ms@.take(i + 1).last() == ms@[i as int]);
        }
        if ms[i].column_id == col {
            cnt += 1;
        }
        i += 1;
    }
    proof {
        assert(ms@.take(ms@.len() as int) =~= ms@);
    }
    cnt
}

/// The first membership row of column `col` at position `p`.
fn find_member_at(ms: &Vec<Membership>, col: i64, p: i64) -> (r: Option<usize>)
    ensures
        match r {
            Some(k) => k < ms@.len() && ms@[k as int].column_id == col && ms@[k as int].position
                == p,
            None => forall|j: int|
                0 <= j < ms@.len() ==> !((#[trigger] ms@[j]).column_id == col && ms@[j].position
                    == p),
        },
{
    let mut i: usize = 0;
    while i < ms.len()
        invariant
            i <= ms@.len(),
            forall|j: int|
                0 <= j < i ==> !((#[trigger] ms@[j]).column_id == col && ms@[j].position == p),
        decreases ms@.len() - i,
    {
        let m = ms[i];
        if m.column_id == col && m.position == p {
            return Some(i);
        }
        i += 1;
    }
    None
}

impl Store {
    /// Load the full snapshot: every column in ascending-id store order,
    /// each with its cards in position order.  Succeeds exactly on
    /// consistent stores; a membership row naming a missing column or
    /// card, or a gap or duplicate among a column's positions, is a fatal
    /// `InconsistentState`, never silently skipped.
    pub fn get_columns(&self) -> (r: Result<Vec<Column>, StorageError>)
        ensures
            r is Ok <==> self.consistent(),
            r matches Ok(b) ==> board_matches(*self, b@),
            r is Err ==> r == Err::<Vec<Column>, StorageError>(StorageError::InconsistentState),
    {
        let mut i: usize = 0;
        while i < self.memberships.len()
            invariant
                i <= self.memberships@.len(),
                forall|j: int|
                    0 <= j < i ==> self.has_column((#[trigger] self.memberships@[j]).column_id),
                forall|j: int|
                    0 <= j < i ==> self.has_card((#[trigger] self.memberships@[j]).card_id),
            decreases self.memberships@.len() - i,
        {
            let m = self.memberships[i];
            if !contains_column(&self.columns, m.column_id) {
                proof {
                    assert(!self.consistent()) by {
                        if self.consistent() {
                            assert(self.has_column(self.memberships@[i as int].column_id));
                        }
                    }
                }
                return Err(StorageError::InconsistentState);
            }
            match find_card(&self.cards, m.card_id) {
                Some(_) => {},
                None => {
                    proof {
                        assert(!self.consistent()) by {
                            if self.consistent() {
                                assert(self.has_card(self.memberships@[i as int].card_id));
                                let j = choose|j: int|
                                    0 <= j < self.cards@.len() && self.cards@[j].id
                                        == self.memberships@[i as int].card_id;
                                assert(self.cards@[j].id != m.card_id);
                            }
                        }
                    }
                    return Err(StorageError::InconsistentState);
                },
            }
            i += 1;
        }
        let mut out: Vec<Column> = Vec::new();
        let mut ci: usize = 0;
        while ci < self.columns.len()
            invariant
                ci <= self.columns@.len(),
                out@.len() == ci,
                forall|j: int|
                    0 <= j < self.memberships@.len() ==> self.has_column(
                        (#[trigger] self.memberships@[j]).column_id,
                    ),
                forall|j: int|
                    0 <= j < self.memberships@.len() ==> self.has_card(
                        (#[trigger] self.memberships@[j]).card_id,
                    ),
                forall|i2: int|
                    0 <= i2 < ci ==> column_matches(*self, self.columns@[i2], #[trigger] out@[i2]),
                forall|i2: int|
                    0 <= i2 < ci ==> count_in(
                        self.memberships@,
                        (#[trigger] self.columns@[i2]).id,
                    ) <= i64::MAX,
            decreases self.columns@.len() - ci,
        {
            let row_id = self.columns[ci].id;
            let mut col = Column::new(row_id, self.columns[ci].title.as_str());
            let cnt = count_members(&self.memberships, row_id);
            if (cnt as u64) > (i64::MAX as u64) {
                proof {
                    assert(!self.consistent()) by {
                        if self.consistent() {
                            assert(count_in(
                                self.memberships@,
                                (self.columns@[ci as int]).id,
                            ) <= i64::MAX);
                        }
                    }
                }
                return Err(StorageError::InconsistentState);
            }
            let cnt64: i64 = cnt as i64;
            proof {
                assert(cnt64 as int == count_in(self.memberships@, row_id));
            }
            let mut p: i64 = 0;
            while p < cnt64
                invariant
                    0 <= p <= cnt64,
                    cnt64 as int == count_in(self.memberships@, row_id),
                    col.id == row_id,
                    row_id == self.columns@[ci as int].id,
                    ci < self.columns@.len(),
                    col.title@ == self.columns@[ci as int].title@,
                    col.cards@.len() == p as int,
                    forall|q: int|
                        0 <= q < p as int ==> card_backed(
                            *self,
                            row_id,
                            q,
                            #[trigger] col.cards@[q],
                        ),
                    forall|j: int|
                        0 <= j < self.memberships@.len() ==> self.has_card(
                            (#[trigger] self.memberships@[j]).card_id,
                        ),
                decreases cnt64 - p,
            {
                match find_member_at(&self.memberships, row_id, p) {
                    Some(k) => {
                        let card_id = self.memberships[k].card_id;
                        match find_card(&self.cards, card_id) {
                            Some(j) => {
                                let card = self.cards[j].clone();
                                proof {
                                    assert(card_backed(*self, row_id, p as int, card)) by {
                                        assert(0 <= k < self.memberships@.len() && (
                                        self.memberships@[k as int]).column_id == row_id
                                            && self.memberships@[k as int].position == p as int
                                            && self.memberships@[k as int].card_id == card.id);
                                        assert(0 <= j < self.cards@.len() && (
                                        self.cards@[j as int]) == card);
                                    }
                                }
                                col.add_card(card);
                            },
                            None => {
                                proof {
                                    assert(self.has_card(
                                        self.memberships@[k as int].card_id,
                                    ));
                                    let j2 = choose|j2: int|
                                        0 <= j2 < self.cards@.len() && self.cards@[j2].id
                                            == self.memberships@[k as int].card_id;
                                    assert(self.cards@[j2].id != card_id);
                                    assert(false);
                                }
                                return Err(StorageError::InconsistentState);
                            },
                        }
                    },
                    None => {
                        proof {
                            assert(!self.consistent()) by {
                                if self.consistent() {
                                    assert(self.has_member_at_int(
                                        self.columns@[ci as int].id,
                                        p as int,
                                    ));
                                    let k2 = choose|k2: int|
                                        0 <= k2 < self.memberships@.len() && (
                                        #[trigger] self.memberships@[k2]).column_id == row_id
                                            && self.memberships@[k2].position == p as int;
                                    assert(!(self.memberships@[k2].column_id == row_id
                                        && self.memberships@[k2].position == p));
                                }
                            }
                        }
                        return Err(StorageError::InconsistentState);
                    },
                }
                p += 1;
            }
            out.push(col);
            ci += 1;
        }
        proof {
            assert(board_matches(*self, out@));
            assert forall|i2: int, p2: int|
                0 <= i2 < self.columns@.len() && 0 <= p2 < count_in(
                    self.memberships@,
                    self.columns@[i2].id,
                ) implies #[trigger] self.has_member_at_int(self.columns@[i2].id, p2) by {
                assert(column_matches(*self, self.columns@[i2], out@[i2]));
                assert(card_backed(*self, self.columns@[i2].id, p2, out@[i2].cards@[p2]));
                let k = choose|k: int|
                    0 <= k < self.memberships@.len() && (#[trigger] self.memberships@[k]).column_id
                        == self.columns@[i2].id && self.memberships@[k].position == p2
                        && self.memberships@[k].card_id == out@[i2].cards@[p2].id;
                assert(0 <= k < self.memberships@.len() && self.memberships@[k].column_id
                    == self.columns@[i2].id && self.memberships@[k].position == p2);
            }
            assert(self.consistent());
        }
        Ok(out)
    }

    /// Load the whole board.  Succeeds exactly on consistent stores; a
    /// failure is exactly the reader's `InconsistentState`.
    pub fn load_board(&self) -> (r: Result<Board, StorageError>)
        ensures
            r is Ok <==> self.consistent(),
            r matches Ok(b) ==> board_matches(*self, b.columns@),
            r is Err ==> r == Err::<Board, StorageError>(StorageError::InconsistentState),
    {
        match self.get_columns() {
            Ok(columns) => Ok(Board { columns }),
            Err(e) => Err(e),
        }
    }
}

} // verus!
