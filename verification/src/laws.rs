//! The engine's guarantees, stated and proved as laws over the store.
//!
//! Each law speaks through the same transition relations and spec
//! functions that the operations' own contracts use, so everything here
//! holds of every store the verified operations can produce.

use vstd::prelude::*;
use vstd::set_lib::lemma_int_range;
use vstd::set_lib::lemma_subset_equality;
use vstd::set_lib::set_int_range;

use crate::board::Card;
use crate::board::CardPos;
use crate::store::count_in;
use crate::store::delete_transition;
use crate::store::insert_phase;
use crate::store::insert_transition;
use crate::store::move_transition;
use crate::store::pos_shift;
use crate::store::remove_phase;
use crate::store::Membership;
use crate::store::Store;

verus! {

/// The set of positions occupied within column `col`.
pub open spec fn pos_set(ms: Seq<Membership>, col: i64) -> Set<int> {
    Set::new(
        |p: int|
            exists|i: int|
                0 <= i < ms.len() && (#[trigger] ms[i]).column_id == col && ms[i].position == p,
    )
}

/// The occupied positions of a column are finite, and number exactly the
/// column's member count when no two members share a position.
proof fn lemma_pos_set_card(ms: Seq<Membership>, col: i64)
    requires
        forall|i: int, j: int|
            0 <= i < ms.len() && 0 <= j < ms.len() && i != j && (#[trigger] ms[i]).column_id == (
            #[trigger] ms[j]).column_id ==> ms[i].position != ms[j].position,
    ensures
        pos_set(ms, col).finite(),
        pos_set(ms, col).len() == count_in(ms, col),
    decreases ms.len(),
{
    if ms.len() == 0 {
        assert(pos_set(ms, col) =~= Set::<int>::empty());
    } else {
        let rest = ms.drop_last();
        let m = ms.last();
        assert forall|i: int, j: int|
            0 <= i < rest.len() && 0 <= j < rest.len() && i != j && (#[trigger] rest[i]).column_id
                == (#[trigger] rest[j]).column_id implies rest[i].position != rest[j].position by {
            assert(rest[i] == ms[i]);
            assert(rest[j] == ms[j]);
        }
        lemma_pos_set_card(rest, col);
        if m.column_id == col {
            assert forall|p: int| pos_set(ms, col).contains(p) implies pos_set(
                rest,
                col,
            ).insert(m.position as int).contains(p) by {
                let i = choose|i: int|
                    0 <= i < ms.len() && (#[trigger] ms[i]).column_id == col && ms[i].position
                        == p;
                if i < ms.len() - 1 {
                    assert(rest[i] == ms[i]);
                    assert(pos_set(rest, col).contains(p));
                }
            }
            assert forall|p: int| pos_set(rest, col).insert(m.position as int).contains(
                p,
            ) implies pos_set(ms, col).contains(p) by {
                if p == m.position as int {
                    assert(0 <= ms.len() - 1 < ms.len() && ms[ms.len() - 1].column_id == col
                        && ms[ms.len() - 1].position == p);
                } else {
                    let i = choose|i: int|
                        0 <= i < rest.len() && (#[trigger] rest[i]).column_id == col
                            && rest[i].position == p;
                    assert(ms[i] == rest[i]);
                    assert(0 <= i < ms.len() && ms[i].column_id == col && ms[i].position == p);
                }
            }
            assert(pos_set(ms, col) =~= pos_set(rest, col).insert(m.position as int));
            assert(!pos_set(rest, col).contains(m.position as int)) by {
                if pos_set(rest, col).contains(m.position as int) {
                    let i = choose|i: int|
                        0 <= i < rest.len() && (#[trigger] rest[i]).column_id == col
                            && rest[i].position == m.position as int;
                    assert(ms[i] == rest[i]);
                    assert(ms[i].position != ms[ms.len() - 1].position);
                }
            }
        } else {
            assert forall|p: int| pos_set(ms, col).contains(p) implies pos_set(rest, col).contains(
                p,
            ) by {
                let i = choose|i: int|
                    0 <= i < ms.len() && (#[trigger] ms[i]).column_id == col && ms[i].position
                        == p;
                assert(i < ms.len() - 1);
                assert(rest[i] == ms[i]);
                assert(0 <= i < rest.len() && rest[i].column_id == col && rest[i].position == p);
            }
            assert forall|p: int| pos_set(rest, col).contains(p) implies pos_set(ms, col).contains(
                p,
            ) by {
                let i = choose|i: int|
                    0 <= i < rest.len() && (#[trigger] rest[i]).column_id == col
                        && rest[i].position == p;
                assert(ms[i] == rest[i]);
                assert(0 <= i < ms.len() && ms[i].column_id == col && ms[i].position == p);
            }
            assert(pos_set(ms, col) =~= pos_set(rest, col));
        }
    }
}

/// In a well-formed store, the positions occupied within any column are
/// exactly `{0, ..., n-1}`, where `n` is that column's member count: no
/// gap, no duplicate, nothing out of range.
pub proof fn lemma_positions_dense(s: Store, col: i64)
    requires
        s.wf(),
    ensures
        pos_set(s.memberships@, col) =~= set_int_range(0, s.col_size(col)),
{
    let ms = s.memberships@;
    let ps = pos_set(ms, col);
    let n = s.col_size(col);
    crate::store::lemma_count_in_bounds(ms, col);
    lemma_pos_set_card(ms, col);
    lemma_int_range(0, n);
    assert forall|p: int| ps.contains(p) implies set_int_range(0, n).contains(p) by {
        let i = choose|i: int|
            0 <= i < ms.len() && (#[trigger] ms[i]).column_id == col && ms[i].position == p;
        assert(0 <= ms[i].position < count_in(ms, ms[i].column_id));
    }
    assert(ps.subset_of(set_int_range(0, n)));
    lemma_subset_equality(ps, set_int_range(0, n));
}

/// A well-formed store always loads: every store the verified operations
/// produce is one the snapshot reader accepts.
pub proof fn lemma_wf_implies_consistent(s: Store)
    requires
        s.wf(),
    ensures
        s.consistent(),
{
    assert forall|i: int| 0 <= i < s.columns@.len() implies count_in(
        s.memberships@,
        (#[trigger] s.columns@[i]).id,
    ) <= i64::MAX by {
        crate::store::lemma_count_in_bounds(s.memberships@, s.columns@[i].id);
    }
    assert forall|i: int, p: int|
        0 <= i < s.columns@.len() && 0 <= p < count_in(
            s.memberships@,
            s.columns@[i].id,
        ) implies #[trigger] s.has_member_at_int(s.columns@[i].id, p) by {
        let col = s.columns@[i].id;
        lemma_positions_dense(s, col);
        assert(set_int_range(0, s.col_size(col)).contains(p));
        assert(pos_set(s.memberships@, col).contains(p));
        let k = choose|k: int|
            0 <= k < s.memberships@.len() && (#[trigger] s.memberships@[k]).column_id == col
                && s.memberships@[k].position == p;
        assert(0 <= k < s.memberships@.len() && s.memberships@[k].column_id == col
            && s.memberships@[k].position == p);
    }
}

/// After a successful insertion the new card occupies exactly the
/// requested slot and no other; every sibling previously at or after the
/// slot sits one position later, and everything else is untouched.
pub proof fn lemma_insert_places_card(s0: Store, s1: Store, card: Card, pos: CardPos)
    requires
        s0.wf(),
        !s0.has_card(card.id),
        insert_transition(s0, s1, card, pos),
    ensures
        s1.memberships@.contains(
            Membership { column_id: pos.column_id, card_id: card.id, position: pos.position },
        ),
        forall|i: int|
            0 <= i < s1.memberships@.len() && (#[trigger] s1.memberships@[i]).card_id == card.id
                ==> s1.memberships@[i] == (Membership {
                column_id: pos.column_id,
                card_id: card.id,
                position: pos.position,
            }),
        forall|i: int|
            0 <= i < s0.memberships@.len() ==> #[trigger] s1.memberships@[i] == pos_shift(
                s0.memberships@[i],
                pos.column_id,
                pos.position,
                1,
            ),
{
    let ms0 = s0.memberships@;
    let ms1 = s1.memberships@;
    let ins = |m: Membership| pos_shift(m, pos.column_id, pos.position, 1);
    let newrow = Membership {
        column_id: pos.column_id,
        card_id: card.id,
        position: pos.position,
    };
    assert(ms1 == ms0.map_values(ins).push(newrow));
    assert(ms1[ms1.len() - 1] == newrow);
    assert forall|i: int|
        0 <= i < ms1.len() && (#[trigger] ms1[i]).card_id == card.id implies ms1[i] == newrow by {
        if i < ms0.len() {
            assert(ms1[i] == ins(ms0[i]));
            assert(s0.has_card(card.id));
        }
    }
}

/// After a successful deletion the card is gone from storage entirely:
/// no membership row binds it and no card row carries its content.
pub proof fn lemma_delete_removes_card(s0: Store, s1: Store, card_id: i64, column_id: i64)
    requires
        s0.wf(),
        delete_transition(s0, s1, card_id, column_id),
    ensures
        forall|i: int|
            0 <= i < s1.memberships@.len() ==> (#[trigger] s1.memberships@[i]).card_id != card_id,
        !s1.has_card(card_id),
{
    let ms0 = s0.memberships@;
    let (k, j) = choose|k: int, j: int|
        {
            &&& 0 <= k < s0.memberships@.len()
            &&& (#[trigger] s0.memberships@[k]).column_id == column_id
            &&& s0.memberships@[k].card_id == card_id
            &&& s1.memberships@ == remove_phase(s0.memberships@, k)
            &&& 0 <= j < s0.cards@.len()
            &&& (#[trigger] s0.cards@[j]).id == card_id
            &&& s1.cards@ == s0.cards@.remove(j)
            &&& s1.columns@ == s0.columns@
        };
    assert forall|i: int| 0 <= i < s1.memberships@.len() implies (
    #[trigger] s1.memberships@[i]).card_id != card_id by {
        assert(s1.memberships@[i] == remove_phase(ms0, k)[i]);
        let i0 = if i < k {
            i
        } else {
            i + 1
        };
        assert(ms0.remove(k)[i] == ms0[i0]);
    }
    assert(!s1.has_card(card_id)) by {
        if s1.has_card(card_id) {
            let i = choose|i: int| 0 <= i < s1.cards@.len() && s1.cards@[i].id == card_id;
            let i0 = if i < j {
                i
            } else {
                i + 1
            };
            assert(s1.cards@[i] == s0.cards@[i0]);
            assert(s0.cards@[i0].id != s0.cards@[j].id);
        }
    }
}

/// After a successful move the card resides at the destination slot and
/// nowhere else; its content rows are untouched.
pub proof fn lemma_move_places_card(s0: Store, s1: Store, card_id: i64, from: CardPos, to: CardPos)
    requires
        s0.wf(),
        move_transition(s0, s1, card_id, from, to),
    ensures
        s1.memberships@.contains(
            Membership { column_id: to.column_id, card_id, position: to.position },
        ),
        forall|i: int|
            0 <= i < s1.memberships@.len() && (#[trigger] s1.memberships@[i]).card_id == card_id
                ==> s1.memberships@[i] == (Membership {
                column_id: to.column_id,
                card_id,
                position: to.position,
            }),
        s1.cards@ == s0.cards@,
{
    let ms0 = s0.memberships@;
    let ms1 = s1.memberships@;
    let srcrow = Membership { column_id: from.column_id, card_id, position: from.position };
    let dstrow = Membership { column_id: to.column_id, card_id, position: to.position };
    let k = choose|k: int|
        {
            &&& 0 <= k < s0.memberships@.len()
            &&& (#[trigger] s0.memberships@[k]) == srcrow
            &&& s1.memberships@ == insert_phase(
                remove_phase(s0.memberships@, k),
                to.column_id,
                to.position,
                card_id,
            )
            &&& s1.cards@ == s0.cards@
            &&& s1.columns@ == s0.columns@
        };
    let mid = remove_phase(ms0, k);
    let ins = |m: Membership| pos_shift(m, to.column_id, to.position, 1);
    assert(ms1 == mid.map_values(ins).push(dstrow));
    assert(ms1[ms1.len() - 1] == dstrow);
    assert forall|i: int|
        0 <= i < ms1.len() && (#[trigger] ms1[i]).card_id == card_id implies ms1[i] == dstrow by {
        if i < mid.len() {
            assert(ms1[i] == ins(mid[i]));
            let i0 = if i < k {
                i
            } else {
                i + 1
            };
            assert(ms0.remove(k)[i] == ms0[i0]);
            assert(mid[i].card_id == ms0[i0].card_id);
            assert(ms0[i0].card_id != ms0[k].card_id);
        }
    }
}

/// Round-trip neutrality: inserting a fresh card at a slot and then
/// deleting that same card from that column puts every other sibling
/// back at its pre-insert position, and restores the card rows exactly.
pub proof fn lemma_insert_delete_round_trip(
    s0: Store,
    s1: Store,
    s2: Store,
    card: Card,
    pos: CardPos,
)
    requires
        s0.wf(),
        !s0.has_card(card.id),
        insert_transition(s0, s1, card, pos),
        delete_transition(s1, s2, card.id, pos.column_id),
    ensures
        s2.memberships@ == s0.memberships@,
        s2.cards@ == s0.cards@,
        s2.columns@ == s0.columns@,
{
    let ms0 = s0.memberships@;
    let ms1 = s1.memberships@;
    let ins = |m: Membership| pos_shift(m, pos.column_id, pos.position, 1);
    let newrow = Membership {
        column_id: pos.column_id,
        card_id: card.id,
        position: pos.position,
    };
    assert(ms1 == ms0.map_values(ins).push(newrow));
    assert forall|i: int| 0 <= i < ms0.len() implies (#[trigger] ms0[i]).card_id != card.id by {
        if ms0[i].card_id == card.id {
            assert(s0.has_card(card.id));
        }
    }
    let (k, j) = choose|k: int, j: int|
        {
            &&& 0 <= k < s1.memberships@.len()
            &&& (#[trigger] s1.memberships@[k]).column_id == pos.column_id
            &&& s1.memberships@[k].card_id == card.id
            &&& s2.memberships@ == remove_phase(s1.memberships@, k)
            &&& 0 <= j < s1.cards@.len()
            &&& (#[trigger] s1.cards@[j]).id == card.id
            &&& s2.cards@ == s1.cards@.remove(j)
            &&& s2.columns@ == s1.columns@
        };
    assert(k == ms0.len()) by {
        if k < ms0.len() {
            assert(ms1[k] == ins(ms0[k]));
        }
    }
    assert(ms1[k] == newrow);
    assert(ms1.remove(k) =~= ms0.map_values(ins));
    let rm = |m: Membership| pos_shift(m, ms1[k].column_id, ms1[k].position, -1);
    assert(s2.memberships@ == ms1.remove(k).map_values(rm));
    assert forall|i: int| 0 <= i < ms0.len() implies #[trigger] s2.memberships@[i] == ms0[i] by {
        crate::store::lemma_count_in_bounds(ms0, ms0[i].column_id);
        assert(0 <= ms0[i].position < count_in(ms0, ms0[i].column_id));
        assert(ms1.remove(k)[i] == ins(ms0[i]));
        assert(s2.memberships@[i] == rm(ins(ms0[i])));
    }
    assert(s2.memberships@ =~= ms0);
    assert(j == s0.cards@.len()) by {
        if j < s0.cards@.len() {
            assert(s1.cards@[j] == s0.cards@[j]);
            assert(s0.has_card(card.id));
        }
    }
    assert(s2.cards@ =~= s0.cards@);
}

/// A move from a slot back to the same slot is a no-op: the membership
/// rows after the move are exactly the rows before it, and card and
/// column rows are untouched.
pub proof fn lemma_noop_move(s0: Store, s1: Store, card: Card, slot: CardPos)
    requires
        s0.wf(),
        move_transition(s0, s1, card.id, slot, slot),
    ensures
        forall|m: Membership|
            #[trigger] s1.memberships@.contains(m) <==> s0.memberships@.contains(m),
        s1.cards@ == s0.cards@,
        s1.columns@ == s0.columns@,
{
    let ms0 = s0.memberships@;
    let ms1 = s1.memberships@;
    let row = Membership { column_id: slot.column_id, card_id: card.id, position: slot.position };
    let k = choose|k: int|
        {
            &&& 0 <= k < s0.memberships@.len()
            &&& (#[trigger] s0.memberships@[k]) == row
            &&& s1.memberships@ == insert_phase(
                remove_phase(s0.memberships@, k),
                slot.column_id,
                slot.position,
                card.id,
            )
            &&& s1.cards@ == s0.cards@
            &&& s1.columns@ == s0.columns@
        };
    let mid = remove_phase(ms0, k);
    let rm = |m: Membership| pos_shift(m, ms0[k].column_id, ms0[k].position, -1);
    let ins = |m: Membership| pos_shift(m, slot.column_id, slot.position, 1);
    assert(ms1 == mid.map_values(ins).push(row));
    assert forall|i: int| 0 <= i < mid.len() implies #[trigger] ms1[i] == ms0.remove(k)[i] by {
        let i0 = if i < k {
            i
        } else {
            i + 1
        };
        assert(ms0.remove(k)[i] == ms0[i0]);
        crate::store::lemma_count_in_bounds(ms0, ms0[i0].column_id);
        assert(0 <= ms0[i0].position < count_in(ms0, ms0[i0].column_id));
        if ms0[i0].column_id == slot.column_id {
            assert(ms0[i0].position != slot.position);
        }
        assert(mid[i] == rm(ms0.remove(k)[i]));
        assert(ms1[i] == ins(mid[i]));
    }
    assert(ms1 =~= ms0.remove(k).push(ms0[k]));
    assert forall|m: Membership| #[trigger] ms1.contains(m) implies ms0.contains(m) by {
        let i = choose|i: int| 0 <= i < ms1.len() && ms1[i] == m;
        if i == ms1.len() - 1 {
            assert(ms0[k] == m);
        } else {
            let i0 = if i < k {
                i
            } else {
                i + 1
            };
            assert(ms0[i0] == m);
        }
    }
    assert forall|m: Membership| ms0.contains(m) implies #[trigger] ms1.contains(m) by {
        let i = choose|i: int| 0 <= i < ms0.len() && ms0[i] == m;
        if i == k {
            assert(ms1[ms1.len() - 1] == m);
        } else {
            let i2 = if i < k {
                i
            } else {
                i - 1
            };
            assert(ms1[i2] == m);
        }
    }
}

} // verus!
