//! Laws of the note store: properties that relate several operations,
//! proved over the abstract model.

use crate::model::{
    active_seq, create_post, create_result, deactivated, delete_ok, delete_post, get_one,
    ids_sequential, initial_state, lemma_active_seq_len, lemma_count_active_update,
    lemma_count_owner_update, lemma_keep_active_increasing, lemma_keep_active_props,
    lemma_owner_ids_increasing, lemma_owner_seq_len, lemma_owner_seq_props, owner_ids, owner_seq,
    owns, state_inv, update_ok, update_post, updated_note, Identity, NoteView, StateView,
};
use vstd::prelude::*;

verus! {

/// Id monotonicity: in every reachable state the stored ids are exactly
/// 1, 2, 3, ... in order, a successful creation returns the next id, and
/// the id after that creation is one larger; from the initial state the
/// first creation returns 1. So successive successful creations return
/// 1, 2, 3, ... with no gaps or repeats.
pub proof fn lemma_id_monotonicity(
    s: StateView,
    owner: Identity,
    title: Seq<char>,
    ipfs_hash: Seq<char>,
    now: u64,
)
    requires
        state_inv(s),
        s.counter < u64::MAX,
    ensures
        forall|i: int| 0 <= i < s.notes.len() ==> (#[trigger] s.notes[i]).id == i + 1,
        forall|i: int, j: int|
            #![trigger s.notes[i], s.notes[j]]
            0 <= i < s.notes.len() && 0 <= j < s.notes.len() && i != j ==> s.notes[i].id
                != s.notes[j].id,
        create_result(s) == s.notes.len() + 1,
        state_inv(create_post(s, owner, title, ipfs_hash, now)),
        create_post(s, owner, title, ipfs_hash, now).counter == s.counter + 1,
        s.counter + 1 < u64::MAX ==> create_result(create_post(s, owner, title, ipfs_hash, now))
            == create_result(s) + 1,
        state_inv(initial_state()) && create_result(initial_state()) == 1,
{
}

/// Owner isolation: a gated read never hands out a record owned by someone
/// else — whatever it returns belongs to the requester, and a record owned
/// by a different identity yields nothing, whatever its id.
pub proof fn lemma_owner_isolation(s: StateView, id: u64, owner_a: Identity, owner_b: Identity)
    requires
        state_inv(s),
        owner_a != owner_b,
    ensures
        get_one(s, id, owner_b) matches Some(n) ==> n.owner == owner_b,
        owns(s, id, owner_a) ==> get_one(s, id, owner_b) is None,
{
}

/// Soft-delete visibility: after a deletion of an active record succeeds,
/// a gated read of it returns nothing and it is excluded from the owner's
/// listing, while the owner's total count is unchanged and the active
/// count drops by exactly one.
pub proof fn lemma_soft_delete_visibility(s: StateView, id: u64, owner: Identity)
    requires
        state_inv(s),
        delete_ok(s, id, owner),
        s.notes[id - 1].is_active,
    ensures
        state_inv(delete_post(s, id, owner)),
        get_one(delete_post(s, id, owner), id, owner) is None,
        forall|k: int|
            0 <= k < active_seq(delete_post(s, id, owner).notes, owner).len() ==> (
            #[trigger] active_seq(delete_post(s, id, owner).notes, owner)[k]).id != id,
        owner_seq(delete_post(s, id, owner).notes, owner).len() == owner_seq(s.notes, owner).len(),
        active_seq(delete_post(s, id, owner).notes, owner).len() + 1 == active_seq(
            s.notes,
            owner,
        ).len(),
{
    let s2 = delete_post(s, id, owner);
    let j = id - 1int;
    let n2 = deactivated(s.notes[j]);
    assert(s2.notes == s.notes.update(j, n2));
    assert(ids_sequential(s2.notes));
    lemma_owner_seq_len(s.notes, owner);
    lemma_owner_seq_len(s2.notes, owner);
    lemma_count_owner_update(s.notes, j, n2, owner);
    lemma_active_seq_len(s.notes, owner);
    lemma_active_seq_len(s2.notes, owner);
    lemma_count_active_update(s.notes, j, n2, owner);
    lemma_owner_seq_props(s2.notes, owner);
    lemma_keep_active_props(owner_seq(s2.notes, owner));
    assert forall|k: int|
        0 <= k < active_seq(s2.notes, owner).len() implies (#[trigger] active_seq(
        s2.notes,
        owner,
    )[k]).id != id by {
        let e = active_seq(s2.notes, owner)[k];
        assert(e.is_active && owner_seq(s2.notes, owner).contains(e));
        let k2 = choose|k2: int|
            0 <= k2 < owner_seq(s2.notes, owner).len() && owner_seq(s2.notes, owner)[k2] == e;
        assert(s2.notes.contains(e));
        if e.id == id {
            let jj = choose|jj: int| 0 <= jj < s2.notes.len() && s2.notes[jj] == e;
            assert(s2.notes[jj].id == jj + 1);
            assert(jj == j);
            assert(!s2.notes[j].is_active);
        }
    }
}

/// Creation order is kept: the ids in an owner's index strictly increase,
/// and so do the ids of the notes the owner's listing returns.
pub proof fn lemma_creation_order(s: StateView, owner: Identity)
    requires
        state_inv(s),
    ensures
        forall|k1: int, k2: int|
            #![trigger owner_ids(s.notes, owner)[k1], owner_ids(s.notes, owner)[k2]]
            0 <= k1 < k2 < owner_ids(s.notes, owner).len() ==> owner_ids(s.notes, owner)[k1]
                < owner_ids(s.notes, owner)[k2],
        forall|k1: int, k2: int|
            #![trigger active_seq(s.notes, owner)[k1], active_seq(s.notes, owner)[k2]]
            0 <= k1 < k2 < active_seq(s.notes, owner).len() ==> active_seq(s.notes, owner)[k1].id
                < active_seq(s.notes, owner)[k2].id,
{
    lemma_owner_ids_increasing(s.notes, owner);
    let os = owner_seq(s.notes, owner);
    assert forall|i: int, j: int|
        #![trigger os[i], os[j]]
        0 <= i < j < os.len() implies os[i].id < os[j].id by {
        assert(owner_ids(s.notes, owner)[i] == os[i].id);
        assert(owner_ids(s.notes, owner)[j] == os[j].id);
    }
    lemma_keep_active_increasing(os);
}

/// Update preserves identity fields: a successful update keeps the
/// record's id and owner and the rest of the store, refreshes the write
/// time, and leaves the record active.
pub proof fn lemma_update_preserves_identity(
    s: StateView,
    id: u64,
    owner: Identity,
    title: Seq<char>,
    ipfs_hash: Seq<char>,
    now: u64,
)
    requires
        state_inv(s),
        update_ok(s, id, owner),
    ensures
        state_inv(update_post(s, id, owner, title, ipfs_hash, now)),
        update_post(s, id, owner, title, ipfs_hash, now).notes[id - 1] == (NoteView {
            id,
            owner,
            title,
            ipfs_hash,
            timestamp: now,
            is_active: true,
        }),
        update_post(s, id, owner, title, ipfs_hash, now).notes.len() == s.notes.len(),
        forall|k: int|
            0 <= k < s.notes.len() && k != id - 1 ==> update_post(
                s,
                id,
                owner,
                title,
                ipfs_hash,
                now,
            ).notes[k] == s.notes[k],
{
    let s2 = update_post(s, id, owner, title, ipfs_hash, now);
    let j = id - 1int;
    assert(s2.notes == s.notes.update(j, updated_note(s.notes[j], title, ipfs_hash, now)));
    assert(s.notes[j].id == id);
    assert(s2.notes[j] =~= (NoteView { id, owner, title, ipfs_hash, timestamp: now, is_active: true }));
}

} // verus!
