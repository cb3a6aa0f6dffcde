//! The mathematical model of the note store: abstract images of the stored
//! state, the invariant that every operation preserves, and the derived
//! sequences (per-owner creation log, active notes) that the operation
//! contracts are stated over.

use vstd::prelude::*;

verus! {

/// A principal: the authenticated actor that owns notes, requests reads,
/// or administers the fee configuration.
pub type Identity = u64;

/// Abstract image of one stored note record.
#[verifier::ext_equal]
pub ghost struct NoteView {
    pub id: u64,
    pub owner: Identity,
    pub title: Seq<char>,
    pub ipfs_hash: Seq<char>,
    pub timestamp: u64,
    pub is_active: bool,
}

/// Abstract image of the whole contract state.
///
/// `notes` holds every record ever created, in creation order; position
/// `i` holds the record with id `i + 1` and records are never removed,
/// only marked inactive. `counter` is the id of the most recently created
/// record (0 before any creation).
#[verifier::ext_equal]
pub ghost struct StateView {
    pub dev_wallet: Option<Identity>,
    pub note_fee: Option<i128>,
    pub counter: u64,
    pub notes: Seq<NoteView>,
}

/// The state of a freshly deployed contract: no configuration, no records.
pub open spec fn initial_state() -> StateView {
    StateView { dev_wallet: None, note_fee: None, counter: 0, notes: Seq::empty() }
}

/// The fee configuration exists exactly when an operator wallet is stored.
pub open spec fn is_initialized(s: StateView) -> bool {
    s.dev_wallet is Some
}

/// Record ids are assigned sequentially from 1: the record at position `i`
/// carries id `i + 1`, so ids are never reused or skipped.
pub open spec fn ids_sequential(notes: Seq<NoteView>) -> bool {
    forall|i: int| 0 <= i < notes.len() ==> (#[trigger] notes[i]).id == i + 1
}

/// The state invariant: the counter equals the number of records ever
/// created, and ids are sequential from 1.
pub open spec fn state_inv(s: StateView) -> bool {
    &&& s.counter == s.notes.len()
    &&& ids_sequential(s.notes)
}

/// The records created by `owner`, in creation order (deleted ones included).
pub open spec fn owner_seq(notes: Seq<NoteView>, owner: Identity) -> Seq<NoteView>
    decreases notes.len(),
{
    if notes.len() == 0 {
        Seq::empty()
    } else {
        let rest = owner_seq(notes.drop_last(), owner);
        if notes.last().owner == owner {
            rest.push(notes.last())
        } else {
            rest
        }
    }
}

/// The subsequence of records that are still active.
pub open spec fn keep_active(notes: Seq<NoteView>) -> Seq<NoteView>
    decreases notes.len(),
{
    if notes.len() == 0 {
        Seq::empty()
    } else {
        let rest = keep_active(notes.drop_last());
        if notes.last().is_active {
            rest.push(notes.last())
        } else {
            rest
        }
    }
}

/// The records of `owner` that are still active, in creation order: what a
/// listing of the owner's notes returns.
pub open spec fn active_seq(notes: Seq<NoteView>, owner: Identity) -> Seq<NoteView> {
    keep_active(owner_seq(notes, owner))
}

/// The per-owner index: the ids of the records created by `owner`, in
/// creation order. Append-only; ids of deleted records stay listed.
pub open spec fn owner_ids(notes: Seq<NoteView>, owner: Identity) -> Seq<u64> {
    owner_seq(notes, owner).map_values(|n: NoteView| n.id)
}

/// How many records `owner` has ever created.
pub open spec fn count_owner(notes: Seq<NoteView>, owner: Identity) -> nat
    decreases notes.len(),
{
    if notes.len() == 0 {
        0nat
    } else {
        count_owner(notes.drop_last(), owner) + if notes.last().owner == owner {
            1nat
        } else {
            0nat
        }
    }
}

/// How many of `owner`'s records are still active.
pub open spec fn count_active(notes: Seq<NoteView>, owner: Identity) -> nat
    decreases notes.len(),
{
    if notes.len() == 0 {
        0nat
    } else {
        count_active(notes.drop_last(), owner) + if notes.last().owner == owner
            && notes.last().is_active {
            1nat
        } else {
            0nat
        }
    }
}

/// Record `id` exists and belongs to `owner`.
pub open spec fn owns(s: StateView, id: u64, owner: Identity) -> bool {
    &&& 1 <= id
    &&& id <= s.notes.len()
    &&& s.notes[id - 1].owner == owner
}

/// What a gated single-record read returns: the record, only if it exists,
/// belongs to the requester, and is still active; nothing otherwise.
pub open spec fn get_one(s: StateView, id: u64, requester: Identity) -> Option<NoteView> {
    if 1 <= id && id <= s.notes.len() {
        let n = s.notes[id - 1];
        if n.owner == requester && n.is_active {
            Some(n)
        } else {
            None
        }
    } else {
        None
    }
}

/// The id a successful creation returns: the next value of the counter.
pub open spec fn create_result(s: StateView) -> u64 {
    (s.counter + 1) as u64
}

/// The record a successful creation appends.
pub open spec fn new_note(
    s: StateView,
    owner: Identity,
    title: Seq<char>,
    ipfs_hash: Seq<char>,
    now: u64,
) -> NoteView {
    NoteView { id: create_result(s), owner, title, ipfs_hash, timestamp: now, is_active: true }
}

/// The state after a successful creation.
pub open spec fn create_post(
    s: StateView,
    owner: Identity,
    title: Seq<char>,
    ipfs_hash: Seq<char>,
    now: u64,
) -> StateView {
    StateView {
        dev_wallet: s.dev_wallet,
        note_fee: s.note_fee,
        counter: create_result(s),
        notes: s.notes.push(new_note(s, owner, title, ipfs_hash, now)),
    }
}

/// `n` with its active flag cleared and every other field kept.
pub open spec fn deactivated(n: NoteView) -> NoteView {
    NoteView {
        id: n.id,
        owner: n.owner,
        title: n.title,
        ipfs_hash: n.ipfs_hash,
        timestamp: n.timestamp,
        is_active: false,
    }
}

/// A deletion succeeds exactly when the record exists and belongs to the
/// caller; activity is not checked, so deleting twice succeeds twice.
pub open spec fn delete_ok(s: StateView, id: u64, owner: Identity) -> bool {
    owns(s, id, owner)
}

/// The state after a deletion: the record marked inactive on success, the
/// state untouched otherwise.
pub open spec fn delete_post(s: StateView, id: u64, owner: Identity) -> StateView {
    if delete_ok(s, id, owner) {
        StateView {
            dev_wallet: s.dev_wallet,
            note_fee: s.note_fee,
            counter: s.counter,
            notes: s.notes.update(id - 1, deactivated(s.notes[id - 1])),
        }
    } else {
        s
    }
}

/// An update succeeds exactly when the record exists, belongs to the
/// caller, and is still active.
pub open spec fn update_ok(s: StateView, id: u64, owner: Identity) -> bool {
    owns(s, id, owner) && s.notes[id - 1].is_active
}

/// `n` with new title, pointer and write time; id, owner and activity kept.
pub open spec fn updated_note(
    n: NoteView,
    title: Seq<char>,
    ipfs_hash: Seq<char>,
    now: u64,
) -> NoteView {
    NoteView { id: n.id, owner: n.owner, title, ipfs_hash, timestamp: now, is_active: n.is_active }
}

/// The state after an update: the record rewritten on success, the state
/// untouched otherwise.
pub open spec fn update_post(
    s: StateView,
    id: u64,
    owner: Identity,
    title: Seq<char>,
    ipfs_hash: Seq<char>,
    now: u64,
) -> StateView {
    if update_ok(s, id, owner) {
        StateView {
            dev_wallet: s.dev_wallet,
            note_fee: s.note_fee,
            counter: s.counter,
            notes: s.notes.update(id - 1, updated_note(s.notes[id - 1], title, ipfs_hash, now)),
        }
    } else {
        s
    }
}

/// Appending a record extends the owner's subsequence exactly when the
/// record belongs to that owner.
pub proof fn lemma_owner_seq_push(notes: Seq<NoteView>, n: NoteView, owner: Identity)
    ensures
        owner_seq(notes.push(n), owner) == if n.owner == owner {
            owner_seq(notes, owner).push(n)
        } else {
            owner_seq(notes, owner)
        },
{
    let p = notes.push(n);
    assert(p.drop_last() =~= notes);
    assert(p.last() == n);
}

/// Appending a record extends the active subsequence exactly when the
/// record is active.
pub proof fn lemma_keep_active_push(notes: Seq<NoteView>, n: NoteView)
    ensures
        keep_active(notes.push(n)) == if n.is_active {
            keep_active(notes).push(n)
        } else {
            keep_active(notes)
        },
{
    let p = notes.push(n);
    assert(p.drop_last() =~= notes);
    assert(p.last() == n);
}

/// Appending a record appends its id to the owner's index exactly when the
/// record belongs to that owner.
pub proof fn lemma_owner_ids_push(notes: Seq<NoteView>, n: NoteView, owner: Identity)
    ensures
        owner_ids(notes.push(n), owner) == if n.owner == owner {
            owner_ids(notes, owner).push(n.id)
        } else {
            owner_ids(notes, owner)
        },
{
    lemma_owner_seq_push(notes, n, owner);
    if n.owner == owner {
        assert(owner_seq(notes, owner).push(n).map_values(|m: NoteView| m.id) =~= owner_seq(
            notes,
            owner,
        ).map_values(|m: NoteView| m.id).push(n.id));
    }
}

/// Every element of the owner's subsequence belongs to that owner and
/// occurs among the records.
pub proof fn lemma_owner_seq_props(notes: Seq<NoteView>, owner: Identity)
    ensures
        owner_seq(notes, owner).len() <= notes.len(),
        forall|k: int|
            0 <= k < owner_seq(notes, owner).len() ==> ((#[trigger] owner_seq(notes, owner)[k]).owner
                == owner && notes.contains(owner_seq(notes, owner)[k])),
    decreases notes.len(),
{
    if notes.len() > 0 {
        let dl = notes.drop_last();
        lemma_owner_seq_props(dl, owner);
        let rest = owner_seq(dl, owner);
        let cur = owner_seq(notes, owner);
        assert forall|k: int|
            0 <= k < cur.len() implies (cur[k].owner == owner && notes.contains(cur[k])) by {
            if notes.last().owner == owner && k == cur.len() - 1 {
                assert(cur[k] == notes.last());
                assert(notes[notes.len() - 1] == notes.last());
            } else {
                assert(cur[k] == rest[k]);
                assert(dl.contains(rest[k]));
                let j = choose|j: int| 0 <= j < dl.len() && dl[j] == rest[k];
                assert(notes[j] == rest[k]);
            }
        }
    }
}

/// With sequential ids, the `k`-th record of an owner's subsequence is the
/// record stored at the position its id names.
pub proof fn lemma_owner_seq_index(notes: Seq<NoteView>, owner: Identity, k: int)
    requires
        ids_sequential(notes),
        0 <= k < owner_seq(notes, owner).len(),
    ensures
        1 <= owner_seq(notes, owner)[k].id,
        owner_seq(notes, owner)[k].id <= notes.len(),
        notes[owner_seq(notes, owner)[k].id - 1] == owner_seq(notes, owner)[k],
        owner_seq(notes, owner)[k].owner == owner,
{
    lemma_owner_seq_props(notes, owner);
    let e = owner_seq(notes, owner)[k];
    assert(notes.contains(e));
    let j = choose|j: int| 0 <= j < notes.len() && notes[j] == e;
    assert(notes[j].id == j + 1);
}

/// Every element of the active subsequence is active and occurs in the
/// underlying sequence.
pub proof fn lemma_keep_active_props(notes: Seq<NoteView>)
    ensures
        keep_active(notes).len() <= notes.len(),
        forall|k: int|
            0 <= k < keep_active(notes).len() ==> ((#[trigger] keep_active(notes)[k]).is_active
                && notes.contains(keep_active(notes)[k])),
    decreases notes.len(),
{
    if notes.len() > 0 {
        let dl = notes.drop_last();
        lemma_keep_active_props(dl);
        let rest = keep_active(dl);
        let cur = keep_active(notes);
        assert forall|k: int|
            0 <= k < cur.len() implies (cur[k].is_active && notes.contains(cur[k])) by {
            if notes.last().is_active && k == cur.len() - 1 {
                assert(cur[k] == notes.last());
                assert(notes[notes.len() - 1] == notes.last());
            } else {
                assert(cur[k] == rest[k]);
                assert(dl.contains(rest[k]));
                let j = choose|j: int| 0 <= j < dl.len() && dl[j] == rest[k];
                assert(notes[j] == rest[k]);
            }
        }
    }
}

/// The owner's subsequence has exactly as many elements as the owner has
/// created records.
pub proof fn lemma_owner_seq_len(notes: Seq<NoteView>, owner: Identity)
    ensures
        owner_seq(notes, owner).len() == count_owner(notes, owner),
    decreases notes.len(),
{
    if notes.len() > 0 {
        lemma_owner_seq_len(notes.drop_last(), owner);
    }
}

/// The owner's active subsequence has exactly as many elements as the
/// owner has active records.
pub proof fn lemma_active_seq_len(notes: Seq<NoteView>, owner: Identity)
    ensures
        active_seq(notes, owner).len() == count_active(notes, owner),
    decreases notes.len(),
{
    if notes.len() > 0 {
        let dl = notes.drop_last();
        lemma_active_seq_len(dl, owner);
        if notes.last().owner == owner {
            lemma_keep_active_push(owner_seq(dl, owner), notes.last());
        }
    }
}

/// Rewriting one record in place with a record of the same owner keeps
/// every owner's creation count.
pub proof fn lemma_count_owner_update(notes: Seq<NoteView>, j: int, n: NoteView, owner: Identity)
    requires
        0 <= j < notes.len(),
        n.owner == notes[j].owner,
    ensures
        count_owner(notes.update(j, n), owner) == count_owner(notes, owner),
    decreases notes.len(),
{
    let m = notes.update(j, n);
    if j == notes.len() - 1 {
        assert(m.drop_last() =~= notes.drop_last());
        assert(m.last() == n);
    } else {
        assert(m.drop_last() =~= notes.drop_last().update(j, n));
        assert(m.last() == notes.last());
        lemma_count_owner_update(notes.drop_last(), j, n, owner);
    }
}

/// Rewriting one record in place moves each owner's active count by the
/// difference the rewritten record makes.
pub proof fn lemma_count_active_update(notes: Seq<NoteView>, j: int, n: NoteView, owner: Identity)
    requires
        0 <= j < notes.len(),
        n.owner == notes[j].owner,
    ensures
        count_active(notes.update(j, n), owner) + (if notes[j].owner == owner
            && notes[j].is_active {
            1nat
        } else {
            0nat
        }) == count_active(notes, owner) + (if n.owner == owner && n.is_active {
            1nat
        } else {
            0nat
        }),
    decreases notes.len(),
{
    let m = notes.update(j, n);
    if j == notes.len() - 1 {
        assert(m.drop_last() =~= notes.drop_last());
        assert(m.last() == n);
    } else {
        assert(m.drop_last() =~= notes.drop_last().update(j, n));
        assert(m.last() == notes.last());
        lemma_count_active_update(notes.drop_last(), j, n, owner);
    }
}

/// Rewriting one record in place, keeping its owner and id, keeps the
/// length of every owner's subsequence and the id at every position of it.
pub proof fn lemma_owner_seq_update_ids(notes: Seq<NoteView>, j: int, n: NoteView, owner: Identity)
    requires
        0 <= j < notes.len(),
        n.owner == notes[j].owner,
        n.id == notes[j].id,
    ensures
        owner_seq(notes.update(j, n), owner).len() == owner_seq(notes, owner).len(),
        forall|k: int|
            0 <= k < owner_seq(notes, owner).len() ==> (#[trigger] owner_seq(
                notes.update(j, n),
                owner,
            )[k]).id == owner_seq(notes, owner)[k].id,
    decreases notes.len(),
{
    let m = notes.update(j, n);
    if j == notes.len() - 1 {
        assert(m.drop_last() =~= notes.drop_last());
        assert(m.last() == n);
    } else {
        assert(m.drop_last() =~= notes.drop_last().update(j, n));
        assert(m.last() == notes.last());
        lemma_owner_seq_update_ids(notes.drop_last(), j, n, owner);
    }
}

/// Rewriting one record in place, keeping its owner and id, leaves every
/// owner's index unchanged.
pub proof fn lemma_owner_ids_update(notes: Seq<NoteView>, j: int, n: NoteView, owner: Identity)
    requires
        0 <= j < notes.len(),
        n.owner == notes[j].owner,
        n.id == notes[j].id,
    ensures
        owner_ids(notes.update(j, n), owner) == owner_ids(notes, owner),
{
    lemma_owner_seq_update_ids(notes, j, n, owner);
    assert(owner_ids(notes.update(j, n), owner) =~= owner_ids(notes, owner));
}

/// With sequential ids, every owner's index is strictly increasing and
/// bounded by the number of records: creation order is kept.
pub proof fn lemma_owner_ids_increasing(notes: Seq<NoteView>, owner: Identity)
    requires
        ids_sequential(notes),
    ensures
        forall|k: int|
            0 <= k < owner_ids(notes, owner).len() ==> 1 <= #[trigger] owner_ids(notes, owner)[k]
                <= notes.len(),
        forall|k1: int, k2: int|
            #![trigger owner_ids(notes, owner)[k1], owner_ids(notes, owner)[k2]]
            0 <= k1 < k2 < owner_ids(notes, owner).len() ==> owner_ids(notes, owner)[k1]
                < owner_ids(notes, owner)[k2],
    decreases notes.len(),
{
    if notes.len() > 0 {
        let dl = notes.drop_last();
        assert(ids_sequential(dl));
        lemma_owner_ids_increasing(dl, owner);
        let prev = owner_ids(dl, owner);
        let cur = owner_ids(notes, owner);
        if notes.last().owner == owner {
            assert(owner_seq(notes, owner) == owner_seq(dl, owner).push(notes.last()));
            assert(cur =~= prev.push(notes.last().id));
            assert(notes.last().id == notes.len());
        } else {
            assert(owner_seq(notes, owner) == owner_seq(dl, owner));
            assert(cur =~= prev);
        }
    }
}

/// Keeping only the active records keeps a strictly increasing id order.
pub proof fn lemma_keep_active_increasing(s: Seq<NoteView>)
    requires
        forall|i: int, j: int| #![trigger s[i], s[j]] 0 <= i < j < s.len() ==> s[i].id < s[j].id,
    ensures
        forall|i: int, j: int|
            #![trigger keep_active(s)[i], keep_active(s)[j]]
            0 <= i < j < keep_active(s).len() ==> keep_active(s)[i].id < keep_active(s)[j].id,
    decreases s.len(),
{
    if s.len() > 0 {
        let dl = s.drop_last();
        lemma_keep_active_increasing(dl);
        lemma_keep_active_props(dl);
        let rest = keep_active(dl);
        let cur = keep_active(s);
        assert forall|i: int, j: int|
            0 <= i < j < cur.len() implies cur[i].id < cur[j].id by {
            if s.last().is_active && j == cur.len() - 1 {
                assert(cur[j] == s.last());
                assert(cur[i] == rest[i]);
                assert(dl.contains(rest[i]));
                let jj = choose|jj: int| 0 <= jj < dl.len() && dl[jj] == rest[i];
                assert(s[jj] == rest[i]);
                assert(s[s.len() - 1] == s.last());
            } else {
                assert(cur[i] == rest[i] && cur[j] == rest[j]);
            }
        }
    }
}

/// Taking one more element appends the element at the boundary.
pub proof fn lemma_take_push(s: Seq<NoteView>, k: int)
    requires
        0 <= k < s.len(),
    ensures
        s.take(k + 1) == s.take(k).push(s[k]),
{
    assert(s.take(k + 1) =~= s.take(k).push(s[k]));
}

} // verus!
