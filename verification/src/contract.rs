//! The contract service: the stored state, the authentication capability,
//! and the public operation surface (initialize, create, read, update,
//! soft-delete, stats, fee administration).

use crate::model::{
    active_seq, create_post, create_result, delete_ok, delete_post, get_one, initial_state,
    is_initialized, keep_active, lemma_keep_active_props, lemma_keep_active_push,
    lemma_owner_ids_push, lemma_owner_ids_update, lemma_owner_seq_index, lemma_take_push, new_note,
    owner_ids, owner_seq, state_inv, update_ok, update_post, Identity, NoteView, StateView,
};
use std::collections::HashMap;
use vstd::pervasive::VecAdditionalExecFns;
use vstd::prelude::*;

verus! {

broadcast use vstd::std_specs::hash::group_hash_axioms;

/// The fee assumed when no configuration has been stored.
pub const DEFAULT_NOTE_FEE: i128 = 1000000;

/// The fee a mutating operation is billed in state `s`: the configured
/// amount, or the default when no configuration exists.
pub open spec fn effective_fee(s: StateView) -> i128 {
    match s.note_fee {
        Some(f) => f,
        None => DEFAULT_NOTE_FEE,
    }
}

/// The two fatal failures: every other negative outcome (not found, not
/// owner, not active) is a soft `None`/`false` result, never an error.
#[derive(Clone, Copy, PartialEq, Eq, Structural, Debug)]
pub enum Error {
    /// A second attempt to store the singleton fee configuration.
    AlreadyInitialized,
    /// The invoking principal could not prove control of the acting
    /// identity, or a fee change was requested by a non-operator.
    Unauthorized,
}

/// The host's authentication primitive, modelled as an injected capability:
/// it knows the principal that invoked the current call, and an identity
/// check succeeds exactly for that principal.
pub struct IdentityVerifier {
    /// The authenticated principal invoking the current call.
    pub principal: Identity,
}

impl IdentityVerifier {
    /// Fails the gated operation unless the invoking principal is
    /// `identity`.
    pub fn require_auth(&self, identity: Identity) -> (r: Result<(), Error>)
        ensures
            (r is Ok) <==> identity == self.principal,
            r is Err ==> r == Err::<(), Error>(Error::Unauthorized),
    {
        if identity == self.principal {
            Ok(())
        } else {
            Err(Error::Unauthorized)
        }
    }
}

/// One user record: a title and a content-addressed pointer, stamped with
/// its owner, its immutable id, and its last write time. Deletion only
/// clears `is_active`; the record itself is never removed.
pub struct Note {
    pub id: u64,
    pub owner: Identity,
    pub title: String,
    pub ipfs_hash: String,
    pub timestamp: u64,
    pub is_active: bool,
}

impl View for Note {
    type V = NoteView;

    open spec fn view(&self) -> NoteView {
        NoteView {
            id: self.id,
            owner: self.owner,
            title: self.title@,
            ipfs_hash: self.ipfs_hash@,
            timestamp: self.timestamp,
            is_active: self.is_active,
        }
    }
}

impl Clone for Note {
    fn clone(&self) -> (r: Self)
        ensures
            r == *self,
    {
        Note {
            id: self.id,
            owner: self.owner,
            title: self.title.clone(),
            ipfs_hash: self.ipfs_hash.clone(),
            timestamp: self.timestamp,
            is_active: self.is_active,
        }
    }
}

/// The abstract images of a sequence of stored records.
pub open spec fn views_of(notes: Seq<Note>) -> Seq<NoteView> {
    notes.map_values(|n: Note| n@)
}

/// The logical key space of the persisted state: the global counter, one
/// key per record id, one index key per owner, and the two singleton
/// configuration keys.
#[derive(Clone)]
pub enum DataKey {
    NoteCounter,
    Note(u64),
    UserNotes(Identity),
    DevWallet,
    NoteFee,
}

/// Which logical keys hold a value in state `s`: the counter once it has
/// been written (at initialization or by a creation), a record key for each
/// assigned id, an index key for each owner with a creation, and the two
/// configuration keys once initialized.
pub open spec fn key_present(s: StateView, key: DataKey) -> bool {
    match key {
        DataKey::NoteCounter => is_initialized(s) || s.counter > 0,
        DataKey::Note(id) => 1 <= id && id <= s.notes.len(),
        DataKey::UserNotes(owner) => owner_ids(s.notes, owner).len() > 0,
        DataKey::DevWallet => is_initialized(s),
        DataKey::NoteFee => s.note_fee is Some,
    }
}

/// The whole contract state: the fee configuration, the global id counter,
/// the record store (position `i` holds the record with id `i + 1`), and
/// the per-owner index of created ids.
pub struct NotesContract {
    dev_wallet: Option<Identity>,
    note_fee: Option<i128>,
    counter: u64,
    notes: Vec<Note>,
    user_notes: HashMap<Identity, Vec<u64>>,
}

impl View for NotesContract {
    type V = StateView;

    closed spec fn view(&self) -> StateView {
        StateView {
            dev_wallet: self.dev_wallet,
            note_fee: self.note_fee,
            counter: self.counter,
            notes: views_of(self.notes@),
        }
    }
}

impl NotesContract {
    /// The per-owner index lists exactly the ids of the owner's records, in
    /// creation order; owners without an index entry have no records.
    pub closed spec fn index_wf(self) -> bool {
        &&& forall|o: Identity|
            self.user_notes@.contains_key(o) ==> (#[trigger] self.user_notes@[o])@ == owner_ids(
                self@.notes,
                o,
            )
        &&& forall|o: Identity|
            !(#[trigger] self.user_notes@.contains_key(o)) ==> owner_ids(self@.notes, o)
                == Seq::<u64>::empty()
    }

    /// Well-formedness: the abstract state invariant together with the
    /// consistency of the per-owner index.
    pub open spec fn wf(self) -> bool {
        &&& state_inv(self@)
        &&& self.index_wf()
    }

    /// A freshly deployed contract: no configuration, no records, counter 0.
    pub fn new() -> (r: NotesContract)
        ensures
            r.wf(),
            r@ == initial_state(),
    {
        let r = NotesContract {
            dev_wallet: None,
            note_fee: None,
            counter: 0,
            notes: Vec::new(),
            user_notes: HashMap::new(),
        };
        proof {
            assert(r@.notes =~= Seq::<NoteView>::empty());
            assert(r@ =~= initial_state());
            assert forall|o: Identity|
                !(#[trigger] r.user_notes@.contains_key(o)) implies owner_ids(r@.notes, o)
                == Seq::<u64>::empty() by {
                assert(owner_ids(r@.notes, o) =~= Seq::<u64>::empty());
            }
        }
        r
    }

    /// Whether logical key `key` currently holds a value.
    pub fn has(&self, key: &DataKey) -> (r: bool)
        requires
            self.wf(),
        ensures
            r == key_present(self@, *key),
    {
        match key {
            DataKey::NoteCounter => self.dev_wallet.is_some() || self.counter > 0,
            DataKey::Note(id) => {
                let len = self.notes.len();
                *id >= 1 && *id <= len as u64
            },
            DataKey::UserNotes(owner) => {
                match self.user_notes.get(owner) {
                    Some(v) => v.len() > 0,
                    None => false,
                }
            },
            DataKey::DevWallet => self.dev_wallet.is_some(),
            DataKey::NoteFee => self.note_fee.is_some(),
        }
    }

    /// One-time bootstrap: stores the operator wallet and the fee. Reports
    /// `AlreadyInitialized`, changing nothing, if a configuration exists.
    ///
    /// The id counter is zero on a fresh contract and is left untouched
    /// here, so ids assigned before initialization are never reused.
    pub fn initialize(&mut self, dev_wallet: Identity, note_fee: i128) -> (r: Result<(), Error>)
        requires
            old(self).wf(),
        ensures
            final(self).wf(),
            (r is Ok) <==> !is_initialized(old(self)@),
            r is Ok ==> final(self)@ == (StateView {
                dev_wallet: Some(dev_wallet),
                note_fee: Some(note_fee),
                counter: old(self)@.counter,
                notes: old(self)@.notes,
            }),
            r is Err ==> final(self)@ == old(self)@ && r == Err::<(), Error>(
                Error::AlreadyInitialized,
            ),
    {
        if self.has(&DataKey::DevWallet) {
            return Err(Error::AlreadyInitialized);
        }
        self.dev_wallet = Some(dev_wallet);
        self.note_fee = Some(note_fee);
        Ok(())
    }

    /// The fee-charging hook, invoked by every fee-gated mutation before the
    /// mutation is committed. The monetary transfer collaborator is outside
    /// this library, so the hook reads the fee and moves no funds; keeping
    /// the call site lets a real transfer be substituted without reordering
    /// the operations.
    fn charge_fee(&self, _payer: Identity) {
        let _fee: i128 = self.get_note_fee();
    }

    /// Creates a note owned by `owner`: verifies the caller's identity,
    /// charges the fee, assigns the next id, stores the record, and appends
    /// the id to the owner's index. Returns the new id; an authentication
    /// failure aborts before the counter moves.
    pub fn create_note(
        &mut self,
        caller: &IdentityVerifier,
        owner: Identity,
        title: String,
        ipfs_hash: String,
        now: u64,
    ) -> (r: Result<u64, Error>)
        requires
            old(self).wf(),
            old(self)@.counter < u64::MAX,
        ensures
            final(self).wf(),
            (r is Ok) <==> owner == caller.principal,
            r matches Ok(id) ==> id == create_result(old(self)@) && final(self)@ == create_post(
                old(self)@,
                owner,
                title@,
                ipfs_hash@,
                now,
            ),
            r is Err ==> final(self)@ == old(self)@ && r == Err::<u64, Error>(Error::Unauthorized),
    {
        if let Err(e) = caller.require_auth(owner) {
            return Err(e);
        }
        self.charge_fee(owner);
        let ghost t: Seq<char> = title@;
        let ghost h: Seq<char> = ipfs_hash@;
        let ghost nv: NoteView = new_note(old(self)@, owner, t, h, now);
        let id = self.counter + 1;
        let note = Note { id, owner, title, ipfs_hash, timestamp: now, is_active: true };
        self.notes.push(note);
        let mut ids: Vec<u64> = match self.user_notes.remove(&owner) {
            Some(v) => v,
            None => Vec::new(),
        };
        let ghost base: Seq<u64> = ids@;
        ids.push(id);
        let ghost appended: Seq<u64> = ids@;
        self.user_notes.insert(owner, ids);
        self.counter = id;
        proof {
            let pre = old(self)@;
            assert(self@.notes =~= pre.notes.push(nv));
            assert(base == owner_ids(pre.notes, owner));
            assert(appended == base.push(id));
            assert forall|o: Identity|
                self.user_notes@.contains_key(o) implies (#[trigger] self.user_notes@[o])@
                == owner_ids(self@.notes, o) by {
                lemma_owner_ids_push(pre.notes, nv, o);
                if o != owner {
                    assert(old(self).user_notes@.contains_key(o));
                    assert(self.user_notes@[o] == old(self).user_notes@[o]);
                }
            }
            assert forall|o: Identity|
                !(#[trigger] self.user_notes@.contains_key(o)) implies owner_ids(self@.notes, o)
                == Seq::<u64>::empty() by {
                lemma_owner_ids_push(pre.notes, nv, o);
                assert(!old(self).user_notes@.contains_key(o));
            }
            assert(self@ =~= create_post(pre, owner, t, h, now));
        }
        Ok(id)
    }

    /// All active notes of `user`, in creation order. Performs no identity
    /// check: the owner named is the subject of the query, not an
    /// authenticated caller.
    pub fn get_user_notes(&self, user: Identity) -> (r: Vec<Note>)
        requires
            self.wf(),
        ensures
            r@.len() == active_seq(self@.notes, user).len(),
            forall|k: int|
                0 <= k < r@.len() ==> (#[trigger] r@[k])@ == active_seq(self@.notes, user)[k],
    {
        let mut result: Vec<Note> = Vec::new();
        let empty_ids: Vec<u64> = Vec::new();
        let ids: &Vec<u64> = match self.user_notes.get(&user) {
            Some(v) => v,
            None => &empty_ids,
        };
        assert(ids@ == owner_ids(self@.notes, user));
        let ghost os: Seq<NoteView> = owner_seq(self@.notes, user);
        let store_len = self.notes.len();
        let n = ids.len();
        let mut k: usize = 0;
        while k < n
            invariant
                k <= n,
                n == ids@.len(),
                self.wf(),
                store_len == self@.notes.len(),
                ids@ == owner_ids(self@.notes, user),
                os == owner_seq(self@.notes, user),
                result@.len() == keep_active(os.take(k as int)).len(),
                forall|t: int|
                    0 <= t < result@.len() ==> (#[trigger] result@[t])@ == keep_active(
                        os.take(k as int),
                    )[t],
            decreases n - k,
        {
            let id = ids[k];
            proof {
                lemma_owner_seq_index(self@.notes, user, k as int);
                assert(id == os[k as int].id);
                assert(1 <= id && id <= self@.notes.len());
                lemma_take_push(os, k as int);
                lemma_keep_active_push(os.take(k as int), os[k as int]);
            }
            let idx = (id - 1) as usize;
            let note = &self.notes[idx];
            proof {
                assert(self@.notes[id - 1] == os[k as int]);
                assert(note@ == os[k as int]);
            }
            if note.is_active {
                result.push(note.clone());
            }
            k = k + 1;
        }
        proof {
            assert(os.take(n as int) =~= os);
        }
        result
    }

    /// A single gated read: verifies the requester's identity, then returns
    /// the record only if it exists, belongs to the requester, and is still
    /// active; not-found, not-owner and inactive all yield `None`.
    pub fn get_note(
        &self,
        caller: &IdentityVerifier,
        note_id: u64,
        requester: Identity,
    ) -> (r: Result<Option<Note>, Error>)
        requires
            self.wf(),
        ensures
            (r is Ok) <==> requester == caller.principal,
            r is Err ==> r == Err::<Option<Note>, Error>(Error::Unauthorized),
            r matches Ok(opt) ==> ((opt matches Some(n) ==> get_one(self@, note_id, requester)
                == Some(n@)) && (opt is None ==> get_one(self@, note_id, requester) is None)),
    {
        if let Err(e) = caller.require_auth(requester) {
            return Err(e);
        }
        let len = self.notes.len();
        if note_id >= 1 && note_id <= len as u64 {
            let idx = (note_id - 1) as usize;
            let note = &self.notes[idx];
            if note.owner == requester && note.is_active {
                return Ok(Some(note.clone()));
            }
        }
        Ok(None)
    }

    /// Soft-deletes a record: verifies the caller's identity, then clears
    /// the active flag if the record exists and belongs to the caller.
    /// Returns whether a record was written; a second delete of the same
    /// record still matches its owner, rewrites it, and returns true again.
    pub fn delete_note(
        &mut self,
        caller: &IdentityVerifier,
        note_id: u64,
        owner: Identity,
    ) -> (r: Result<bool, Error>)
        requires
            old(self).wf(),
        ensures
            final(self).wf(),
            (r is Ok) <==> owner == caller.principal,
            r is Err ==> final(self)@ == old(self)@ && r == Err::<bool, Error>(Error::Unauthorized),
            r matches Ok(b) ==> b == delete_ok(old(self)@, note_id, owner) && final(self)@
                == delete_post(old(self)@, note_id, owner),
    {
        if let Err(e) = caller.require_auth(owner) {
            return Err(e);
        }
        let len = self.notes.len();
        if note_id >= 1 && note_id <= len as u64 {
            let idx = (note_id - 1) as usize;
            if self.notes[idx].owner == owner {
                let old_note = &self.notes[idx];
                let note = Note {
                    id: old_note.id,
                    owner: old_note.owner,
                    title: old_note.title.clone(),
                    ipfs_hash: old_note.ipfs_hash.clone(),
                    timestamp: old_note.timestamp,
                    is_active: false,
                };
                let ghost nv: NoteView = note@;
                self.notes.set(idx, note);
                proof {
                    let pre = old(self)@;
                    assert(self@.notes =~= pre.notes.update(idx as int, nv));
                    assert forall|o: Identity|
                        self.user_notes@.contains_key(o) implies (#[trigger] self.user_notes@[o])@
                        == owner_ids(self@.notes, o) by {
                        lemma_owner_ids_update(pre.notes, idx as int, nv, o);
                    }
                    assert forall|o: Identity|
                        !(#[trigger] self.user_notes@.contains_key(o)) implies owner_ids(
                        self@.notes,
                        o,
                    ) == Seq::<u64>::empty() by {
                        lemma_owner_ids_update(pre.notes, idx as int, nv, o);
                    }
                    assert(self@ =~= delete_post(pre, note_id, owner));
                }
                return Ok(true);
            }
        }
        Ok(false)
    }

    /// Updates a record's title and pointer: verifies the caller's identity,
    /// charges the fee, then rewrites the record — refreshing its write time
    /// and keeping its id and owner — if it exists, belongs to the caller,
    /// and is still active. Returns whether a record was written.
    pub fn update_note(
        &mut self,
        caller: &IdentityVerifier,
        note_id: u64,
        owner: Identity,
        new_title: String,
        new_ipfs_hash: String,
        now: u64,
    ) -> (r: Result<bool, Error>)
        requires
            old(self).wf(),
        ensures
            final(self).wf(),
            (r is Ok) <==> owner == caller.principal,
            r is Err ==> final(self)@ == old(self)@ && r == Err::<bool, Error>(Error::Unauthorized),
            r matches Ok(b) ==> b == update_ok(old(self)@, note_id, owner) && final(self)@
                == update_post(old(self)@, note_id, owner, new_title@, new_ipfs_hash@, now),
    {
        if let Err(e) = caller.require_auth(owner) {
            return Err(e);
        }
        self.charge_fee(owner);
        let len = self.notes.len();
        if note_id >= 1 && note_id <= len as u64 {
            let idx = (note_id - 1) as usize;
            if self.notes[idx].owner == owner && self.notes[idx].is_active {
                let id_field = self.notes[idx].id;
                let note = Note {
                    id: id_field,
                    owner,
                    title: new_title,
                    ipfs_hash: new_ipfs_hash,
                    timestamp: now,
                    is_active: true,
                };
                let ghost nv: NoteView = note@;
                self.notes.set(idx, note);
                proof {
                    let pre = old(self)@;
                    assert(self@.notes =~= pre.notes.update(idx as int, nv));
                    assert forall|o: Identity|
                        self.user_notes@.contains_key(o) implies (#[trigger] self.user_notes@[o])@
                        == owner_ids(self@.notes, o) by {
                        lemma_owner_ids_update(pre.notes, idx as int, nv, o);
                    }
                    assert forall|o: Identity|
                        !(#[trigger] self.user_notes@.contains_key(o)) implies owner_ids(
                        self@.notes,
                        o,
                    ) == Seq::<u64>::empty() by {
                        lemma_owner_ids_update(pre.notes, idx as int, nv, o);
                    }
                    assert(self@ =~= update_post(pre, note_id, owner, nv.title, nv.ipfs_hash, now));
                }
                return Ok(true);
            }
        }
        Ok(false)
    }

    /// The id of the most recently created record; 0 before any creation.
    pub fn get_total_notes_count(&self) -> (r: u64)
        ensures
            r == self@.counter,
    {
        self.counter
    }

    /// The operator wallet. The configuration must exist.
    pub fn get_dev_wallet(&self) -> (r: Identity)
        requires
            is_initialized(self@),
        ensures
            self@.dev_wallet == Some(r),
    {
        self.dev_wallet.unwrap()
    }

    /// The configured fee, or the documented default when uninitialized.
    pub fn get_note_fee(&self) -> (r: i128)
        ensures
            r == effective_fee(self@),
    {
        match self.note_fee {
            Some(f) => f,
            None => DEFAULT_NOTE_FEE,
        }
    }

    /// Changes the fee: verifies the caller's identity, then stores the new
    /// amount only when the caller is the operator; anyone else is reported
    /// `Unauthorized` and the configuration is left untouched.
    pub fn update_fee(
        &mut self,
        caller: &IdentityVerifier,
        admin: Identity,
        new_fee: i128,
    ) -> (r: Result<(), Error>)
        requires
            old(self).wf(),
            is_initialized(old(self)@),
        ensures
            final(self).wf(),
            (r is Ok) <==> (admin == caller.principal && old(self)@.dev_wallet == Some(admin)),
            r is Ok ==> final(self)@ == (StateView {
                dev_wallet: old(self)@.dev_wallet,
                note_fee: Some(new_fee),
                counter: old(self)@.counter,
                notes: old(self)@.notes,
            }),
            r is Err ==> final(self)@ == old(self)@ && r == Err::<(), Error>(Error::Unauthorized),
    {
        if let Err(e) = caller.require_auth(admin) {
            return Err(e);
        }
        let dev_wallet = self.get_dev_wallet();
        if admin != dev_wallet {
            return Err(Error::Unauthorized);
        }
        self.note_fee = Some(new_fee);
        Ok(())
    }

    /// (total, active) for `user`: how many records the user's index lists —
    /// all of which exist — and how many of those are still active. Like
    /// the listing, performs no identity check.
    pub fn get_user_stats(&self, user: Identity) -> (r: (u64, u64))
        requires
            self.wf(),
        ensures
            r.0 == owner_seq(self@.notes, user).len(),
            r.1 == active_seq(self@.notes, user).len(),
    {
        let mut total: u64 = 0;
        let mut active: u64 = 0;
        let empty_ids: Vec<u64> = Vec::new();
        let ids: &Vec<u64> = match self.user_notes.get(&user) {
            Some(v) => v,
            None => &empty_ids,
        };
        assert(ids@ == owner_ids(self@.notes, user));
        let ghost os: Seq<NoteView> = owner_seq(self@.notes, user);
        let store_len = self.notes.len();
        let n = ids.len();
        let mut k: usize = 0;
        while k < n
            invariant
                k <= n,
                n == ids@.len(),
                self.wf(),
                store_len == self@.notes.len(),
                ids@ == owner_ids(self@.notes, user),
                os == owner_seq(self@.notes, user),
                total == k,
                active == keep_active(os.take(k as int)).len(),
                active <= k,
            decreases n - k,
        {
            let id = ids[k];
            proof {
                lemma_owner_seq_index(self@.notes, user, k as int);
                assert(id == os[k as int].id);
                assert(1 <= id && id <= self@.notes.len());
                lemma_take_push(os, k as int);
                lemma_keep_active_push(os.take(k as int), os[k as int]);
                lemma_keep_active_props(os.take(k + 1));
            }
            let idx = (id - 1) as usize;
            let note = &self.notes[idx];
            proof {
                assert(self@.notes[id - 1] == os[k as int]);
                assert(note@ == os[k as int]);
            }
            total = total + 1;
            if note.is_active {
                active = active + 1;
            }
            k = k + 1;
        }
        proof {
            assert(os.take(n as int) =~= os);
        }
        (total, active)
    }
}

} // verus!
