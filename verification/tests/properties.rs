//! Scenario tests: end-to-end lifecycles, the failure paths of both fatal
//! errors, the soft negative results, and the persisted-key observations.

use notes_contract::contract::{DataKey, Error, IdentityVerifier, NotesContract, DEFAULT_NOTE_FEE};

fn auth_as(principal: u64) -> IdentityVerifier {
    IdentityVerifier { principal }
}

#[test]
fn end_to_end_lifecycle() {
    let mut contract = NotesContract::new();
    let operator: u64 = 1;
    let user: u64 = 2;

    contract.initialize(operator, 1_000_000).unwrap();

    let id = contract
        .create_note(
            &auth_as(user),
            user,
            String::from("Title"),
            String::from("hashA"),
            7,
        )
        .unwrap();
    assert_eq!(id, 1);

    let note = contract.get_note(&auth_as(user), 1, user).unwrap().unwrap();
    assert_eq!(note.id, 1);
    assert_eq!(note.owner, user);
    assert_eq!(note.title, "Title");
    assert_eq!(note.ipfs_hash, "hashA");
    assert_eq!(note.timestamp, 7);
    assert!(note.is_active);

    assert_eq!(contract.delete_note(&auth_as(user), 1, user), Ok(true));
    assert!(contract.get_note(&auth_as(user), 1, user).unwrap().is_none());
    assert_eq!(contract.get_user_stats(user), (1, 0));
}

#[test]
fn creation_log_order_after_delete() {
    let mut contract = NotesContract::new();
    let user: u64 = 2;

    contract.initialize(1, 1_000_000).unwrap();
    for i in 1..=3u64 {
        let id = contract
            .create_note(
                &auth_as(user),
                user,
                format!("N{}", i),
                format!("h{}", i),
                i,
            )
            .unwrap();
        assert_eq!(id, i);
    }

    assert_eq!(contract.delete_note(&auth_as(user), 1, user), Ok(true));
    assert_eq!(contract.get_user_stats(user), (3, 2));

    // Only the notes with ids 2 and 3 remain listed, in creation order.
    let notes = contract.get_user_notes(user);
    assert_eq!(notes.len(), 2);
    assert_eq!(notes[0].id, 2);
    assert_eq!(notes[1].id, 3);
}

#[test]
fn double_initialize_rejected() {
    let mut contract = NotesContract::new();
    contract.initialize(1, 1_000_000).unwrap();

    let second = contract.initialize(9, 2_000_000);
    assert_eq!(second, Err(Error::AlreadyInitialized));

    // The first configuration is untouched.
    assert_eq!(contract.get_dev_wallet(), 1);
    assert_eq!(contract.get_note_fee(), 1_000_000);
}

#[test]
fn unauthorized_fee_change_rejected() {
    let mut contract = NotesContract::new();
    let operator: u64 = 1;
    let intruder: u64 = 2;
    contract.initialize(operator, 1_000_000).unwrap();

    // Authenticated, but not the operator.
    let r = contract.update_fee(&auth_as(intruder), intruder, 5);
    assert_eq!(r, Err(Error::Unauthorized));
    assert_eq!(contract.get_note_fee(), 1_000_000);

    // Claiming the operator identity without controlling it fails too.
    let r = contract.update_fee(&auth_as(intruder), operator, 5);
    assert_eq!(r, Err(Error::Unauthorized));
    assert_eq!(contract.get_note_fee(), 1_000_000);
}

#[test]
fn create_unauthorized_consumes_no_id() {
    let mut contract = NotesContract::new();
    let user: u64 = 2;
    contract.initialize(1, 1_000_000).unwrap();

    // The invoking principal cannot prove control of `user`.
    let r = contract.create_note(
        &auth_as(3),
        user,
        String::from("a"),
        String::from("b"),
        0,
    );
    assert_eq!(r, Err(Error::Unauthorized));
    assert_eq!(contract.get_total_notes_count(), 0);

    // The rejected creation consumed no id: the next one returns 1.
    let id = contract
        .create_note(&auth_as(user), user, String::from("a"), String::from("b"), 0)
        .unwrap();
    assert_eq!(id, 1);
}

#[test]
fn repeated_delete_rewrites_and_reports_true() {
    let mut contract = NotesContract::new();
    let user: u64 = 2;
    contract.initialize(1, 1_000_000).unwrap();
    contract
        .create_note(&auth_as(user), user, String::from("a"), String::from("b"), 0)
        .unwrap();

    // A second delete still matches the owner, rewrites the record, and
    // reports true; the stats do not change again.
    assert_eq!(contract.delete_note(&auth_as(user), 1, user), Ok(true));
    assert_eq!(contract.delete_note(&auth_as(user), 1, user), Ok(true));
    assert_eq!(contract.get_user_stats(user), (1, 0));
}

#[test]
fn soft_misses_return_false_or_none() {
    let mut contract = NotesContract::new();
    let user: u64 = 2;
    let other: u64 = 3;
    contract.initialize(1, 1_000_000).unwrap();
    contract
        .create_note(&auth_as(user), user, String::from("a"), String::from("b"), 0)
        .unwrap();

    // Wrong owner: deletion and update refuse softly.
    assert_eq!(contract.delete_note(&auth_as(other), 1, other), Ok(false));
    assert_eq!(
        contract.update_note(
            &auth_as(other),
            1,
            other,
            String::from("x"),
            String::from("y"),
            0
        ),
        Ok(false)
    );

    // Missing id: soft refusal as well.
    assert_eq!(contract.delete_note(&auth_as(user), 9, user), Ok(false));
    assert_eq!(
        contract.update_note(
            &auth_as(user),
            9,
            user,
            String::from("x"),
            String::from("y"),
            0
        ),
        Ok(false)
    );
    assert!(contract.get_note(&auth_as(user), 9, user).unwrap().is_none());

    // Inactive record: updates refuse softly.
    contract.delete_note(&auth_as(user), 1, user).unwrap();
    assert_eq!(
        contract.update_note(
            &auth_as(user),
            1,
            user,
            String::from("x"),
            String::from("y"),
            0
        ),
        Ok(false)
    );
}

#[test]
fn unauthenticated_read_is_fatal() {
    let mut contract = NotesContract::new();
    let user: u64 = 2;
    contract.initialize(1, 1_000_000).unwrap();
    contract
        .create_note(&auth_as(user), user, String::from("a"), String::from("b"), 0)
        .unwrap();

    // Reading as an identity the principal does not control aborts.
    let r = contract.get_note(&auth_as(3), 1, user);
    assert!(matches!(r, Err(Error::Unauthorized)));
}

#[test]
fn update_refreshes_timestamp_and_keeps_identity() {
    let mut contract = NotesContract::new();
    let user: u64 = 2;
    contract.initialize(1, 1_000_000).unwrap();
    let id = contract
        .create_note(&auth_as(user), user, String::from("a"), String::from("b"), 5)
        .unwrap();

    let ok = contract
        .update_note(
            &auth_as(user),
            id,
            user,
            String::from("c"),
            String::from("d"),
            9,
        )
        .unwrap();
    assert!(ok);

    let note = contract.get_note(&auth_as(user), id, user).unwrap().unwrap();
    assert_eq!(note.id, id);
    assert_eq!(note.owner, user);
    assert_eq!(note.timestamp, 9);
    assert_eq!(note.title, "c");
    assert_eq!(note.ipfs_hash, "d");
}

#[test]
fn ids_are_global_across_owners() {
    let mut contract = NotesContract::new();
    contract.initialize(1, 1_000_000).unwrap();
    let a = contract
        .create_note(&auth_as(2), 2, String::from("a"), String::from("x"), 0)
        .unwrap();
    let b = contract
        .create_note(&auth_as(3), 3, String::from("b"), String::from("y"), 0)
        .unwrap();
    let c = contract
        .create_note(&auth_as(2), 2, String::from("c"), String::from("z"), 0)
        .unwrap();
    assert_eq!((a, b, c), (1, 2, 3));
}

#[test]
fn default_fee_before_initialization() {
    let contract = NotesContract::new();
    assert_eq!(contract.get_note_fee(), DEFAULT_NOTE_FEE);
    assert_eq!(contract.get_note_fee(), 1_000_000);
}

#[test]
fn empty_owner_has_nothing() {
    let mut contract = NotesContract::new();
    contract.initialize(1, 1_000_000).unwrap();
    assert_eq!(contract.get_user_notes(7).len(), 0);
    assert_eq!(contract.get_user_stats(7), (0, 0));
}

#[test]
fn logical_keys_appear_as_state_grows() {
    let mut contract = NotesContract::new();
    assert!(!contract.has(&DataKey::DevWallet));
    assert!(!contract.has(&DataKey::NoteFee));
    assert!(!contract.has(&DataKey::NoteCounter));
    assert!(!contract.has(&DataKey::Note(1)));
    assert!(!contract.has(&DataKey::UserNotes(2)));

    contract.initialize(1, 1_000_000).unwrap();
    assert!(contract.has(&DataKey::DevWallet));
    assert!(contract.has(&DataKey::NoteFee));
    assert!(contract.has(&DataKey::NoteCounter));

    contract
        .create_note(&auth_as(2), 2, String::from("a"), String::from("b"), 0)
        .unwrap();
    assert!(contract.has(&DataKey::Note(1)));
    assert!(!contract.has(&DataKey::Note(2)));
    assert!(contract.has(&DataKey::UserNotes(2)));
    assert!(!contract.has(&DataKey::UserNotes(3)));

    // The index entry survives deletion: it is a creation log.
    contract.delete_note(&auth_as(2), 1, 2).unwrap();
    assert!(contract.has(&DataKey::Note(1)));
    assert!(contract.has(&DataKey::UserNotes(2)));
}

#[test]
fn identity_verifier_checks_principal() {
    let v = auth_as(4);
    assert_eq!(v.require_auth(4), Ok(()));
    assert_eq!(v.require_auth(5), Err(Error::Unauthorized));
}
