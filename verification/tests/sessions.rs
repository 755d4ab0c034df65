//! Opening a session, keeping handles, and what the command line says about
//! opening a dump.

use steam2fs::backend::handles::Handles;
use steam2fs::backend::login::{
    default_identities, describe_stage, identity_files, refusal, Credential, IdentityFiles, Login,
    Stage, Turn,
};
use steam2fs::commands::open::{add_keys, cache_place, store_config, CachePlace};
use steam2fs::keys::KeyStore;

#[test]
fn keys_are_offered_in_order() {
    let mut login = Login::new(&vec![true, false, true], 2);
    let mut seen = Vec::new();
    while let Turn::Offer(c) = login.turn() {
        seen.push(c);
        login.answer(false);
    }
    assert_eq!(
        seen,
        vec![
            Credential::Agent(0),
            Credential::Agent(2),
            Credential::File(0),
            Credential::File(1)
        ]
    );
    assert_eq!(login.turn(), Turn::Refused);
}

#[test]
fn the_first_accepted_key_ends_a_login() {
    let mut login = Login::new(&vec![true], 2);
    assert_eq!(login.turn(), Turn::Offer(Credential::Agent(0)));
    login.answer(false);
    assert_eq!(login.turn(), Turn::Offer(Credential::File(0)));
    login.answer(true);
    assert_eq!(login.turn(), Turn::Accepted);
    assert_eq!(Login::new(&Vec::new(), 0).turn(), Turn::Refused);
}

#[test]
fn identity_files_come_from_the_configuration_or_from_home() {
    assert_eq!(identity_files(Some(2), true), IdentityFiles::Configured);
    assert_eq!(identity_files(Some(0), true), IdentityFiles::Defaults);
    assert_eq!(identity_files(None, true), IdentityFiles::Defaults);
    assert_eq!(identity_files(None, false), IdentityFiles::Absent);
    assert_eq!(default_identities(), vec!["id_ed25519", "id_ecdsa", "id_rsa"]);
}

#[test]
fn failures_say_what_was_going_on() {
    let say = |stage| describe_stage(stage, "me", "example", 2222);
    assert_eq!(say(Stage::Connect), "connecting to example:2222");
    assert_eq!(say(Stage::Handshake), "ssh handshake with example");
    assert_eq!(say(Stage::Authenticate), "authenticating to me@example");
    assert_eq!(say(Stage::Channel), "opening a session channel");
    assert_eq!(say(Stage::Subsystem), "requesting the sftp subsystem");
    assert_eq!(say(Stage::Start), "sftp handshake");
    assert_eq!(
        refusal("[]"),
        "no ssh key was accepted (tried the agent and []); steam2fs does not prompt for passwords"
    );
}

#[test]
fn the_least_recently_used_handle_is_closed() {
    let mut h = Handles::new(2);
    assert_eq!(h.get(1), None);
    assert_eq!(h.keep(1, "one".to_string()), None);
    assert_eq!(h.keep(2, "two".to_string()), None);
    assert_eq!(h.get(1), Some("one".to_string()));
    assert_eq!(h.keep(3, "three".to_string()), Some("two".to_string()));
    assert_eq!(h.get(2), None);
    // A handle that takes the place of one for the same file closes none.
    assert_eq!(h.keep(3, "again".to_string()), None);
    assert_eq!(h.get(3), Some("again".to_string()));
    assert_eq!(h.get(1), Some("one".to_string()));
}

#[test]
fn cache_sizes_are_in_mebibytes() {
    let cfg = store_config(256, 1, false, true);
    assert_eq!(cfg.raw_cache_bytes, 268_435_456);
    assert_eq!(cfg.block_cache_bytes, 1_048_576);
    assert!(cfg.verify);
    assert!(!cfg.key_search);
}

#[test]
fn blobs_are_kept_where_they_can_be() {
    assert_eq!(cache_place(true, true, true, true), CachePlace::Off);
    assert_eq!(cache_place(false, true, true, true), CachePlace::Given);
    assert_eq!(cache_place(false, false, true, true), CachePlace::Xdg);
    assert_eq!(cache_place(false, false, false, true), CachePlace::Home);
    assert_eq!(cache_place(false, false, false, false), CachePlace::Unknown);
}

#[test]
fn the_first_refused_key_ends_the_list() {
    let hex = "000102030405060708090a0b0c0d0e0f";
    let mut keys = KeyStore::new(Vec::new());
    let specs = vec![
        format!("1={hex}"),
        "2".to_string(),
        format!("3={hex}"),
    ];
    let e = add_keys(&mut keys, &specs).unwrap_err();
    assert_eq!(e.message(), "key spec \"2\" is not DEPOT[@CRC]=HEX");
    assert_eq!(keys.get(1).map(|k| k[15]), Some(15));
    assert_eq!(keys.get(3), None);
    assert!(add_keys(&mut keys, &vec![format!("3={hex}")]).is_ok());
    assert_eq!(keys.get(3).map(|k| k[1]), Some(1));
}
