use riff::common::PartyId;
use riff::hooks::{serverHooks, InitError};
use riff::intervals::{interval, intervals, intervals_fn};
use riff::server::restfulAPI;
use riff::socket_server::{handle_messages, JasonMessage, Server};

fn key_text(seed: u8) -> String {
    let bytes: Vec<u8> = (0..32).map(|i| seed.wrapping_add(i)).collect();
    serde_json::to_string(&bytes).unwrap()
}

fn cid() -> String {
    String::from("comp")
}

fn joined(api: &mut restfulAPI, party: Option<PartyId>, count: Option<i64>, seed: u8) -> PartyId {
    match api.initializeParty(&cid(), party, count, Some(key_text(seed)), false) {
        Ok(out) => out.party_id,
        Err(e) => panic!("{}", e.message()),
    }
}

#[test]
fn intervals_track_free_ids() {
    let mut ids = intervals_fn(1, 5);
    assert!(ids.is_free(3));
    assert!(ids.reserve(3));
    assert!(!ids.is_free(3));
    assert!(!ids.reserve(3));
    assert_eq!(ids.create_free(), Some(1));
    assert!(ids.reserve(1));
    assert_eq!(ids.create_free(), Some(2));
    assert!(ids.reserve(2));
    assert_eq!(ids.create_free(), Some(4));
    assert_eq!(ids.find_point(5), 0);
    assert_eq!(ids.find_point(9), -1);
    let initial = serverHooks::trackFreeIds(3);
    assert!(initial.is_free(1) && initial.is_free(3) && !initial.is_free(4));
}

#[test]
fn parties_get_distinct_ids() {
    let mut api = restfulAPI::new(true);
    let first = joined(&mut api, None, Some(3), 1);
    let second = joined(&mut api, None, None, 2);
    let third = joined(&mut api, Some(PartyId::Number(3)), Some(3), 3);
    assert!(matches!(first, PartyId::Number(1)));
    assert!(matches!(second, PartyId::Number(2)));
    assert!(matches!(third, PartyId::Number(3)));
    assert_eq!(api.saved_count(&cid()), Some(3));
    assert!(api.is_full(&cid()));
    let full = api.initializeParty(&cid(), None, None, Some(key_text(4)), false);
    assert!(matches!(full, Err(InitError::CapacityReached)));
}

#[test]
fn joining_is_refused_with_the_reason() {
    let mut api = restfulAPI::new(true);
    let reserved = api.initializeParty(&cid(), Some(PartyId::Text(String::from("s1"))), Some(3), None, false);
    assert!(matches!(reserved, Err(InitError::ReservedId)));
    let no_count = api.initializeParty(&cid(), None, None, Some(key_text(1)), false);
    assert!(matches!(no_count, Err(InitError::NoPartyCount)));
    let too_small = api.initializeParty(&cid(), None, Some(0), Some(key_text(1)), false);
    assert!(matches!(too_small, Err(InitError::PartyCountTooSmall)));
    let bad_id = api.initializeParty(&cid(), Some(PartyId::Number(5)), Some(3), Some(key_text(1)), false);
    assert!(matches!(bad_id, Err(InitError::InvalidPartyId)));
    let bad_key = api.initializeParty(&cid(), None, Some(3), Some(String::from("not a key")), false);
    assert!(matches!(bad_key, Err(InitError::InvalidPublicKey)));
    joined(&mut api, None, Some(3), 1);
    let contradicting = api.initializeParty(&cid(), None, Some(4), Some(key_text(2)), false);
    assert!(matches!(contradicting, Err(InitError::ContradictingPartyCount)));
    let mut plain = restfulAPI::new(false);
    let no_sodium = plain.initializeParty(&cid(), None, Some(2), Some(key_text(1)), false);
    assert!(matches!(no_sodium, Err(InitError::KeysUnavailable)));
}

#[test]
fn keys_are_stored_and_sent() {
    let mut api = restfulAPI::new(true);
    let out = api.initializeParty(&cid(), None, Some(2), Some(key_text(7)), false).ok().unwrap();
    assert_eq!(out.party_count, 2);
    assert_eq!(out.public_keys.len(), 2);
    let mine = out
        .public_keys
        .iter()
        .find(|(p, _)| matches!(p, PartyId::Number(1)))
        .map(|(_, t)| t.clone())
        .unwrap();
    assert_eq!(mine, key_text(7));
    assert!(out.public_keys.iter().any(|(p, t)| matches!(p, PartyId::Text(s) if s == "s1") && t.starts_with('[')));
    assert!(api.get_from_mailbox(&cid(), &PartyId::Number(1)).is_empty());
    let second = api.initializeParty(&cid(), None, Some(2), Some(key_text(9)), false).ok().unwrap();
    let letters = api.get_from_mailbox(&cid(), &PartyId::Number(1));
    assert_eq!(letters.len(), 1);
    assert_eq!(letters[0].label, "public_keys");
    let v: serde_json::Value = serde_json::from_str(&letters[0].msg).unwrap();
    assert_eq!(v["public_keys"]["2"], serde_json::Value::String(key_text(9)));
    assert_eq!(v["public_keys"]["1"], serde_json::Value::String(key_text(7)));
    assert!(v["public_keys"]["s1"].is_string());
    assert_eq!(second.public_keys.len(), 3);
    assert!(api.get_from_mailbox(&cid(), &PartyId::Number(2)).is_empty());
    api.send_public_keys(String::from("{}"), &cid(), &PartyId::Number(2));
    assert_eq!(api.get_from_mailbox(&cid(), &PartyId::Number(1)).len(), 2);
}

#[test]
fn acknowledged_messages_leave_the_mailbox() {
    let mut api = restfulAPI::new(true);
    joined(&mut api, None, Some(2), 1);
    let p = PartyId::Number(1);
    api.safe_emit(String::from("share"), String::from("a"), &cid(), &p);
    api.safe_emit(String::from("open"), String::from("b"), &cid(), &p);
    api.safe_emit(String::from("open"), String::from("c"), &cid(), &PartyId::Text(String::from("s1")));
    let dumped = api.dumpMailbox(&cid(), &p);
    assert_eq!(dumped.ack, Some(1));
    assert_eq!(dumped.messages.len(), 2);
    assert_eq!(dumped.messages[0].label, "share");
    assert_eq!(dumped.messages[1].msg, "b");
    api.safe_emit(String::from("share"), String::from("d"), &cid(), &p);
    api.freeTag(&cid(), &p, Some(7));
    assert_eq!(api.get_from_mailbox(&cid(), &p).len(), 3);
    api.freeTag(&cid(), &p, dumped.ack);
    let left = api.get_from_mailbox(&cid(), &p);
    assert_eq!(left.len(), 1);
    assert_eq!(left[0].msg, "d");
    let again = api.dumpMailbox(&cid(), &p);
    assert_eq!(again.ack, Some(2));
}

#[test]
fn empty_mailbox_gives_no_tag() {
    let mut api = restfulAPI::new(true);
    joined(&mut api, None, Some(2), 1);
    let dumped = api.dumpMailbox(&cid(), &PartyId::Number(1));
    assert_eq!(dumped.ack, None);
    assert!(dumped.messages.is_empty());
    let unknown = api.dumpMailbox(&String::from("other"), &PartyId::Number(1));
    assert_eq!(unknown.ack, None);
}

#[test]
fn a_computation_is_dropped_when_all_parties_are_done() {
    let mut api = restfulAPI::new(true);
    joined(&mut api, None, Some(2), 1);
    joined(&mut api, None, Some(2), 2);
    assert!(!api.free(&cid(), &PartyId::Number(1)));
    assert!(!api.free(&cid(), &PartyId::Number(1)));
    assert_eq!(api.saved_count(&cid()), Some(2));
    assert!(api.free(&cid(), &PartyId::Number(2)));
    assert_eq!(api.saved_count(&cid()), None);
    assert!(!api.free(&String::from("never"), &PartyId::Number(1)));
}

#[test]
fn before_initialization_checks() {
    let api = restfulAPI::new(true);
    let c = cid();
    assert!(serverHooks::beforeInitialization(&api, &c, &Some(PartyId::Number(2)), Some(3)).is_ok());
    assert!(serverHooks::beforeInitialization(&api, &c, &Some(PartyId::Text(String::from("s1"))), Some(3)).is_ok());
    assert!(matches!(
        serverHooks::beforeInitialization(&api, &c, &Some(PartyId::Text(String::from("x"))), Some(3)),
        Err(InitError::InvalidPartyId)
    ));
    assert!(matches!(serverHooks::beforeInitialization(&api, &c, &None, None), Err(InitError::NoPartyCount)));
    assert!(matches!(InitError::CapacityReached.message().as_str(), "Maximum parties capacity reached"));
}

#[test]
fn key_texts() {
    assert_eq!(serverHooks::dumpKey(true, &vec![1, 20, 255]), "[1,20,255]");
    assert_eq!(serverHooks::dumpKey(false, &vec![1]), "");
    assert_eq!(serverHooks::parseKey(true, "[3, 4]").ok().unwrap(), Some(vec![3, 4]));
    assert_eq!(serverHooks::parseKey(false, "[3]").ok().unwrap(), None);
    assert!(serverHooks::parseKey(true, "[300]").is_err());
    let (pk, sk) = serverHooks::generateKeyPair(true);
    assert_eq!(pk.unwrap().len(), 32);
    assert_eq!(sk.unwrap().len(), 32);
    assert!(serverHooks::generateKeyPair(false).0.is_none());
}

#[test]
fn socket_server_registers_and_answers() {
    let mut server = Server::new(String::from("server1"));
    assert_eq!(server.register(1), 1);
    assert_eq!(server.register(4), 2);
    assert_eq!(server.register(1), 1);
    assert_eq!(server.mail_box.len(), 2);
    let hello = JasonMessage { tag: String::from("connect"), party_id: 0, message: String::from("bob") };
    let r = handle_messages(&hello, 3, &vec![3]);
    assert_eq!((r.party_id, r.text.as_str()), (3, "Welcome: bob"));
    let send = JasonMessage { tag: String::from("communicate"), party_id: 2, message: String::from("hi") };
    let r = handle_messages(&send, 3, &vec![1, 2, 3]);
    assert_eq!((r.party_id, r.text.as_str()), (2, "hi"));
    let r = handle_messages(&send, 3, &vec![1, 3]);
    assert_eq!((r.party_id, r.text.as_str()), (0, "error"));
    let other = JasonMessage { tag: String::from("x"), party_id: 2, message: String::from("hi") };
    assert_eq!(handle_messages(&other, 3, &vec![2]).party_id, 0);
}

#[test]
fn shares_and_openings_are_forwarded() {
    let mut api = restfulAPI::new(true);
    joined(&mut api, None, Some(2), 1);
    let p = PartyId::Number(2);
    assert!(api.share(&cid(), &p, String::from("{\"party_id\":1,\"share\":\"5\"}")));
    assert!(api.open(&cid(), &p, String::from("{\"party_id\":1,\"share\":\"7\"}")));
    assert!(api.share(&cid(), &PartyId::Text(String::from("s1")), String::from("x")));
    let letters = api.get_from_mailbox(&cid(), &p);
    assert_eq!(letters.len(), 2);
    assert_eq!(letters[0].label, "share");
    assert_eq!(letters[0].msg, "{\"party_id\":1,\"share\":\"5\"}");
    assert_eq!(letters[1].label, "open");
    assert!(api.get_from_mailbox(&cid(), &PartyId::Text(String::from("s1"))).is_empty());
}

#[test]
fn adjacent_intervals_are_searched_and_split() {
    let mut iv = intervals { val: vec![interval { start: 1, end: 2 }, interval { start: 3, end: 6 }] };
    assert!(iv.is_free(3));
    assert!(iv.is_free(2));
    assert!(!iv.is_free(7));
    assert!(iv.reserve(4));
    assert_eq!(iv.val.len(), 3);
    assert!(iv.val[1] == interval { start: 3, end: 3 } && iv.val[2] == interval { start: 5, end: 6 });
    assert!(!iv.reserve(4));
    assert_eq!(iv.val.len(), 3);
    assert!(iv.reserve(3));
    assert_eq!(iv.val.len(), 2);
    assert_eq!(iv.find_point(6), 1);
    assert_eq!(iv.find_point(9), -1);
}
