use riff::client::{ClientError, ClientOptions, RiffClientRest};
use riff::client_handlers::{OpenMessage, ProviderMessage, ShareMessage};
use riff::client_protocols::{smult_plan, OpenOptions, ProviderOptions, ReshareOptions, ReshareStep, ShareInputError, ShareOptions};
use riff::common::PartyId;
use riff::crypto::{decryptSign, decrypt_and_sign, encryptSign, encrypt_and_sign, CryptoError, Encrypted, ShareText};
use riff::mailbox::{Answer, Mailbox, OutMessage};
use riff::secret_share::SecretShare;

fn options() -> ClientOptions {
    ClientOptions {
        Zp: None,
        safemod: None,
        party_id: None,
        party_count: None,
        sodium: None,
        public_keys: None,
        secret_key: None,
        public_key: None,
        crypto_provider: None,
        preprocessingBatchSize: None,
        internal_socket: false,
        pollInterval: None,
        flushInterval: None,
        maxBatchSize: None,
        maxInitializationRetries: None,
    }
}

fn client(id: Option<i64>, count: i64, sodium: bool) -> RiffClientRest {
    let mut o = options();
    o.party_id = id;
    o.party_count = Some(count);
    o.sodium = Some(sodium);
    RiffClientRest::new(String::from("http://127.0.0.1:8080"), String::from("test1"), o).ok().unwrap()
}

fn keypair() -> (Vec<u8>, Vec<u8>) {
    let (pk, sk) = sodiumoxide::crypto::box_::gen_keypair();
    (pk.0.to_vec(), sk.0.to_vec())
}

#[test]
fn new_client_defaults() {
    let c = RiffClientRest::new(String::from("  http://host:8080 "), String::from("c"), options()).ok().unwrap();
    assert_eq!(c.hostname, "http://host:8080/");
    assert_eq!(c.Zp, 16777729);
    assert_eq!(c.party_count, 2);
    assert_eq!(c.maxBatchSize, 150);
    assert_eq!(c.pollInterval, 500);
    assert_eq!(c.flushInterval, 1000);
    assert_eq!(c.preprocessingBatchSize, 10);
    assert!(!c.sodium_ && !c.crypto_provider && c.id.is_none());
    assert!(!c.isReady() && !c.isInitialized());
    let kept = RiffClientRest::new(String::from("http://h/"), String::from("c"), options()).ok().unwrap();
    assert_eq!(kept.hostname, "http://h/");
    let readme = RiffClientRest::new(String::from("http://127.0.0.1:8080"), String::from("test1"), options()).ok().unwrap();
    assert_eq!(readme.hostname, "http://127.0.0.1:8080/");
    assert_eq!(readme.computation_id, "test1");
}

#[test]
fn new_client_refusals() {
    let mut o = options();
    o.Zp = Some(15);
    o.safemod = Some(true);
    assert!(matches!(RiffClientRest::new(String::from("h"), String::from("c"), o), Err(ClientError::NotPrime)));
    let mut o = options();
    o.Zp = Some(4);
    assert!(matches!(RiffClientRest::new(String::from("h"), String::from("c"), o), Err(ClientError::NotPrime)));
    let mut o = options();
    o.Zp = Some(15);
    o.safemod = Some(false);
    assert_eq!(RiffClientRest::new(String::from("h"), String::from("c"), o).ok().unwrap().Zp, 15);
    let mut o = options();
    o.Zp = Some(16777729);
    o.safemod = Some(true);
    assert!(RiffClientRest::new(String::from("h"), String::from("c"), o).is_ok());
    let mut o = options();
    o.internal_socket = true;
    assert!(matches!(RiffClientRest::new(String::from("h"), String::from("c"), o), Err(ClientError::InternalSocket)));
}

#[test]
fn operation_ids_count_up() {
    let mut c = client(Some(1), 3, false);
    let op = String::from("share");
    assert_eq!(c.gen_op_id(&op, &vec![1, 2]), "share:1,2:0");
    assert_eq!(c.gen_op_id(&op, &vec![1, 2]), "share:1,2:1");
    assert_eq!(c.gen_op_id(&op, &vec![1, 3]), "share:1,3:0");
    let open = String::from("open");
    assert_eq!(c.gen_op_id2(&open, &vec![1, 2, 3], &vec![1, 2]), "open:1,2:1,2,3:0");
    assert_eq!(c.gen_op_id2(&open, &vec![1, 2, 3], &vec![1, 2]), "open:1,2:1,2,3:1");
}

fn msg(label: &str, payload: &str) -> (String, String) {
    (String::from(label), String::from(payload))
}

#[test]
fn a_failed_flush_puts_messages_back() {
    let mut m = Mailbox::new();
    let first = m.flush(150).unwrap();
    assert!(first.messages.unwrap().is_empty());
    m.received(Some(4));
    for (l, p) in [msg("share", "1"), msg("open", "2"), msg("share", "3")] {
        m.emit(l, p);
    }
    m.emit(String::from("initialization"), String::from("{}"));
    let body = m.flush(2).unwrap();
    assert_eq!(body.ack, Some(4));
    assert_eq!(body.initialization.as_deref(), Some("{}"));
    let sent: Vec<String> = body.messages.unwrap().iter().map(|x: &OutMessage| x.payload.clone()).collect();
    assert_eq!(sent, vec!["1", "2"]);
    assert!(m.flush(2).is_none());
    assert!(m.poll().is_none());
    m.emit(String::from("share"), String::from("4"));
    m.merge_requests();
    assert!(m.pending.is_none());
    assert_eq!(m.current.ack, Some(4));
    let all: Vec<String> = m.current.messages.as_ref().unwrap().iter().map(|x| x.payload.clone()).collect();
    assert_eq!(all, vec!["1", "2", "3", "4"]);
    assert!(!m.is_empty(Some(0)));
}

#[test]
fn a_poll_sends_no_message() {
    let mut m = Mailbox::new();
    m.flush(-1);
    m.received(None);
    m.emit(String::from("share"), String::from("1"));
    let body = m.poll().unwrap();
    assert!(body.messages.unwrap().is_empty());
    assert_eq!(m.current.messages.as_ref().unwrap().len(), 1);
    m.received(Some(9));
    let all = m.flush(-1).unwrap();
    assert_eq!(all.ack, Some(9));
    assert_eq!(all.messages.unwrap().len(), 1);
    m.received(None);
    assert!(m.is_empty(Some(0)));
    assert!(!m.is_empty(Some(1)));
}

#[test]
fn keys_make_the_client_ready() {
    let mut c = client(None, 2, true);
    let init = c.connected();
    assert_eq!(c.initialization_counter, 1);
    assert_eq!(c.public_key.as_ref().unwrap().len(), 32);
    assert!(init.public_key.unwrap().starts_with('['));
    let (pk1, _) = keypair();
    let (pks, _) = keypair();
    let keys = vec![
        (PartyId::Number(1), serde_json::to_string(&pk1).unwrap()),
        (PartyId::Text(String::from("s1")), serde_json::to_string(&pks).unwrap()),
    ];
    c.wait_for_key(&PartyId::Number(1), String::from("share"), String::from("{}"));
    c.wait_for_key(&PartyId::Number(2), String::from("open"), String::from("{}"));
    let became = c.initialized(1, 2, &keys);
    assert!(matches!(became, Ok(true)));
    assert!(c.isReady() && c.isInitialized());
    assert_eq!(c.id, Some(1));
    assert!(c.knows_key(&PartyId::Number(1)) && !c.knows_key(&PartyId::Number(2)));
    assert_eq!(c.messagesWaitingKeys.len(), 1);
    let bad = vec![(PartyId::Number(2), String::from("oops"))];
    assert!(matches!(c.store_public_keys(&bad), Err(ClientError::InvalidKey)));
    let mut plain = client(None, 2, false);
    assert!(matches!(plain.store_public_keys(&keys), Err(ClientError::KeysUnavailable)));
}

#[test]
fn unknown_waiting_labels_are_refused() {
    let mut c = client(Some(1), 2, true);
    c.keymap.push((PartyId::Number(2), vec![0; 32]));
    c.wait_for_key(&PartyId::Number(2), String::from("weird"), String::from("{}"));
    assert!(matches!(c.resolve_messages_waiting_for_keys(), Err(ClientError::UnknownLabel)));
}

#[test]
fn sealed_shares_open_with_the_right_keys() {
    let (pk_a, sk_a) = keypair();
    let (pk_b, sk_b) = keypair();
    let sealed = encrypt_and_sign(42, &pk_b, &sk_a);
    assert!(sealed.nonce.starts_with('[') && sealed.cipher.contains(", "));
    assert_eq!(decrypt_and_sign(&sealed, &sk_b, &pk_a).ok().unwrap(), b"42".to_vec());
    assert!(matches!(decrypt_and_sign(&sealed, &sk_a, &pk_a), Err(CryptoError::Forged)));
    let forged = Encrypted { nonce: String::from("[1, 2]"), cipher: sealed.cipher.clone() };
    assert!(matches!(decrypt_and_sign(&forged, &sk_b, &pk_a), Err(CryptoError::BadNonce)));
    let t = encryptSign(true, -7, &pk_b, &sk_a);
    assert_eq!(decryptSign(true, &t, &sk_b, &pk_a).ok(), Some(-7));
    let p = encryptSign(false, 12, &vec![], &vec![]);
    assert!(matches!(&p, ShareText::Plain(s) if s == "12"));
    assert_eq!(decryptSign(false, &p, &vec![], &vec![]).ok(), Some(12));
}

#[test]
fn shares_arrive_and_are_collected() {
    let mut c = client(Some(2), 3, false);
    let plan = c
        .share_setup(ShareOptions { Zp: Some(11), receivers_list: Some(vec![3, 1, 2]), senders_list: None, threshold: Some(7), share_id: None })
        .unwrap();
    assert_eq!(plan.receivers, vec![1, 2, 3]);
    assert_eq!(plan.threshold, 3);
    assert_eq!(plan.share_id, "share:1,2,3:1,2,3:0");
    assert!(plan.is_sender && plan.is_receiver);
    let out = c.share_outgoing(&plan, 5, &vec![3, 1]).ok().unwrap();
    assert_eq!(out.values, vec![9, 4, 1]);
    assert!(out.sends[1].is_none());
    assert!(matches!(&out.sends[0], Some(ShareText::Plain(s)) if s == "9"));
    assert!(c.collect_shares(&plan, Some(out.values[1])).is_none());
    for (sender, v) in [(1, "6"), (3, "10")] {
        let m = ShareMessage { party_id: PartyId::Number(sender), op_id: plan.share_id.clone(), share: ShareText::Plain(String::from(v)) };
        assert!(c.receive_share(&m).is_ok());
    }
    let shares = c.collect_shares(&plan, Some(out.values[1])).unwrap();
    let values: Vec<i64> = shares.iter().map(|s| s.value).collect();
    assert_eq!(values, vec![0, 6, 4, 10]);
    assert!(shares.iter().all(|s| s.holders == vec![1, 2, 3] && s.Zp == 11 && s.threshold == 3));
    let bad = ShareMessage { party_id: PartyId::Number(1), op_id: String::from("x"), share: ShareText::Plain(String::from("1.5")) };
    assert!(matches!(c.receive_share(&bad), Err(ClientError::Crypto(CryptoError::NotANumber))));
    let uninvolved = client(Some(9), 3, false).share_setup(ShareOptions { Zp: None, receivers_list: None, senders_list: None, threshold: None, share_id: None });
    assert!(uninvolved.is_none());
}

#[test]
fn openings_reconstruct_the_secret() {
    let mut c = client(Some(1), 2, false);
    let share = SecretShare::new(8, vec![1, 2], 2, 11);
    let plan = c.open_setup(&share, OpenOptions { parties: None, op_id: None }).unwrap();
    assert_eq!(plan.parties, vec![1, 2]);
    assert_eq!(plan.op_id, "open:1,2:1,2:0");
    assert!(plan.is_holder && plan.is_receiver);
    let sends = c.jiff_broadcast(&share, &plan.parties, &plan.op_id).ok().unwrap();
    assert!(sends[0].is_none() && matches!(&sends[1], Some(ShareText::Plain(s)) if s == "8"));
    assert!(matches!(c.open_result(&plan.op_id, 2), Ok(None)));
    let other = OpenMessage { party_id: PartyId::Number(2), op_id: plan.op_id.clone(), share: ShareText::Plain(String::from("0")), Zp: 11 };
    assert!(c.receive_open(&other).is_ok());
    assert_eq!(c.opened_shares(&plan.op_id).len(), 2);
    assert!(matches!(c.open_result(&plan.op_id, 2), Ok(Some(5))));
}

#[test]
fn crypto_provider_requests_and_answers() {
    let mut c = client(Some(1), 3, false);
    let req = c.from_crypto_provider(
        String::from("triplet"),
        ProviderOptions { Zp: None, receivers_list: None, threshold: Some(-1), op_id: None, params: None },
    );
    assert_eq!(req.receivers, vec![1, 2, 3]);
    assert_eq!(req.threshold, 2);
    assert_eq!(req.Zp, 16777729);
    assert_eq!(req.op_id, "crypto_provider:triplet:1,2,3:0");
    c.receive_crypto_provider(&ProviderMessage { op_id: req.op_id.clone(), receivers: vec![1, 2, 3], threshold: 2, Zp: 11, values: Some(String::from("[7]")), shares: Some(vec![4, 5, 6]) });
    let (_, provided) = c.crypto_map.last().unwrap();
    assert_eq!(provided.values, Some(String::from("[7]")));
    let shares = provided.shares.as_ref().unwrap();
    assert_eq!(shares.len(), 3);
    assert_eq!(shares[2].value, 6);
    assert!(matches!(c.get_preprocessing(&String::from("none")), Err(ClientError::NoPreprocessing)));
}

#[test]
fn resharing_keeps_or_shares_again() {
    let mut c = client(Some(2), 3, false);
    let keep = c.reshare_setup(ReshareOptions {
        receivers_list: None,
        senders_list: None,
        threshold: None,
        Zp: None,
        op_id: None,
        share: Some(SecretShare::new(4, vec![1, 2, 3], 3, 11)),
    });
    assert!(matches!(keep, Some(ReshareStep::Keep(s)) if s.value == 4));
    let again = c.reshare_setup(ReshareOptions {
        receivers_list: Some(vec![3, 1]),
        senders_list: None,
        threshold: None,
        Zp: None,
        op_id: None,
        share: Some(SecretShare::new(4, vec![1, 2, 3], 3, 11)),
    });
    match again {
        Some(ReshareStep::Share(o, sends)) => {
            assert!(sends);
            assert_eq!(o.receivers_list, Some(vec![1, 3]));
            assert_eq!(o.senders_list, Some(vec![1, 2, 3]));
            assert_eq!(o.threshold, Some(2));
            assert_eq!(o.Zp, Some(16777729));
            assert_eq!(o.share_id, Some(String::from("reshare:1,2,3:1")));
        }
        _ => panic!("expected a new sharing"),
    }
    let outside = client(Some(9), 3, false).reshare_setup(ReshareOptions {
        receivers_list: None,
        senders_list: None,
        threshold: None,
        Zp: None,
        op_id: Some(String::from("r")),
        share: None,
    });
    assert!(outside.is_none());
}

#[test]
fn answers_become_events_in_order() {
    let mut m = Mailbox::new();
    let failed = m.answered(Answer { success: false, error: String::from("e"), ack: Some(3), initialization: None, messages: vec![] });
    assert_eq!(failed, vec![(String::from("error"), String::from("e"))]);
    assert!(m.current.ack.is_none());
    let ok = m.answered(Answer {
        success: true,
        error: String::new(),
        ack: Some(4),
        initialization: Some(String::from("i")),
        messages: vec![(String::from("share"), String::from("a")), (String::from("open"), String::from("b"))],
    });
    assert_eq!(ok.len(), 3);
    assert_eq!(ok[0], (String::from("initialization"), String::from("i")));
    assert_eq!(ok[2], (String::from("open"), String::from("b")));
    assert_eq!(m.current.ack, Some(4));
    assert!(m.pending.is_none());
}

#[test]
fn share_inputs_are_checked() {
    let c = client(Some(1), 3, false);
    assert!(matches!(c.share_input_check(-1, None), Some(ShareInputError::Negative)));
    assert!(matches!(c.share_input_check(16777729, None), Some(ShareInputError::OutsideField)));
    assert!(matches!(c.share_input_check(10, Some(11)), None));
    assert!(matches!(c.share_input_check(11, Some(11)), Some(ShareInputError::OutsideField)));
}

#[test]
fn multiplication_ids() {
    let x = SecretShare::new(1, vec![1, 2], 2, 11);
    let y = SecretShare::new(2, vec![1, 2], 3, 11);
    let plan = smult_plan(&x, &y, &String::from("smult:1,2:0"));
    assert_eq!(plan.open1, "smult:1,2:0:open1");
    assert_eq!(plan.open2, "smult:1,2:0:open2");
    assert_eq!(plan.triplet.op_id, Some(String::from("smult:1,2:0:triplet")));
    assert_eq!(plan.triplet.threshold, Some(3));
    assert_eq!(plan.triplet.receivers_list, Some(vec![1, 2]));
}

#[test]
fn messages_wait_for_unknown_keys() {
    let mut c = client(Some(1), 3, false);
    let m = ShareMessage { party_id: PartyId::Number(2), op_id: String::from("s"), share: ShareText::Plain(String::from("4")) };
    assert!(c.handler_share(&m, String::from("raw")).is_ok());
    assert_eq!(c.messagesWaitingKeys.len(), 1);
    assert!(c.share_map.is_empty());
}
