//! What a client does when it connects and initializes, when keys arrive, and when
//! shares, opened shares and values of the crypto provider arrive.
use vstd::prelude::*;
use crate::client::{RiffClientRest, ClientError, WaitingMessage, Provided, counts_wf};
use crate::common::{PartyId, PartyIdView, party_number_spec, get_party_number, parse_i64_spec, parse_i64_text};
use crate::crypto::{ShareText, CryptoError, decryptSign, read_share_spec};
use crate::handlers::{set_key, get_key, lemma_key_index};
use crate::hooks::{serverHooks, json_bytes, parsed_bytes, server_id};
use crate::secret_share::{SecretShare, copy_ids};
use crate::server::{keys_wf, key_in, key_index, key_map, same_party, copy_party};
use crate::shamir::OpenedShare;

verus! {

/// What a client tells the server when it connects.
pub struct InitializationMessage {
    pub computation_id: String,
    pub party_id: Option<i64>,
    pub party_count: i64,
    pub public_key: Option<String>,
}

/// A share that arrived from a party for an operation.
pub struct ShareMessage {
    pub party_id: PartyId,
    pub op_id: String,
    pub share: ShareText,
}

/// An opened share that arrived from a party for an operation, with its field.
pub struct OpenMessage {
    pub party_id: PartyId,
    pub op_id: String,
    pub share: ShareText,
    pub Zp: i64,
}

/// What the crypto provider sent for an operation.
pub struct ProviderMessage {
    pub op_id: String,
    pub receivers: Vec<i64>,
    pub threshold: i64,
    pub Zp: i64,
    pub values: Option<String>,
    pub shares: Option<Vec<i64>>,
}

/// The latest share received from `sender` for operation `op`.
pub open spec fn share_in(m: Seq<(String, i64, i64)>, op: Seq<char>, sender: int) -> Option<i64>
    decreases m.len(),
{
    if m.len() == 0 {
        None
    } else if m.last().0@ == op && m.last().1 == sender {
        Some(m.last().2)
    } else {
        share_in(m.drop_last(), op, sender)
    }
}

/// The opened shares received for operation `op`, in arrival order.
pub open spec fn opens_in(m: Seq<(String, OpenedShare)>, op: Seq<char>) -> Seq<OpenedShare>
    decreases m.len(),
{
    if m.len() == 0 {
        Seq::empty()
    } else if m.last().0@ == op {
        opens_in(m.drop_last(), op).push(m.last().1)
    } else {
        opens_in(m.drop_last(), op)
    }
}

/// The latest shares received from the crypto provider for operation `op` (none
/// inside when the provider sent no shares).
pub open spec fn provided_in(m: Seq<(String, Provided)>, op: Seq<char>) -> Option<
    Option<Seq<SecretShare>>,
>
    decreases m.len(),
{
    if m.len() == 0 {
        None
    } else if m.last().0@ == op {
        Some(
            match m.last().1.shares {
                Some(v) => Some(v@),
                None => None,
            },
        )
    } else {
        provided_in(m.drop_last(), op)
    }
}

/// The labels of the messages that may wait for a key.
pub open spec fn known_label(l: Seq<char>) -> bool {
    l == "share"@ || l == "open"@ || l == "custom"@
}

/// The text a client sends for its public key: its JSON text when sodium is on.
pub open spec fn key_text(sodium: bool, pk: Seq<u8>) -> Seq<char> {
    if sodium {
        json_bytes(pk)
    } else {
        Seq::empty()
    }
}

/// A copy of a list of bytes.
pub fn copy_bytes(v: &Vec<u8>) -> (r: Vec<u8>)
    ensures
        r@ == v@,
{
    let mut r: Vec<u8> = Vec::new();
    let mut i: usize = 0;
    while i < v.len()
        invariant
            i <= v@.len(),
            r@ == v@.subrange(0, i as int),
        decreases v.len() - i,
    {
        r.push(v[i]);
        i = i + 1;
        assert(r@ =~= v@.subrange(0, i as int));
    }
    assert(v@.subrange(0, v@.len() as int) =~= v@);
    r
}

/// The key of `p`, if known.
pub fn lookup_key(keys: &Vec<(PartyId, Vec<u8>)>, p: &PartyId) -> (r: Option<Vec<u8>>)
    requires
        keys_wf(keys@),
    ensures
        r matches Some(k) ==> key_in(keys@, p@) == Some(k@),
        r is None ==> key_in(keys@, p@) is None,
{
    let mut i: usize = 0;
    while i < keys.len()
        invariant
            i <= keys@.len(),
            keys_wf(keys@),
            forall|j: int| 0 <= j < i ==> #[trigger] keys@[j].0@ != p@,
        decreases keys.len() - i,
    {
        if same_party(&keys[i].0, p) {
            proof {
                lemma_key_index(keys@, p@, i as int);
            }
            return Some(copy_bytes(&keys[i].1));
        }
        i = i + 1;
    }
    None
}

/// No party stands twice among the keys sent.
pub open spec fn sent_keys_unique(keys: Seq<(PartyId, String)>) -> bool {
    forall|i: int, j: int| 0 <= i < j < keys.len() ==> #[trigger] keys[i].0@ != #[trigger] keys[j].0@
}

/// Whether storing the keys sent fails, and why: a key of a new party cannot be read.
pub open spec fn store_error(keymap: Seq<(PartyId, Vec<u8>)>, sodium: bool, keys: Seq<(PartyId, String)>) -> Option<
    ClientError,
> {
    if exists|i: int|
        0 <= i < keys.len() && key_in(keymap, #[trigger] keys[i].0@) is None && !sodium {
        Some(ClientError::KeysUnavailable)
    } else if exists|i: int|
        0 <= i < keys.len() && key_in(keymap, #[trigger] keys[i].0@) is None && parsed_bytes(
            keys[i].1@,
        ) is None {
        Some(ClientError::InvalidKey)
    } else {
        None
    }
}

/// The keys after storing the keys sent: the keys of new parties are added, those of
/// known parties stay.
pub open spec fn stored_keys(keymap: Seq<(PartyId, Vec<u8>)>, keys: Seq<(PartyId, String)>) -> Map<
    PartyIdView,
    Seq<u8>,
> {
    Map::new(
        |p: PartyIdView|
            key_in(keymap, p) is Some || exists|i: int| 0 <= i < keys.len() && #[trigger] keys[i].0@ == p,
        |p: PartyIdView|
            if key_in(keymap, p) is Some {
                key_in(keymap, p)->0
            } else {
                parsed_bytes(keys[choose|i: int| 0 <= i < keys.len() && #[trigger] keys[i].0@ == p].1@)->0
            },
    )
}

/// Every message waiting for a key of a party in `keys` has a known label.
pub open spec fn waiting_ok(waiting: Seq<(PartyId, WaitingMessage)>, keys: Seq<(PartyId, Vec<u8>)>) -> bool {
    forall|i: int|
        0 <= i < waiting.len() && key_in(keys, (#[trigger] waiting[i]).0@) is Some ==> known_label(
            waiting[i].1.label@,
        )
}

/// The messages that still wait for a key, once the parties in `keys` are known.
pub open spec fn still_waiting(waiting: Seq<(PartyId, WaitingMessage)>, keys: Seq<(PartyId, Vec<u8>)>) -> Seq<
    (PartyId, WaitingMessage),
> {
    waiting.filter(|e: (PartyId, WaitingMessage)| key_in(keys, e.0@) is None)
}

/// What storing the keys sent does, from `s0` to `s1`, returning `r`.
pub open spec fn store_post(s0: RiffClientRest, s1: RiffClientRest, keys: Seq<(PartyId, String)>, r: Result<bool, ClientError>) -> bool {
    match store_error(s0.keymap@, s0.sodium_, keys) {
        Some(e) => r == Err::<bool, ClientError>(e) && s1 == s0,
        None => {
            let nk = s1.keymap@;
            let became = !s0.__ready && s0.__initialized && key_in(nk, PartyIdView::Text("s1"@)) is Some;
            &&& key_map(nk) == stored_keys(s0.keymap@, keys)
            &&& waiting_ok(s0.messagesWaitingKeys@, nk) ==> {
                &&& r == Ok::<bool, ClientError>(became)
                &&& s1.messagesWaitingKeys@ == still_waiting(s0.messagesWaitingKeys@, nk)
                &&& s1.__ready == (s0.__ready || became)
            }
            &&& !waiting_ok(s0.messagesWaitingKeys@, nk) ==> {
                &&& r == Err::<bool, ClientError>(ClientError::UnknownLabel)
                &&& s1.messagesWaitingKeys == s0.messagesWaitingKeys
                &&& s1.__ready == s0.__ready
            }
            &&& s1 == (RiffClientRest {
                keymap: s1.keymap,
                messagesWaitingKeys: s1.messagesWaitingKeys,
                __ready: s1.__ready,
                ..s0
            })
        },
    }
}

/// Storing keys keeps "ready implies initialized": a client is marked ready only when
/// it is already initialized.
pub proof fn law_ready_implies_initialized(
    s0: RiffClientRest,
    s1: RiffClientRest,
    keys: Seq<(PartyId, String)>,
    r: Result<bool, ClientError>,
)
    requires
        store_post(s0, s1, keys, r),
        s0.__ready ==> s0.__initialized,
    ensures
        s1.__ready ==> s1.__initialized,
{
}

/// The client reports that it became ready at most once: after a store of keys that
/// reports it, no later store reports it again.
pub proof fn law_ready_once(
    s0: RiffClientRest,
    s1: RiffClientRest,
    k1: Seq<(PartyId, String)>,
    r1: Result<bool, ClientError>,
    s2: RiffClientRest,
    k2: Seq<(PartyId, String)>,
    r2: Result<bool, ClientError>,
)
    requires
        store_post(s0, s1, k1, r1),
        r1 == Ok::<bool, ClientError>(true),
        store_post(s1, s2, k2, r2),
    ensures
        r2 != Ok::<bool, ClientError>(true),
{
}

/// What receiving the share `msg` does, from `s0` to `s1`, returning `r`.
pub open spec fn share_post(s0: RiffClientRest, s1: RiffClientRest, msg: ShareMessage, r: Result<(), ClientError>) -> bool {
    match share_read(s0, msg) {
        Err(e) => r == Err::<(), ClientError>(ClientError::Crypto(e)) && s1 == s0,
        Ok(v) => match msg.party_id {
            PartyId::Number(n) => {
                &&& r is Ok
                &&& s1.share_map@ == s0.share_map@.push((msg.op_id, n, v as i64))
                &&& s1 == (RiffClientRest { share_map: s1.share_map, ..s0 })
            },
            PartyId::Text(_) => r == Err::<(), ClientError>(ClientError::UnknownSender) && s1
                == s0,
        },
    }
}

/// What receiving the opened share `msg` does, from `s0` to `s1`, returning `r`.
pub open spec fn open_post(s0: RiffClientRest, s1: RiffClientRest, msg: OpenMessage, r: Result<(), ClientError>) -> bool {
    ({
        let own = match msg.party_id {
            PartyId::Number(n) => s0.id == Some(n),
            PartyId::Text(_) => false,
        };
        let read = if own {
            match msg.share {
                ShareText::Plain(t) => match parse_i64_spec(t@) {
                    Some(v) => Ok(v),
                    None => Err(CryptoError::NotANumber),
                },
                ShareText::Sealed(_) => Err(CryptoError::NotANumber),
            }
        } else {
            read_share_spec(
                s0.sodium_,
                msg.share,
                own_secret(s0),
                known_key(s0, msg.party_id@),
            )
        };
        match read {
            Err(e) => r == Err::<(), ClientError>(ClientError::Crypto(e)) && s1 == s0,
            Ok(v) => match party_number_spec(msg.party_id@) {
                Some(sender) => {
                    &&& r is Ok
                    &&& s1.open_map@ == s0.open_map@.push(
                        (msg.op_id, OpenedShare { value: v as i64, sender_id: sender as i64, Zp: msg.Zp }),
                    )
                    &&& s1 == (RiffClientRest { open_map: s1.open_map, ..s0 })
                },
                None => r == Err::<(), ClientError>(ClientError::UnknownSender) && s1 == s0,
            },
        }
    })
}

/// What keeping `msg` from `p` until its key is known does, from `s0` to `s1`.
pub open spec fn wait_post(s0: RiffClientRest, s1: RiffClientRest, p: PartyId, label: Seq<char>, msg: String) -> bool {
    &&& s1.messagesWaitingKeys@.len() == s0.messagesWaitingKeys@.len() + 1
    &&& s1.messagesWaitingKeys@.drop_last() == s0.messagesWaitingKeys@
    &&& s1.messagesWaitingKeys@.last().0 == p
    &&& s1.messagesWaitingKeys@.last().1.label@ == label
    &&& s1.messagesWaitingKeys@.last().1.msg == msg
    &&& s1 == (RiffClientRest { messagesWaitingKeys: s1.messagesWaitingKeys, ..s0 })
}

/// The secret key of the client, as bytes (none are empty).
pub open spec fn own_secret(c: RiffClientRest) -> Seq<u8> {
    match c.secret_key {
        Some(k) => k@,
        None => Seq::empty(),
    }
}

/// The key known for `p`, as bytes (an unknown key is empty).
pub open spec fn known_key(c: RiffClientRest, p: PartyIdView) -> Seq<u8> {
    match key_in(c.keymap@, p) {
        Some(k) => k,
        None => Seq::empty(),
    }
}

/// The value of a share that arrived, or why it cannot be read.
pub open spec fn share_read(c: RiffClientRest, msg: ShareMessage) -> Result<int, CryptoError> {
    read_share_spec(c.sodium_, msg.share, own_secret(c), known_key(c, msg.party_id@))
}

/// Whether a party id has a number.
fn party_number_known(p: &PartyId) -> (r: bool)
    ensures
        r == party_number_spec(p@) is Some,
{
    match p {
        PartyId::Number(_) => true,
        PartyId::Text(_) => crate::common::party_number(p).is_some(),
    }
}

impl RiffClientRest {
    /// The client invariant: no party has two keys, the operation counts are well
    /// formed, and a ready client is initialized.
    pub open spec fn wf(&self) -> bool {
        &&& keys_wf(self.keymap@)
        &&& counts_wf(self.op_count@)
        &&& self.__ready ==> self.__initialized
    }

    /// The client connects: it counts the attempt, draws a key pair when it has none,
    /// and returns the initialization message for the server.
    pub fn connected(&mut self) -> (r: InitializationMessage)
        requires
            old(self).initialization_counter < i64::MAX,
        ensures
            final(self).initialization_counter == old(self).initialization_counter + 1,
            old(self).secret_key is None && old(self).public_key is None ==> (if old(self).sodium_ {
                (final(self).public_key matches Some(pk) && pk@.len() == 32)
                    && (final(self).secret_key matches Some(sk) && sk@.len() == 32)
            } else {
                final(self).public_key is None && final(self).secret_key is None
            }),
            !(old(self).secret_key is None && old(self).public_key is None) ==> final(self).public_key
                == old(self).public_key && final(self).secret_key == old(self).secret_key,
            *final(self) == (RiffClientRest {
                initialization_counter: final(self).initialization_counter,
                public_key: final(self).public_key,
                secret_key: final(self).secret_key,
                ..*old(self)
            }),
            r.computation_id == final(self).computation_id,
            r.party_id == final(self).id,
            r.party_count == final(self).party_count,
            match final(self).public_key {
                Some(pk) => r.public_key matches Some(t) && t@ == key_text(final(self).sodium_, pk@),
                None => r.public_key is None,
            },
    {
        self.initialization_counter = self.initialization_counter + 1;
        if self.secret_key.is_none() && self.public_key.is_none() {
            let (pk, sk) = serverHooks::generateKeyPair(self.sodium_);
            self.public_key = pk;
            self.secret_key = sk;
        }
        let public_key = match &self.public_key {
            Some(pk) => Some(serverHooks::dumpKey(self.sodium_, pk)),
            None => None,
        };
        InitializationMessage {
            computation_id: self.computation_id.clone(),
            party_id: self.id,
            party_count: self.party_count,
            public_key: public_key,
        }
    }

    /// Stores the keys sent by the server for the parties whose key is not known yet;
    /// then drops the messages that waited for them, and marks the client ready when it
    /// is initialized and knows the server's key. Returns whether it just became ready.
    pub fn store_public_keys(&mut self, keys: &Vec<(PartyId, String)>) -> (r: Result<bool, ClientError>)
        requires
            old(self).wf(),
            sent_keys_unique(keys@),
        ensures
            final(self).wf(),
            store_post(*old(self), *final(self), keys@, r),
    {
        let n = keys.len();
        let mut i: usize = 0;
        while i < n
            invariant
                i <= n,
                n == keys@.len(),
                *self == *old(self),
                self.wf(),
                forall|j: int|
                    0 <= j < i && key_in(self.keymap@, (#[trigger] keys@[j]).0@) is None ==> self.sodium_
                        && parsed_bytes(keys@[j].1@) is Some,
            decreases n - i,
        {
            if !get_key(&self.keymap, &keys[i].0) {
                if !self.sodium_ {
                    return Err(ClientError::KeysUnavailable);
                }
                match serverHooks::parseKey(self.sodium_, keys[i].1.as_str()) {
                    Ok(_) => {},
                    Err(_) => {
                        proof {
                            if exists|k: int|
                                0 <= k < keys@.len() && key_in(self.keymap@, #[trigger] keys@[k].0@) is None
                                    && !self.sodium_ {
                                assert(false);
                            }
                        }
                        return Err(ClientError::InvalidKey);
                    },
                }
            }
            i = i + 1;
        }
        let ghost ok = self.keymap@;
        let mut j: usize = 0;
        while j < n
            invariant
                j <= n,
                n == keys@.len(),
                sent_keys_unique(keys@),
                keys_wf(self.keymap@),
                self.sodium_ == old(self).sodium_,
                ok == old(self).keymap@,
                forall|k: int|
                    0 <= k < n && key_in(ok, (#[trigger] keys@[k]).0@) is None ==> self.sodium_
                        && parsed_bytes(keys@[k].1@) is Some,
                key_map(self.keymap@) == stored_keys(ok, keys@.subrange(0, j as int)),
                *self == (RiffClientRest { keymap: self.keymap, ..*old(self) }),
            decreases n - j,
        {
            let ghost before = self.keymap@;
            let known = get_key(&self.keymap, &keys[j].0);
            if !known {
                proof {
                    let q = keys@[j as int].0@;
                    if key_in(ok, q) is Some {
                        assert(stored_keys(ok, keys@.subrange(0, j as int)).contains_key(q));
                        assert(key_map(before).contains_key(q));
                        assert(false);
                    }
                }
                match serverHooks::parseKey(self.sodium_, keys[j].1.as_str()) {
                    Ok(Some(v)) => {
                        let ghost vv = v@;
                        set_key(&mut self.keymap, &keys[j].0, v);
                        proof {
                            assert(key_map(self.keymap@) == key_map(before).insert(keys@[j as int].0@, vv));
                            assert(vv == parsed_bytes(keys@[j as int].1@)->0);
                        }
                    },
                    _ => {
                        proof {
                            assert(false);
                        }
                    },
                }
            }
            proof {
                let pre = keys@.subrange(0, j as int);
                let post = keys@.subrange(0, j + 1 as int);
                let q = keys@[j as int].0@;
                assert forall|p: PartyIdView| #[trigger] stored_keys(ok, post).contains_key(p) == (stored_keys(
                    ok,
                    pre,
                ).contains_key(p) || p == q) by {
                    if p == q {
                        assert(post[j as int].0@ == q);
                    }
                    if exists|i: int| 0 <= i < post.len() && #[trigger] post[i].0@ == p {
                        let i = choose|i: int| 0 <= i < post.len() && #[trigger] post[i].0@ == p;
                        if i < j {
                            assert(pre[i].0@ == p);
                        }
                    }
                    if exists|i: int| 0 <= i < pre.len() && #[trigger] pre[i].0@ == p {
                        let i = choose|i: int| 0 <= i < pre.len() && #[trigger] pre[i].0@ == p;
                        assert(post[i].0@ == p);
                    }
                }
                assert forall|p: PartyIdView| p != q && #[trigger] stored_keys(ok, post).contains_key(p) implies stored_keys(
                    ok,
                    post,
                )[p] == stored_keys(ok, pre)[p] by {
                    if key_in(ok, p) is None {
                        let i = choose|i: int| 0 <= i < post.len() && #[trigger] post[i].0@ == p;
                        let i2 = choose|i: int| 0 <= i < pre.len() && #[trigger] pre[i].0@ == p;
                        assert(i < j) by {
                            if i == j {
                                assert(post[i].0@ == q);
                            }
                        }
                        assert(post[i] == keys@[i]);
                        assert(pre[i2] == keys@[i2]);
                        if i != i2 {
                            if i < i2 {
                                assert(keys@[i].0@ != keys@[i2].0@);
                            } else {
                                assert(keys@[i2].0@ != keys@[i].0@);
                            }
                        }
                    }
                }
                if key_in(ok, q) is None {
                    assert(post[j as int].0@ == q);
                    let i = choose|i: int| 0 <= i < post.len() && #[trigger] post[i].0@ == q;
                    if i != j {
                        assert(i < j);
                        assert(keys@[i].0@ != keys@[j as int].0@);
                    }
                    assert(!(exists|i: int| 0 <= i < pre.len() && #[trigger] pre[i].0@ == q)) by {
                        if exists|i: int| 0 <= i < pre.len() && #[trigger] pre[i].0@ == q {
                            let i = choose|i: int| 0 <= i < pre.len() && #[trigger] pre[i].0@ == q;
                            assert(pre[i] == keys@[i]);
                            assert(keys@[i].0@ != keys@[j as int].0@);
                        }
                    }
                    assert(!stored_keys(ok, pre).contains_key(q));
                    assert(!key_map(before).contains_key(q));
                    assert(key_in(before, q) is None);
                    assert(stored_keys(ok, post)[q] == parsed_bytes(keys@[j as int].1@)->0);
                } else {
                    assert(stored_keys(ok, pre).contains_key(q));
                    assert(key_map(before).contains_key(q));
                    assert(key_in(before, q) is Some);
                    assert(stored_keys(ok, post)[q] == key_in(ok, q)->0);
                    assert(stored_keys(ok, pre)[q] == key_in(ok, q)->0);
                }
                if known {
                    assert(stored_keys(ok, pre) =~= stored_keys(ok, post));
                } else {
                    assert(stored_keys(ok, pre).insert(q, parsed_bytes(keys@[j as int].1@)->0) =~= stored_keys(
                        ok,
                        post,
                    ));
                }
            }
            j = j + 1;
        }
        proof {
            assert(keys@.subrange(0, n as int) =~= keys@);
        }
        let ghost stored = *self;
        match self.resolve_messages_waiting_for_keys() {
            Err(e) => {
                return Err(e);
            },
            Ok(()) => {},
        }
        let s1 = server_id();
        let has_server = get_key(&self.keymap, &s1);
        if has_server && !self.__ready && self.__initialized {
            self.__ready = true;
            return Ok(true);
        }
        Ok(false)
    }

    /// The client initialized with the server: it takes the id and party count the
    /// server gave, and stores the keys sent.
    pub fn initialized(&mut self, party_id: i64, party_count: i64, public_keys: &Vec<(PartyId, String)>) -> (r:
        Result<bool, ClientError>)
        requires
            old(self).wf(),
            sent_keys_unique(public_keys@),
        ensures
            final(self).wf(),
            store_post(
                RiffClientRest {
                    __initialized: true,
                    initialization_counter: 0,
                    id: Some(party_id),
                    party_count: party_count,
                    ..*old(self)
                },
                *final(self),
                public_keys@,
                r,
            ),
    {
        self.__initialized = true;
        self.initialization_counter = 0;
        self.id = Some(party_id);
        self.party_count = party_count;
        self.store_public_keys(public_keys)
    }

    /// Whether the key of `p` is known: a message from `p` is read at once when it is,
    /// and waits otherwise.
    pub fn knows_key(&self, p: &PartyId) -> (r: bool)
        requires
            self.wf(),
        ensures
            r == key_in(self.keymap@, p@) is Some,
    {
        get_key(&self.keymap, p)
    }

    /// A share arrived: it is received when the key of its sender is known, and waits
    /// for that key otherwise (`raw` is the message as it came).
    pub fn handler_share(&mut self, msg: &ShareMessage, raw: String) -> (r: Result<(), ClientError>)
        requires
            old(self).wf(),
        ensures
            key_in(old(self).keymap@, msg.party_id@) is Some ==> share_post(*old(self), *final(self), *msg, r),
            key_in(old(self).keymap@, msg.party_id@) is None ==> r is Ok && wait_post(
                *old(self),
                *final(self),
                msg.party_id,
                "share"@,
                raw,
            ),
    {
        if self.knows_key(&msg.party_id) {
            self.receive_share(msg)
        } else {
            let label = String::from_str("share");
            self.wait_for_key(&msg.party_id, label, raw);
            assert(self.messagesWaitingKeys@.drop_last() =~= old(self).messagesWaitingKeys@);
            Ok(())
        }
    }

    /// An opened share arrived: it is received when the key of its sender is known, and
    /// waits for that key otherwise (`raw` is the message as it came).
    pub fn handler_open(&mut self, msg: &OpenMessage, raw: String) -> (r: Result<(), ClientError>)
        requires
            old(self).wf(),
        ensures
            key_in(old(self).keymap@, msg.party_id@) is Some ==> open_post(*old(self), *final(self), *msg, r),
            key_in(old(self).keymap@, msg.party_id@) is None ==> r is Ok && wait_post(
                *old(self),
                *final(self),
                msg.party_id,
                "open"@,
                raw,
            ),
    {
        if self.knows_key(&msg.party_id) {
            self.receive_open(msg)
        } else {
            let label = String::from_str("open");
            self.wait_for_key(&msg.party_id, label, raw);
            assert(self.messagesWaitingKeys@.drop_last() =~= old(self).messagesWaitingKeys@);
            Ok(())
        }
    }

    /// Keeps a message from `p` until the key of `p` is known.
    pub fn wait_for_key(&mut self, p: &PartyId, label: String, msg: String)
        ensures
            final(self).messagesWaitingKeys@ == old(self).messagesWaitingKeys@.push(
                (*p, WaitingMessage { label: label, msg: msg }),
            ),
            *final(self) == (RiffClientRest { messagesWaitingKeys: final(self).messagesWaitingKeys, ..*old(self) }),
    {
        self.messagesWaitingKeys.push((copy_party(p), WaitingMessage { label: label, msg: msg }));
    }

    /// A share arrived for an operation: it is read (opened when sodium is on) and kept
    /// as the share of its sender, a numbered party.
    pub fn receive_share(&mut self, msg: &ShareMessage) -> (r: Result<(), ClientError>)
        requires
            old(self).wf(),
        ensures
            share_post(*old(self), *final(self), *msg, r),
    {
        let sk = match &self.secret_key {
            Some(k) => copy_bytes(k),
            None => Vec::new(),
        };
        let pk = match lookup_key(&self.keymap, &msg.party_id) {
            Some(k) => k,
            None => Vec::new(),
        };
        let v = match decryptSign(self.sodium_, &msg.share, &sk, &pk) {
            Ok(v) => v,
            Err(e) => {
                return Err(ClientError::Crypto(e));
            },
        };
        match msg.party_id {
            PartyId::Number(n) => {
                self.share_map.push((msg.op_id.clone(), n, v));
                Ok(())
            },
            PartyId::Text(_) => Err(ClientError::UnknownSender),
        }
    }

    /// An opened share arrived for an operation: a share from another party is read
    /// (opened when sodium is on); the client's own share comes as plain text. It is
    /// kept with the number of its sender and its field.
    pub fn receive_open(&mut self, msg: &OpenMessage) -> (r: Result<(), ClientError>)
        requires
            old(self).wf(),
        ensures
            open_post(*old(self), *final(self), *msg, r),
    {
        let own = match msg.party_id {
            PartyId::Number(n) => match self.id {
                Some(m) => m == n,
                None => false,
            },
            PartyId::Text(_) => false,
        };
        let v = if own {
            match &msg.share {
                ShareText::Plain(t) => match parse_i64_text(t) {
                    Some(v) => v,
                    None => {
                        return Err(ClientError::Crypto(CryptoError::NotANumber));
                    },
                },
                ShareText::Sealed(_) => {
                    return Err(ClientError::Crypto(CryptoError::NotANumber));
                },
            }
        } else {
            let sk = match &self.secret_key {
                Some(k) => copy_bytes(k),
                None => Vec::new(),
            };
            let pk = match lookup_key(&self.keymap, &msg.party_id) {
                Some(k) => k,
                None => Vec::new(),
            };
            match decryptSign(self.sodium_, &msg.share, &sk, &pk) {
                Ok(v) => v,
                Err(e) => {
                    return Err(ClientError::Crypto(e));
                },
            }
        };
        if !party_number_known(&msg.party_id) {
            return Err(ClientError::UnknownSender);
        }
        let sender = get_party_number(&msg.party_id);
        self.open_map.push((msg.op_id.clone(), OpenedShare { value: v, sender_id: sender, Zp: msg.Zp }));
        Ok(())
    }

    /// Values arrived from the crypto provider for an operation: each becomes a share
    /// held by the receivers, with the threshold and field sent.
    pub fn receive_crypto_provider(&mut self, msg: &ProviderMessage)
        ensures
            *final(self) == (RiffClientRest { crypto_map: final(self).crypto_map, ..*old(self) }),
            final(self).crypto_map@.len() == old(self).crypto_map@.len() + 1,
            final(self).crypto_map@.drop_last() == old(self).crypto_map@,
            final(self).crypto_map@.last().0 == msg.op_id,
            final(self).crypto_map@.last().1.values == msg.values,
            match msg.shares {
                None => final(self).crypto_map@.last().1.shares is None,
                Some(values) => final(self).crypto_map@.last().1.shares matches Some(shares) && shares@.len()
                    == values@.len() && forall|i: int|
                    0 <= i < values@.len() ==> {
                        &&& (#[trigger] shares@[i]).value == values@[i]
                        &&& shares@[i].holders@ == msg.receivers@
                        &&& shares@[i].threshold == msg.threshold
                        &&& shares@[i].Zp == msg.Zp
                    },
            },
    {
        let shares = match &msg.shares {
            None => None,
            Some(values) => {
                let mut shares: Vec<SecretShare> = Vec::new();
                let mut i: usize = 0;
                while i < values.len()
                    invariant
                        i <= values@.len(),
                        shares@.len() == i,
                        forall|j: int|
                            0 <= j < i ==> {
                                &&& (#[trigger] shares@[j]).value == values@[j]
                                &&& shares@[j].holders@ == msg.receivers@
                                &&& shares@[j].threshold == msg.threshold
                                &&& shares@[j].Zp == msg.Zp
                            },
                    decreases values.len() - i,
                {
                    shares.push(SecretShare::new(values[i], copy_ids(&msg.receivers), msg.threshold, msg.Zp));
                    i = i + 1;
                }
                Some(shares)
            },
        };
        let values = match &msg.values {
            Some(v) => Some(v.clone()),
            None => None,
        };
        self.crypto_map.push((msg.op_id.clone(), Provided { values: values, shares: shares }));
        assert(self.crypto_map@.drop_last() =~= old(self).crypto_map@);
    }

    /// The messages waiting for keys are dropped for every party whose key is now
    /// known; each must have a known label.
    pub fn resolve_messages_waiting_for_keys(&mut self) -> (r: Result<(), ClientError>)
        requires
            old(self).wf(),
        ensures
            waiting_ok(old(self).messagesWaitingKeys@, old(self).keymap@) ==> {
                &&& r is Ok
                &&& final(self).messagesWaitingKeys@ == still_waiting(
                    old(self).messagesWaitingKeys@,
                    old(self).keymap@,
                )
                &&& *final(self) == (RiffClientRest {
                    messagesWaitingKeys: final(self).messagesWaitingKeys,
                    ..*old(self)
                })
            },
            !waiting_ok(old(self).messagesWaitingKeys@, old(self).keymap@) ==> r == Err::<
                (),
                ClientError,
            >(ClientError::UnknownLabel) && *final(self) == *old(self),
    {
        let share = String::from_str("share");
        let open = String::from_str("open");
        let custom = String::from_str("custom");
        let mut i: usize = 0;
        let n = self.messagesWaitingKeys.len();
        while i < n
            invariant
                i <= n,
                n == self.messagesWaitingKeys@.len(),
                *self == *old(self),
                self.wf(),
                share@ == "share"@,
                open@ == "open"@,
                custom@ == "custom"@,
                forall|j: int|
                    0 <= j < i && key_in(self.keymap@, (#[trigger] self.messagesWaitingKeys@[j]).0@) is Some
                        ==> known_label(self.messagesWaitingKeys@[j].1.label@),
            decreases n - i,
        {
            let has_key = get_key(&self.keymap, &self.messagesWaitingKeys[i].0);
            if has_key {
                let l = &self.messagesWaitingKeys[i].1.label;
                if !(*l == share || *l == open || *l == custom) {
                    return Err(ClientError::UnknownLabel);
                }
            }
            i = i + 1;
        }
        let mut kept: Vec<(PartyId, WaitingMessage)> = Vec::new();
        let ghost q = self.messagesWaitingKeys@;
        let ghost keys = self.keymap@;
        let ghost pred = |e: (PartyId, WaitingMessage)| key_in(keys, e.0@) is None;
        let mut j: usize = 0;
        while j < n
            invariant
                j <= n,
                n == q.len(),
                q == self.messagesWaitingKeys@,
                keys == self.keymap@,
                keys_wf(keys),
                pred == (|e: (PartyId, WaitingMessage)| key_in(keys, e.0@) is None),
                kept@ == q.subrange(0, j as int).filter(pred),
            decreases n - j,
        {
            let has_key = get_key(&self.keymap, &self.messagesWaitingKeys[j].0);
            proof {
                reveal(Seq::filter);
                assert(q.subrange(0, j + 1 as int).drop_last() =~= q.subrange(0, j as int));
            }
            if !has_key {
                let e = &self.messagesWaitingKeys[j];
                kept.push((copy_party(&e.0), WaitingMessage { label: e.1.label.clone(), msg: e.1.msg.clone() }));
            }
            j = j + 1;
        }
        proof {
            assert(q.subrange(0, n as int) =~= q);
        }
        self.messagesWaitingKeys = kept;
        Ok(())
    }
}

} // verus!
