//! What the server does when a party joins or leaves a computation: the free ids,
//! the meta-information of the computation and the public keys.
use vstd::prelude::*;
use crate::common::{PartyId, PartyIdView, int_text, int_to_text};
use crate::hooks::{InitError, serverHooks, server_id, json_bytes, parsed_bytes, before_init_spec};
use crate::intervals::{intervals, spans_nonempty};
use crate::server::{
    add_id,
    ids_view,
    keys_wf,
    parties_wf,
    same_party,
    copy_party,
    key_index,
    key_in,
    key_map,
    ids_unique,
    same_meta,
    Letter,
    ComputationState,
    SpareIds,
    restfulAPI,
};

verus! {

/// What forwarding `msg` under `label` to `to` in computation `c` does: nothing when `to`
/// is the server itself (`"s1"`); otherwise the message is appended to the mailbox of
/// `to`, and nothing else changes.
pub open spec fn forwarded(
    s0: restfulAPI,
    s1: restfulAPI,
    label: Seq<char>,
    c: Seq<char>,
    to: PartyIdView,
    msg: String,
) -> bool {
    if to == PartyIdView::Text("s1"@) {
        s1 == s0
    } else {
        &&& s1.frame(s0, c, to)
        &&& s1.mailbox_of(c, to) matches Some(m) && m.len() > 0 && m.drop_last() == (match s0.mailbox_of(c, to) {
            Some(m) => m,
            None => Seq::empty(),
        }) && m.last().label@ == label && m.last().msg == msg
        &&& s1.tag_of(c, to) == s0.tag_of(c, to)
        &&& s1.pending_of(c, to) == s0.pending_of(c, to)
    }
}

/// Parties that join without asking for an id get the ids in order: when the free ids
/// of the computation are `k..=n`, the joining party gets `k`, and `k+1..=n` stay
/// free. Starting from a computation that is not tracked yet (free ids `1..=n`),
/// successive joins get `1`, `2`, ..., `n`.
pub proof fn law_joins_take_ids_in_order(s: restfulAPI, c: Seq<char>, n: i64, k: u64, id: PartyIdView)
    requires
        s.wf(),
        1 <= k <= n,
        spare_points(s, c, n) == Set::new(|q: u64| k <= q <= n),
        chosen_id(s, c, None, n) == Some(id),
    ensures
        id == PartyIdView::Number(k as int),
        spare_points(s, c, n).remove(k) == Set::new(|q: u64| k + 1 <= q <= n),
{
    let sp = spare_spans(s, c, n);
    match s.spare_of(c) {
        Some(iv) => {
            let i = s.spare_index(c);
            assert(s.spare_ids@[i].ids.gapped());
            iv.lemma_gapped(k);
            iv.lemma_first_is_least();
            assert(iv.points().contains(k));
            assert(sp == iv.spans());
            assert(iv.points().contains(sp[0].0));
            assert(Set::new(|q: u64| k <= q <= n).contains(sp[0].0));
            assert(sp[0].0 == k);
        },
        None => {
            assert(Set::new(|q: u64| 1 <= q <= n).contains(1u64));
            assert(spare_points(s, c, n).contains(1u64));
            assert(k == 1);
            assert(sp[0].0 == 1);
        },
    }
    assert(spare_points(s, c, n).remove(k) =~= Set::new(|q: u64| k + 1 <= q <= n));
}

/// Once every free id is taken, a party that joins without asking for an id gets none
/// (the request fails with `NoFreeId`): when the tracked free ids are empty and the
/// tracked intervals hold no empty one (as `intervals_fn(1, n)` with `n >= 1` and
/// `reserve` keep them), no id is chosen.
pub proof fn law_no_free_id_left(s: restfulAPI, c: Seq<char>, n: i64)
    requires
        s.spare_of(c) matches Some(iv) && spans_nonempty(iv.spans()) && iv.points() == Set::<u64>::empty(),
    ensures
        chosen_id(s, c, None, n) is None,
{
    let iv = s.spare_of(c)->0;
    let sp = iv.spans();
    if sp.len() > 0 {
        assert(sp[0].0 <= sp[0].1);
        assert(iv.covers(sp[0].0));
        assert(iv.points().contains(sp[0].0));
    }
}

/// The text of a party id as the key of a JSON object: its number, or its text.
pub open spec fn party_text(p: PartyIdView) -> Seq<char> {
    match p {
        PartyIdView::Number(n) => int_text(n),
        PartyIdView::Text(t) => t,
    }
}

/// One key of the `"public_keys"` letter: `"party":"key text"`.
pub open spec fn key_entry(k: (PartyId, String)) -> Seq<char> {
    seq!['"'] + party_text(k.0@) + seq!['"', ':', '"'] + k.1@ + seq!['"']
}

/// The keys of the `"public_keys"` letter, separated by commas.
pub open spec fn key_entries(v: Seq<(PartyId, String)>) -> Seq<char>
    decreases v.len(),
{
    if v.len() == 0 {
        Seq::empty()
    } else if v.len() == 1 {
        key_entry(v[0])
    } else {
        key_entries(v.drop_last()) + seq![','] + key_entry(v.last())
    }
}

/// The JSON text of the `"public_keys"` letter: `{"public_keys":{...}}`, the party
/// texts written as they are.
pub open spec fn keys_message(v: Seq<(PartyId, String)>) -> Seq<char> {
    "{\"public_keys\":{"@ + key_entries(v) + "}}"@
}

/// What storing the key of party `p` in computation `c` leaves, from `s0` to `s1`:
/// the meta-information but the keys is kept, `p`'s key is the one it sent, the
/// server has a key pair, and the other keys are kept.
pub open spec fn key_post(s0: restfulAPI, s1: restfulAPI, c: Seq<char>, p: PartyIdView, text: Option<Seq<char>>) -> bool {
    let sv = PartyIdView::Text("s1"@);
    let nc = s1.comp(c);
    let oc = s0.comp(c);
    &&& nc.computation_id == oc.computation_id
    &&& nc.client_ids == oc.client_ids
    &&& nc.max_count == oc.max_count
    &&& nc.free_parties == oc.free_parties
    &&& p != sv ==> s1.key_of(c, p) == parsed_bytes(text->0)
    &&& s0.key_of(c, sv) is None ==> (s1.key_of(c, sv) matches Some(k) && k.len() == 32) && (
    nc.secret_key matches Some(sk) && sk@.len() == 32)
    &&& s0.key_of(c, sv) is Some ==> s1.key_of(c, sv) == s0.key_of(c, sv) && nc.secret_key
        == oc.secret_key
    &&& forall|q: PartyIdView| q != p && q != sv ==> #[trigger] s1.key_of(c, q) == s0.key_of(c, q)
}

/// Every client of computation `c` but `p` (and the server) got a `"public_keys"`
/// letter with the keys `sent`; the records of the others are kept.
pub open spec fn sent_keys_post(s0: restfulAPI, s1: restfulAPI, c: Seq<char>, p: PartyIdView, sent: Seq<(PartyId, String)>) -> bool {
    let clients = ids_view(s0.comp(c).client_ids@);
    &&& forall|p2: PartyIdView|
        #![trigger s1.record(c, p2)]
        gets_letter(clients, p, p2) ==> emitted(s0, s1, c, p2, "public_keys"@, keys_message(sent))
    &&& forall|p2: PartyIdView|
        #![trigger s1.record(c, p2)]
        !gets_letter(clients, p, p2) ==> s1.record(c, p2) == s0.record(c, p2)
}

/// The text of a party id as the key of a JSON object.
fn party_key_text(p: &PartyId) -> (r: String)
    ensures
        r@ == party_text(p@),
{
    match p {
        PartyId::Number(n) => int_to_text(*n),
        PartyId::Text(t) => t.clone(),
    }
}

/// The JSON text of the `"public_keys"` letter for the keys `v`.
pub fn keys_message_text(v: &Vec<(PartyId, String)>) -> (r: String)
    ensures
        r@ == keys_message(v@),
{
    let mut s = String::new();
    s.append("{\"public_keys\":{");
    let ghost head = s@;
    let mut i: usize = 0;
    while i < v.len()
        invariant
            i <= v@.len(),
            s@ == head + key_entries(v@.subrange(0, i as int)),
        decreases v.len() - i,
    {
        let ghost pre = s@;
        let ghost sub = v@.subrange(0, i as int);
        if i > 0 {
            s.append(",");
            proof {
                reveal_strlit(",");
            }
        }
        s.append("\"");
        let t = party_key_text(&v[i].0);
        s.append(t.as_str());
        s.append("\":\"");
        s.append(v[i].1.as_str());
        s.append("\"");
        proof {
            reveal_strlit("\"");
            reveal_strlit("\":\"");
            let next = v@.subrange(0, i + 1 as int);
            assert(next.drop_last() =~= sub);
            assert(next.last() == v@[i as int]);
            if i == 0 {
                assert(key_entries(sub) =~= Seq::<char>::empty());
                assert(s@ =~= head + key_entries(next));
            } else {
                assert(s@ =~= head + key_entries(next));
            }
        }
        i = i + 1;
    }
    s.append("}}");
    assert(v@.subrange(0, v@.len() as int) =~= v@);
    s
}

/// In a list of keys where no party stands twice, the index of `p` is where it stands.
pub(crate) proof fn lemma_key_index(keys: Seq<(PartyId, Vec<u8>)>, p: PartyIdView, i: int)
    requires
        keys_wf(keys),
        0 <= i < keys.len(),
        keys[i].0@ == p,
    ensures
        key_index(keys, p) == i,
{
    let j = choose|j: int| 0 <= j < keys.len() && #[trigger] keys[j].0@ == p;
    if j < i {
        assert(keys[j].0@ != keys[i].0@);
    } else if j > i {
        assert(keys[i].0@ != keys[j].0@);
    }
}

/// Stores `key` as the key of `p`, in place of its former key if it had one.
pub(crate) fn set_key(keys: &mut Vec<(PartyId, Vec<u8>)>, p: &PartyId, key: Vec<u8>)
    requires
        keys_wf(old(keys)@),
    ensures
        keys_wf(final(keys)@),
        key_map(final(keys)@) == key_map(old(keys)@).insert(p@, key@),
{
    let ghost ok = keys@;
    let ghost kv = key@;
    let mut i: usize = 0;
    while i < keys.len()
        invariant
            i <= keys@.len(),
            keys@ == ok,
            ok == old(keys)@,
            key@ == kv,
            keys_wf(ok),
            forall|j: int| 0 <= j < i ==> #[trigger] ok[j].0@ != p@,
        decreases keys.len() - i,
    {
        if same_party(&keys[i].0, p) {
            keys.set(i, (copy_party(p), key));
            proof {
                let nk = keys@;
                assert forall|a: int, b: int| 0 <= a < b < nk.len() implies #[trigger] nk[a].0@
                    != #[trigger] nk[b].0@ by {
                    assert(nk[a].0@ == ok[a].0@);
                    assert(nk[b].0@ == ok[b].0@);
                }
                lemma_key_index(nk, p@, i as int);
                assert(nk[i as int].1@ == kv);
                assert(key_in(nk, p@) == Some(kv));
                assert forall|q: PartyIdView| q != p@ implies #[trigger] key_in(nk, q) == key_in(ok, q) by {
                    if key_in(ok, q) is Some {
                        let k = key_index(ok, q);
                        lemma_key_index(ok, q, k);
                        lemma_key_index(nk, q, k);
                    }
                    if key_in(nk, q) is Some {
                        let k = key_index(nk, q);
                        lemma_key_index(nk, q, k);
                        lemma_key_index(ok, q, k);
                    }
                }
                assert(key_map(nk) =~= key_map(ok).insert(p@, kv));
            }
            return;
        }
        i = i + 1;
    }
    keys.push((copy_party(p), key));
    proof {
        let nk = keys@;
        let n = ok.len() as int;
        assert forall|a: int, b: int| 0 <= a < b < nk.len() implies #[trigger] nk[a].0@ != #[trigger] nk[b].0@ by {
            assert(nk[a] == ok[a]);
            if b < n {
                assert(nk[b] == ok[b]);
            }
        }
        lemma_key_index(nk, p@, n);
        assert forall|q: PartyIdView| q != p@ implies #[trigger] key_in(nk, q) == key_in(ok, q) by {
            if key_in(ok, q) is Some {
                let k = key_index(ok, q);
                lemma_key_index(ok, q, k);
                assert(nk[k] == ok[k]);
                lemma_key_index(nk, q, k);
            }
            if key_in(nk, q) is Some {
                let k = key_index(nk, q);
                lemma_key_index(nk, q, k);
                assert(k != n);
                assert(nk[k] == ok[k]);
                lemma_key_index(ok, q, k);
            }
        }
        assert(key_map(nk) =~= key_map(ok).insert(p@, kv));
    }
}

/// The key of `p`, if any.
pub(crate) fn get_key(keys: &Vec<(PartyId, Vec<u8>)>, p: &PartyId) -> (r: bool)
    requires
        keys_wf(keys@),
    ensures
        r == key_in(keys@, p@) is Some,
{
    let mut i: usize = 0;
    while i < keys.len()
        invariant
            i <= keys@.len(),
            keys_wf(keys@),
            forall|j: int| 0 <= j < i ==> #[trigger] keys@[j].0@ != p@,
        decreases keys.len() - i,
    {
        if same_party(&keys[i].0, p) {
            proof {
                lemma_key_index(keys@, p@, i as int);
            }
            return true;
        }
        i = i + 1;
    }
    false
}

/// The key map after a party joins: the server's key when a pair was drawn for it,
/// then the key of the party when it sent one.
pub open spec fn keys_after(
    m: Map<PartyIdView, Seq<u8>>,
    p: PartyIdView,
    public_key: Option<Seq<u8>>,
    server_key: Option<Seq<u8>>,
) -> Map<PartyIdView, Seq<u8>> {
    let m1 = match server_key {
        Some(k) => m.insert(PartyIdView::Text("s1"@), k),
        None => m,
    };
    match public_key {
        Some(k) => m1.insert(p, k),
        None => m1,
    }
}

/// The error, if any, of storing the keys when party `p` joins computation `c`:
/// the server needs a key pair and sodium is off, or the party sent no readable key.
pub open spec fn keys_error(
    s: restfulAPI,
    c: Seq<char>,
    p: PartyIdView,
    public_key: Option<Seq<char>>,
) -> Option<InitError> {
    if s.key_of(c, PartyIdView::Text("s1"@)) is None && !s.sodium {
        Some(InitError::KeysUnavailable)
    } else if p != PartyIdView::Text("s1"@) {
        if !s.sodium {
            Some(InitError::KeysUnavailable)
        } else {
            match public_key {
                None => Some(InitError::InvalidPublicKey),
                Some(t) => if parsed_bytes(t) is None {
                    Some(InitError::InvalidPublicKey)
                } else {
                    None
                },
            }
        }
    } else {
        None
    }
}

/// The text sent for each stored key: its JSON text when sodium is on.
pub open spec fn dumped_keys(keys: Seq<(PartyId, Vec<u8>)>, sodium: bool, r: Seq<(PartyId, String)>) -> bool {
    &&& r.len() == keys.len()
    &&& forall|i: int|
        0 <= i < keys.len() ==> (#[trigger] r[i]).0 == keys[i].0 && r[i].1@ == (if sodium {
            json_bytes(keys[i].1@)
        } else {
            Seq::<char>::empty()
        })
}

/// A copy of a list of party ids.
pub fn copy_party_ids(v: &Vec<PartyId>) -> (r: Vec<PartyId>)
    ensures
        r@ == v@,
{
    let mut r: Vec<PartyId> = Vec::new();
    let mut i: usize = 0;
    while i < v.len()
        invariant
            i <= v@.len(),
            r@ == v@.subrange(0, i as int),
        decreases v.len() - i,
    {
        r.push(copy_party(&v[i]));
        i = i + 1;
        assert(r@ =~= v@.subrange(0, i as int));
    }
    assert(v@.subrange(0, v@.len() as int) =~= v@);
    r
}

/// Party `p` of computation `c` got a letter with `label` and `msg` at the end of its
/// mailbox from `s0` to `s1`; its tag and pending delivery stayed.
pub open spec fn emitted(
    s0: restfulAPI,
    s1: restfulAPI,
    c: Seq<char>,
    p: PartyIdView,
    label: Seq<char>,
    msg: Seq<char>,
) -> bool {
    let m0 = match s0.mailbox_of(c, p) {
        Some(m) => m,
        None => Seq::empty(),
    };
    &&& s1.mailbox_of(c, p) matches Some(m1) && m1.len() == m0.len() + 1 && m1.subrange(
        0,
        m0.len() as int,
    ) == m0 && m1.last().label@ == label && m1.last().msg@ == msg
    &&& s1.tag_of(c, p) == s0.tag_of(c, p)
    &&& s1.pending_of(c, p) == s0.pending_of(c, p)
    &&& s1.record(c, p) is Some
}

/// Whether party `p` is among `clients`, and is neither `except` nor the server.
pub open spec fn gets_letter(clients: Seq<PartyIdView>, except: PartyIdView, p: PartyIdView) -> bool {
    clients.contains(p) && p != except && p != PartyIdView::Text("s1"@)
}

/// From `s0` to `s1`, each party `p` of computation `c` for which `gets_letter` holds
/// got a letter with `label` and `msg`, and nothing else changed but those mailboxes.
pub open spec fn broadcast_post(
    s0: restfulAPI,
    s1: restfulAPI,
    c: Seq<char>,
    label: Seq<char>,
    msg: Seq<char>,
    clients: Seq<PartyIdView>,
    except: PartyIdView,
) -> bool {
    &&& s1.wf()
    &&& s1.sodium == s0.sodium
    &&& s1.spare_ids == s0.spare_ids
    &&& forall|c2: Seq<char>| #[trigger] s1.registered(c2) == s0.registered(c2)
    &&& forall|c2: Seq<char>|
        s1.registered(c2) ==> crate::server::same_meta(#[trigger] s1.comp(c2), s0.comp(c2))
    &&& forall|c2: Seq<char>, p2: PartyIdView| c2 != c ==> #[trigger] s1.record(c2, p2) == s0.record(c2, p2)
    &&& forall|c2: Seq<char>| c2 != c && s0.registered(c2) ==> #[trigger] s1.comp(c2) == s0.comp(c2)
    &&& forall|p2: PartyIdView|
        #![trigger s1.record(c, p2)]
        gets_letter(clients, except, p2) ==> emitted(s0, s1, c, p2, label, msg)
    &&& forall|p2: PartyIdView|
        #![trigger s1.record(c, p2)]
        !gets_letter(clients, except, p2) ==> s1.record(c, p2) == s0.record(c, p2)
}

/// The party count used when a party joins: the one sent, else the one saved for
/// the computation.
pub open spec fn init_count(s: restfulAPI, c: Seq<char>, party_count: Option<i64>) -> Option<i64> {
    match party_count {
        Some(n) => Some(n),
        None => if s.registered(c) {
            Some(s.comp(c).max_count)
        } else {
            None
        },
    }
}

/// The intervals of free ids a joining party draws from: the tracked ones, else
/// `1..=count`.
pub open spec fn spare_spans(s: restfulAPI, c: Seq<char>, count: i64) -> Seq<(u64, u64)> {
    match s.spare_of(c) {
        Some(iv) => iv.spans(),
        None => seq![(1u64, count as u64)],
    }
}

/// The free ids a joining party draws from: the tracked ones, else `1..=count`.
pub open spec fn spare_points(s: restfulAPI, c: Seq<char>, count: i64) -> Set<u64> {
    match s.spare_of(c) {
        Some(iv) => iv.points(),
        None => Set::new(|q: u64| 1 <= q <= count),
    }
}

/// The id a joining party gets: the one it asked for, else the first free one.
pub open spec fn chosen_id(s: restfulAPI, c: Seq<char>, pid: Option<PartyIdView>, count: i64) -> Option<
    PartyIdView,
> {
    match pid {
        Some(q) => Some(q),
        None => {
            let sp = spare_spans(s, c, count);
            if sp.len() > 0 && sp[0].0 <= i64::MAX {
                Some(PartyIdView::Number(sp[0].0 as int))
            } else {
                None
            }
        },
    }
}

/// Whether the request asks for the server's id without being the server.
pub open spec fn asks_reserved(pid: Option<PartyIdView>, s1: bool) -> bool {
    !s1 && pid == Some(PartyIdView::Text("s1"@))
}

/// Whether a join request starts tracking the free ids of the computation.
pub open spec fn starts_tracking(s: restfulAPI, c: Seq<char>, pid: Option<PartyIdView>, party_count: Option<i64>, s1: bool) -> bool {
    &&& !asks_reserved(pid, s1)
    &&& s.spare_of(c) is None
    &&& init_count(s, c, party_count) matches Some(n) && n >= 0
}

/// The error, if any, of a request to join computation `c` of state `s`.
pub open spec fn init_error(
    s: restfulAPI,
    c: Seq<char>,
    pid: Option<PartyIdView>,
    party_count: Option<i64>,
    public_key: Option<Seq<char>>,
    s1: bool,
) -> Option<InitError> {
    let count = init_count(s, c, party_count);
    if asks_reserved(pid, s1) {
        Some(InitError::ReservedId)
    } else if s.spare_of(c) is None && count is None {
        Some(InitError::NoPartyCount)
    } else if s.spare_of(c) is None && count->0 < 0 {
        Some(InitError::PartyCountTooSmall)
    } else {
        match before_init_spec(s, c, pid, count) {
            Some(e) => Some(e),
            None => match chosen_id(s, c, pid, count->0) {
                None => Some(InitError::NoFreeId),
                Some(id) => keys_error(s, c, id, public_key),
            },
        }
    }
}

/// What a party that joined gets back: its id, the party count and the keys to send,
/// each with its text.
pub struct InitOutcome {
    pub party_id: PartyId,
    pub party_count: i64,
    pub public_keys: Vec<(PartyId, String)>,
}

impl restfulAPI {
    /// A server with no computation.
    pub fn new(sodium: bool) -> (r: restfulAPI)
        ensures
            r.wf(),
            r.sodium == sodium,
            forall|c: Seq<char>| !#[trigger] r.registered(c),
            forall|c: Seq<char>| #[trigger] r.spare_of(c) is None,
    {
        restfulAPI { computations: Vec::new(), spare_ids: Vec::new(), sodium: sodium }
    }

    /// Adds a computation that has not been initialized, with no client, key or
    /// message yet.
    fn add_computation(&mut self, c: &String, party_count: i64)
        requires
            old(self).wf(),
            !old(self).registered(c@),
        ensures
            final(self).wf(),
            final(self).spare_ids == old(self).spare_ids,
            final(self).sodium == old(self).sodium,
            final(self).registered(c@),
            final(self).comp(c@).computation_id@ == c@,
            final(self).comp(c@).client_ids@.len() == 0,
            final(self).comp(c@).max_count == party_count,
            final(self).comp(c@).keys@.len() == 0,
            final(self).comp(c@).secret_key is None,
            final(self).comp(c@).free_parties@.len() == 0,
            final(self).comp(c@).parties@.len() == 0,
            final(self).computations@.len() == old(self).computations@.len() + 1,
            final(self).comp_index(c@) == old(self).computations@.len(),
            forall|c2: Seq<char>| c2 != c@ ==> #[trigger] final(self).registered(c2) == old(self).registered(c2),
            forall|c2: Seq<char>|
                c2 != c@ && old(self).registered(c2) ==> #[trigger] final(self).comp(c2) == old(self).comp(c2),
    {
        let ghost olds = self.computations@;
        let comp = ComputationState {
            computation_id: c.clone(),
            client_ids: Vec::new(),
            max_count: party_count,
            keys: Vec::new(),
            secret_key: None,
            free_parties: Vec::new(),
            parties: Vec::new(),
        };
        self.computations.push(comp);
        proof {
            let s = self.computations@;
            let n = olds.len() as int;
            assert forall|a: int, b: int| 0 <= a < b < s.len() implies #[trigger] s[a].computation_id@
                != #[trigger] s[b].computation_id@ by {
                if b == n {
                    assert(olds[a] == s[a]);
                    assert(!(0 <= a < olds.len() && #[trigger] olds[a].computation_id@ == c@));
                } else {
                    assert(olds[a] == s[a]);
                    assert(olds[b] == s[b]);
                }
            }
            assert forall|a: int| 0 <= a < s.len() implies parties_wf(#[trigger] s[a].parties@) by {
                if a < n {
                    assert(olds[a] == s[a]);
                }
            }
            assert forall|a: int| 0 <= a < s.len() implies keys_wf(#[trigger] s[a].keys@) by {
                if a < n {
                    assert(olds[a] == s[a]);
                }
            }
            assert forall|a: int| 0 <= a < s.len() implies ids_unique(#[trigger] s[a].client_ids@) by {
                if a < n {
                    assert(olds[a] == s[a]);
                }
            }
            self.lemma_comp_index(c@, n);
            assert forall|c2: Seq<char>| c2 != c@ && old(self).registered(c2) implies #[trigger] self.comp(
                c2,
            ) == old(self).comp(c2) by {
                let k = old(self).comp_index(c2);
                old(self).lemma_comp_index(c2, k);
                assert(s[k] == olds[k]);
                self.lemma_comp_index(c2, k);
            }
            assert forall|c2: Seq<char>| c2 != c@ implies #[trigger] self.registered(c2) == old(
                self,
            ).registered(c2) by {
                if old(self).registered(c2) {
                    let k = old(self).comp_index(c2);
                    old(self).lemma_comp_index(c2, k);
                    assert(s[k] == olds[k]);
                    self.lemma_comp_index(c2, k);
                }
                if self.registered(c2) {
                    let k = self.comp_index(c2);
                    self.lemma_comp_index(c2, k);
                    assert(k != n);
                    assert(s[k] == olds[k]);
                    old(self).lemma_comp_index(c2, k);
                }
            }
        }
    }

    /// Makes sure the meta-information of a computation exists (with `party_count` as
    /// its party count when it is new), records `party_id` among its clients and starts
    /// the tag of the party at 0 when it has none.
    pub fn initComputation(&mut self, computation_id: &String, party_id: &PartyId, party_count: i64)
        requires
            old(self).wf(),
        ensures
            final(self).wf(),
            final(self).spare_ids == old(self).spare_ids,
            final(self).sodium == old(self).sodium,
            final(self).registered(computation_id@),
            forall|c2: Seq<char>|
                c2 != computation_id@ ==> #[trigger] final(self).registered(c2) == old(self).registered(c2),
            forall|c2: Seq<char>|
                c2 != computation_id@ && old(self).registered(c2) ==> #[trigger] final(self).comp(c2)
                    == old(self).comp(c2),
            ({
                let c = computation_id@;
                let p = party_id@;
                let fresh = !old(self).registered(c);
                let nc = final(self).comp(c);
                let oc = old(self).comp(c);
                &&& nc.computation_id@ == c
                &&& nc.max_count == (if fresh {
                    party_count
                } else {
                    oc.max_count
                })
                &&& ids_view(nc.client_ids@) == add_id(
                    if fresh {
                        Seq::empty()
                    } else {
                        ids_view(oc.client_ids@)
                    },
                    p,
                )
                &&& fresh ==> nc.keys@.len() == 0 && nc.secret_key is None
                    && nc.free_parties@.len() == 0
                &&& !fresh ==> nc.keys == oc.keys && nc.secret_key == oc.secret_key
                    && nc.free_parties == oc.free_parties
                &&& final(self).tag_of(c, p) == Some(
                    match old(self).tag_of(c, p) {
                        Some(t) => t,
                        None => 0u64,
                    },
                )
                &&& final(self).mailbox_of(c, p) == old(self).mailbox_of(c, p)
                &&& final(self).pending_of(c, p) == old(self).pending_of(c, p)
                &&& forall|p2: PartyIdView|
                    p2 != p ==> #[trigger] final(self).record(c, p2) == old(self).record(c, p2)
            }),
    {
        let ci = match self.find_computation(computation_id) {
            Some(ci) => ci,
            None => {
                self.add_computation(computation_id, party_count);
                self.computations.len() - 1
            },
        };
        let ghost mid = *self;
        let mut comp = self.computations.remove(ci);
        proof {
            assert(comp == mid.computations@[ci as int]);
            assert(parties_wf(comp.parties@));
            assert(keys_wf(comp.keys@));
            mid.lemma_comp_index(computation_id@, ci as int);
        }
        comp.init_party(party_id);
        self.computations.insert(ci, comp);
        proof {
            self.lemma_lift(&mid, ci as int);
            let c = computation_id@;
            if !old(self).registered(c) {
                assert(ids_view(mid.comp(c).client_ids@) =~= Seq::<PartyIdView>::empty());
                assert forall|p2: PartyIdView| #[trigger] mid.record(c, p2) is None by {}
            }
        }
    }

    /// Stores the keys when party `p` joins computation `c`: the server's pair when it
    /// has no key yet and a pair is given, and the key of `p` when it is not the server
    /// and sent one.
    pub fn store_keys(
        &mut self,
        computation_id: &String,
        party_id: &PartyId,
        public_key: Option<Vec<u8>>,
        server_pair: Option<(Vec<u8>, Vec<u8>)>,
    )
        requires
            old(self).wf(),
            old(self).registered(computation_id@),
        ensures
            final(self).wf(),
            final(self).spare_ids == old(self).spare_ids,
            final(self).sodium == old(self).sodium,
            forall|c2: Seq<char>| #[trigger] final(self).registered(c2) == old(self).registered(c2),
            forall|c2: Seq<char>|
                c2 != computation_id@ && old(self).registered(c2) ==> #[trigger] final(self).comp(c2)
                    == old(self).comp(c2),
            ({
                let c = computation_id@;
                let nc = final(self).comp(c);
                let oc = old(self).comp(c);
                let gen = key_in(oc.keys@, PartyIdView::Text("s1"@)) is None && server_pair is Some;
                &&& nc.computation_id == oc.computation_id
                &&& nc.client_ids == oc.client_ids
                &&& nc.max_count == oc.max_count
                &&& nc.free_parties == oc.free_parties
                &&& nc.parties == oc.parties
                &&& nc.secret_key == (if gen {
                    Some((server_pair->0).1)
                } else {
                    oc.secret_key
                })
                &&& key_map(nc.keys@) == keys_after(
                    key_map(oc.keys@),
                    party_id@,
                    if party_id@ != PartyIdView::Text("s1"@) && public_key is Some {
                        Some(public_key->0@)
                    } else {
                        None
                    },
                    if gen {
                        Some((server_pair->0).0@)
                    } else {
                        None
                    },
                )
            }),
    {
        let ci = match self.find_computation(computation_id) {
            Some(ci) => ci,
            None => {
                return;
            },
        };
        let mut comp = self.computations.remove(ci);
        proof {
            assert(comp == old(self).computations@[ci as int]);
            assert(parties_wf(comp.parties@));
            assert(keys_wf(comp.keys@));
            assert(ids_unique(comp.client_ids@));
            old(self).lemma_comp_index(computation_id@, ci as int);
        }
        let ghost m0 = key_map(comp.keys@);
        let s1 = server_id();
        let has_server_key = get_key(&comp.keys, &s1);
        if !has_server_key {
            if let Some((pk, sk)) = server_pair {
                set_key(&mut comp.keys, &s1, pk);
                comp.secret_key = Some(sk);
            }
        }
        let ghost m1 = key_map(comp.keys@);
        if !same_party(party_id, &s1) {
            if let Some(k) = public_key {
                set_key(&mut comp.keys, party_id, k);
            }
        }
        self.computations.insert(ci, comp);
        proof {
            self.lemma_lift(old(self), ci as int);
        }
    }

    /// The stored keys of a computation, each with the text sent for it.
    pub fn public_keys(&self, computation_id: &String) -> (r: Vec<(PartyId, String)>)
        requires
            self.wf(),
            self.registered(computation_id@),
        ensures
            dumped_keys(self.comp(computation_id@).keys@, self.sodium, r@),
    {
        let ci = match self.find_computation(computation_id) {
            Some(ci) => ci,
            None => {
                return Vec::new();
            },
        };
        let keys = &self.computations[ci].keys;
        let mut r: Vec<(PartyId, String)> = Vec::new();
        let mut i: usize = 0;
        while i < keys.len()
            invariant
                i <= keys@.len(),
                r@.len() == i,
                forall|j: int|
                    0 <= j < i ==> (#[trigger] r@[j]).0 == keys@[j].0 && r@[j].1@ == (if self.sodium {
                        json_bytes(keys@[j].1@)
                    } else {
                        Seq::<char>::empty()
                    }),
            decreases keys.len() - i,
        {
            let text = serverHooks::dumpKey(self.sodium, &keys[i].1);
            r.push((copy_party(&keys[i].0), text));
            i = i + 1;
        }
        r
    }

    /// Stores the public key sent by `party_id` (the JSON text of its bytes) and, the
    /// first time, a fresh key pair of the server; returns the keys to send, each with
    /// its text.
    fn store_public_key(
        &mut self,
        computation_id: &String,
        party_id: &PartyId,
        public_key: Option<String>,
    ) -> (r: Result<Vec<(PartyId, String)>, InitError>)
        requires
            old(self).wf(),
            old(self).registered(computation_id@),
        ensures
            final(self).wf(),
            final(self).spare_ids == old(self).spare_ids,
            final(self).sodium == old(self).sodium,
            forall|c2: Seq<char>| #[trigger] final(self).registered(c2) == old(self).registered(c2),
            forall|c2: Seq<char>|
                c2 != computation_id@ && old(self).registered(c2) ==> #[trigger] final(self).comp(c2)
                    == old(self).comp(c2),
            ({
                let c = computation_id@;
                let p = party_id@;
                let s1 = PartyIdView::Text("s1"@);
                let nc = final(self).comp(c);
                let oc = old(self).comp(c);
                let text = match public_key {
                    Some(t) => Some(t@),
                    None => None,
                };
                match keys_error(*old(self), c, p, text) {
                    Some(e) => r == Err::<Vec<(PartyId, String)>, InitError>(e) && *final(self)
                        == *old(self),
                    None => {
                        &&& r matches Ok(sent) && dumped_keys(nc.keys@, final(self).sodium, sent@)
                        &&& nc.computation_id == oc.computation_id
                        &&& nc.client_ids == oc.client_ids
                        &&& nc.max_count == oc.max_count
                        &&& nc.free_parties == oc.free_parties
                        &&& nc.parties == oc.parties
                        &&& p != s1 ==> final(self).key_of(c, p) == parsed_bytes(text->0)
                        &&& old(self).key_of(c, s1) is None ==> (final(self).key_of(c, s1) matches Some(
                            k,
                        ) && k.len() == 32) && (nc.secret_key matches Some(sk) && sk@.len() == 32)
                        &&& old(self).key_of(c, s1) is Some ==> final(self).key_of(c, s1) == old(
                            self,
                        ).key_of(c, s1) && nc.secret_key == oc.secret_key
                        &&& forall|q: PartyIdView|
                            q != p && q != s1 ==> #[trigger] final(self).key_of(c, q) == old(self).key_of(
                                c,
                                q,
                            )
                    },
                }
            }),
    {
        let ci = match self.find_computation(computation_id) {
            Some(ci) => ci,
            None => {
                return Err(InitError::KeysUnavailable);
            },
        };
        proof {
            assert(keys_wf(self.computations@[ci as int].keys@));
        }
        let s1 = server_id();
        let missing = !get_key(&self.computations[ci].keys, &s1);
        if missing && !self.sodium {
            return Err(InitError::KeysUnavailable);
        }
        let is_server = same_party(party_id, &s1);
        let key = if !is_server {
            if !self.sodium {
                return Err(InitError::KeysUnavailable);
            }
            match public_key {
                None => {
                    return Err(InitError::InvalidPublicKey);
                },
                Some(text) => match serverHooks::parseKey(self.sodium, text.as_str()) {
                    Ok(Some(v)) => Some(v),
                    Ok(None) => {
                        return Err(InitError::KeysUnavailable);
                    },
                    Err(e) => {
                        return Err(e);
                    },
                },
            }
        } else {
            None
        };
        let pair = if missing {
            match serverHooks::generateKeyPair(self.sodium) {
                (Some(pk), Some(sk)) => Some((pk, sk)),
                _ => None,
            }
        } else {
            None
        };
        self.store_keys(computation_id, party_id, key, pair);
        proof {
            let c = computation_id@;
            let nk = self.comp(c).keys@;
            let ok = old(self).comp(c).keys@;
            assert forall|q: PartyIdView| #[trigger] key_in(nk, q) == (if key_map(nk).contains_key(q) {
                Some(key_map(nk)[q])
            } else {
                None
            }) by {}
            assert forall|q: PartyIdView| #[trigger] key_in(ok, q) == (if key_map(ok).contains_key(q) {
                Some(key_map(ok)[q])
            } else {
                None
            }) by {}
        }
        Ok(self.public_keys(computation_id))
    }

    /// Stores the public key sent by `party_id` (the JSON text of its bytes) and, the
    /// first time, a fresh key pair of the server; then sends the keys to every other
    /// client of the computation in a `"public_keys"` letter, and returns them, each
    /// with its text.
    pub fn storeAndSendPublicKey(
        &mut self,
        computation_id: &String,
        party_id: &PartyId,
        public_key: Option<String>,
    ) -> (r: Result<Vec<(PartyId, String)>, InitError>)
        requires
            old(self).wf(),
            old(self).registered(computation_id@),
        ensures
            final(self).wf(),
            final(self).spare_ids == old(self).spare_ids,
            final(self).sodium == old(self).sodium,
            forall|c2: Seq<char>| #[trigger] final(self).registered(c2) == old(self).registered(c2),
            forall|c2: Seq<char>|
                c2 != computation_id@ && old(self).registered(c2) ==> #[trigger] final(self).comp(c2)
                    == old(self).comp(c2),
            ({
                let c = computation_id@;
                let p = party_id@;
                let s1 = PartyIdView::Text("s1"@);
                let nc = final(self).comp(c);
                let oc = old(self).comp(c);
                let text = match public_key {
                    Some(t) => Some(t@),
                    None => None,
                };
                match keys_error(*old(self), c, p, text) {
                    Some(e) => r == Err::<Vec<(PartyId, String)>, InitError>(e) && *final(self)
                        == *old(self),
                    None => {
                        &&& r matches Ok(sent) && dumped_keys(nc.keys@, final(self).sodium, sent@)
                            && key_post(*old(self), *final(self), c, p, text)
                            && sent_keys_post(*old(self), *final(self), c, p, sent@)
                    },
                }
            }),
    {
        let ghost text = match public_key {
            Some(ref t) => Some(t@),
            None => None,
        };
        let ghost err = keys_error(*old(self), computation_id@, party_id@, text);
        let r = self.store_public_key(computation_id, party_id, public_key);
        match r {
            Err(e) => {
                assert(err is Some);
                assert(r == Err::<Vec<(PartyId, String)>, InitError>(err->0));
                Err(e)
            },
            Ok(sent) => {
                let ghost stored = *self;
                let message = keys_message_text(&sent);
                self.send_public_keys(message, computation_id, party_id);
                proof {
                    let c = computation_id@;
                    let p = party_id@;
                    assert(err is None);
                    assert(same_meta(self.comp(c), stored.comp(c)));
                    assert forall|q: PartyIdView| #[trigger] self.key_of(c, q) == stored.key_of(c, q) by {}
                    assert(key_post(*old(self), stored, c, p, text));
                    assert(key_post(*old(self), *self, c, p, text));
                    assert forall|q: PartyIdView| #[trigger] stored.record(c, q) == old(self).record(c, q) by {}
                    assert(ids_view(stored.comp(c).client_ids@) == ids_view(old(self).comp(c).client_ids@));
                    assert forall|p2: PartyIdView|
                        gets_letter(ids_view(old(self).comp(c).client_ids@), p, p2) implies emitted(
                            *old(self),
                            *self,
                            c,
                            p2,
                            "public_keys"@,
                            keys_message(sent@),
                        ) by {
                        assert(self.record(c, p2) == self.record(c, p2));
                        assert(emitted(stored, *self, c, p2, "public_keys"@, keys_message(sent@)));
                        assert(stored.record(c, p2) == old(self).record(c, p2));
                    }
                    assert forall|p2: PartyIdView|
                        !gets_letter(ids_view(old(self).comp(c).client_ids@), p, p2) implies #[trigger] self.record(c, p2)
                            == old(self).record(c, p2) by {
                        assert(self.record(c, p2) == stored.record(c, p2));
                        assert(stored.record(c, p2) == old(self).record(c, p2));
                    }
                    assert(sent_keys_post(*old(self), *self, c, p, sent@));
                    assert forall|c2: Seq<char>|
                        c2 != c && old(self).registered(c2) implies #[trigger] self.comp(c2) == old(
                            self,
                        ).comp(c2) by {
                        assert(stored.registered(c2));
                    }
                }
                Ok(sent)
            },
        }
    }

    /// Sends the public keys to every client of the computation but `except` (and the
    /// server itself): each gets a `"public_keys"` letter holding `message`.
    pub fn send_public_keys(&mut self, message: String, computation_id: &String, except: &PartyId)
        requires
            old(self).wf(),
            old(self).registered(computation_id@),
        ensures
            broadcast_post(
                *old(self),
                *final(self),
                computation_id@,
                "public_keys"@,
                message@,
                ids_view(old(self).comp(computation_id@).client_ids@),
                except@,
            ),
    {
        let ghost c = computation_id@;
        let ci = match self.find_computation(computation_id) {
            Some(ci) => ci,
            None => {
                return;
            },
        };
        let clients = copy_party_ids(&self.computations[ci].client_ids);
        proof {
            old(self).lemma_comp_index(c, ci as int);
            assert(ids_unique(clients@));
            assert(ids_view(clients@.subrange(0, 0)) =~= Seq::<PartyIdView>::empty());
            assert forall|c2: Seq<char>| #[trigger] self.registered(c2) implies crate::server::same_meta(
                self.comp(c2),
                old(self).comp(c2),
            ) by {}
        }
        let label = String::from_str("public_keys");
        let mut i: usize = 0;
        while i < clients.len()
            invariant
                i <= clients@.len(),
                clients@ == old(self).comp(c).client_ids@,
                ids_unique(clients@),
                old(self).wf(),
                old(self).registered(c),
                c == computation_id@,
                label@ == "public_keys"@,
                broadcast_post(
                    *old(self),
                    *self,
                    c,
                    "public_keys"@,
                    message@,
                    ids_view(clients@.subrange(0, i as int)),
                    except@,
                ),
            decreases clients.len() - i,
        {
            let ghost before = *self;
            let ghost q = clients@[i as int]@;
            proof {
                assert(ids_view(clients@.subrange(0, i + 1 as int)) =~= ids_view(
                    clients@.subrange(0, i as int),
                ).push(q));
                assert(!ids_view(clients@.subrange(0, i as int)).contains(q)) by {
                    if ids_view(clients@.subrange(0, i as int)).contains(q) {
                        let k = choose|k: int|
                            0 <= k < i && #[trigger] ids_view(clients@.subrange(0, i as int))[k] == q;
                        assert(clients@[k]@ == q);
                        assert(clients@[k]@ != clients@[i as int]@);
                    }
                }
            }
            let ghost oldpre = ids_view(clients@.subrange(0, i as int));
            let ghost newpre = ids_view(clients@.subrange(0, i + 1 as int));
            let ghost s1v = PartyIdView::Text("s1"@);
            let ghost ex = except@;
            let sends = !same_party(&clients[i], except);
            if sends {
                self.safe_emit(label.clone(), message.clone(), computation_id, &clients[i]);
            }
            proof {
                assert forall|p2: PartyIdView| #[trigger] gets_letter(newpre, ex, p2) == (gets_letter(
                    oldpre,
                    ex,
                    p2,
                ) || (p2 == q && q != ex && q != s1v)) by {
                    assert(newpre == oldpre.push(q));
                    if p2 == q {
                        assert(newpre[oldpre.len() as int] == q);
                    }
                    if oldpre.contains(p2) {
                        let k = choose|k: int| 0 <= k < oldpre.len() && oldpre[k] == p2;
                        assert(newpre[k] == p2);
                    }
                    if newpre.contains(p2) {
                        let k = choose|k: int| 0 <= k < newpre.len() && newpre[k] == p2;
                        if k < oldpre.len() {
                            assert(oldpre[k] == p2);
                        }
                    }
                }
                if !sends || q == s1v {
                    assert(*self == before);
                    assert forall|p2: PartyIdView| #[trigger] gets_letter(newpre, ex, p2) == gets_letter(
                        oldpre,
                        ex,
                        p2,
                    ) by {}
                } else {
                    assert forall|c2: Seq<char>| #[trigger] self.registered(c2) implies crate::server::same_meta(
                        self.comp(c2),
                        old(self).comp(c2),
                    ) by {
                        assert(before.registered(c2));
                    }
                    assert(before.record(c, q) == old(self).record(c, q));
                    let m0 = match old(self).mailbox_of(c, q) {
                        Some(m) => m,
                        None => Seq::empty(),
                    };
                    let m1 = self.mailbox_of(c, q)->0;
                    assert(m1.subrange(0, m0.len() as int) =~= m0);
                    assert(emitted(*old(self), *self, c, q, "public_keys"@, message@));
                    assert forall|p2: PartyIdView| #[trigger] gets_letter(newpre, ex, p2) implies emitted(
                        *old(self),
                        *self,
                        c,
                        p2,
                        "public_keys"@,
                        message@,
                    ) by {
                        if p2 != q {
                            assert(self.record(c, p2) == before.record(c, p2));
                            assert(emitted(*old(self), before, c, p2, "public_keys"@, message@));
                        }
                    }
                    assert forall|p2: PartyIdView| !#[trigger] gets_letter(newpre, ex, p2) implies self.record(
                        c,
                        p2,
                    ) == old(self).record(c, p2) by {
                        assert(p2 != q);
                        assert(self.record(c, p2) == before.record(c, p2));
                    }
                }
            }
            i = i + 1;
        }
        proof {
            assert(clients@.subrange(0, clients@.len() as int) =~= clients@);
        }
    }

    /// The error, if any, that storing the keys would meet.
    fn keys_check(&self, computation_id: &String, party_id: &PartyId, public_key: &Option<String>) -> (r:
        Option<InitError>)
        requires
            self.wf(),
        ensures
            r == keys_error(
                *self,
                computation_id@,
                party_id@,
                match public_key {
                    Some(t) => Some(t@),
                    None => None,
                },
            ),
    {
        let s1 = server_id();
        let has_server_key = match self.find_computation(computation_id) {
            Some(ci) => {
                proof {
                    self.lemma_comp_index(computation_id@, ci as int);
                    assert(keys_wf(self.computations@[ci as int].keys@));
                }
                get_key(&self.computations[ci].keys, &s1)
            },
            None => false,
        };
        if !has_server_key && !self.sodium {
            return Some(InitError::KeysUnavailable);
        }
        if same_party(party_id, &s1) {
            return None;
        }
        if !self.sodium {
            return Some(InitError::KeysUnavailable);
        }
        match public_key {
            None => Some(InitError::InvalidPublicKey),
            Some(text) => match serverHooks::parseKey(self.sodium, text.as_str()) {
                Ok(_) => None,
                Err(e) => Some(e),
            },
        }
    }

    /// A party joins computation `computation_id`, with the id it asks for (or the
    /// first free one), the party count it sends (or the saved one) and its public
    /// key. On success its id is reserved, the computation records it, the keys are
    /// stored, and the keys to send are returned.
    #[verifier::rlimit(40)]
    pub fn initializeParty(
        &mut self,
        computation_id: &String,
        party_id: Option<PartyId>,
        party_count: Option<i64>,
        public_key: Option<String>,
        s1: bool,
    ) -> (r: Result<InitOutcome, InitError>)
        requires
            old(self).wf(),
        ensures
            final(self).wf(),
            final(self).sodium == old(self).sodium,
            forall|c2: Seq<char>|
                c2 != computation_id@ ==> #[trigger] final(self).spare_of(c2) == old(self).spare_of(c2),
            ({
                let c = computation_id@;
                let pid = match party_id {
                    Some(q) => Some(q@),
                    None => None,
                };
                let text = match public_key {
                    Some(t) => Some(t@),
                    None => None,
                };
                let count = init_count(*old(self), c, party_count);
                match r {
                    Err(e) => {
                        &&& init_error(*old(self), c, pid, party_count, text, s1) == Some(e)
                        &&& final(self).computations == old(self).computations
                        &&& starts_tracking(*old(self), c, pid, party_count, s1) ==> (final(self).spare_of(c) matches Some(iv)
                            && iv.points() == spare_points(*old(self), c, count->0))
                        &&& !starts_tracking(*old(self), c, pid, party_count, s1) ==> final(self).spare_of(c)
                            == old(self).spare_of(c)
                    },
                    Ok(out) => {
                        let id = out.party_id@;
                        let fresh = !old(self).registered(c);
                        &&& init_error(*old(self), c, pid, party_count, text, s1) is None
                        &&& Some(id) == chosen_id(*old(self), c, pid, count->0)
                        &&& Some(out.party_count) == count
                        &&& final(self).spare_of(c) matches Some(iv) && iv.points() == match id {
                            PartyIdView::Number(k) => spare_points(*old(self), c, count->0).remove(k as u64),
                            PartyIdView::Text(_) => spare_points(*old(self), c, count->0),
                        }
                        &&& final(self).registered(c)
                        &&& forall|c2: Seq<char>|
                            c2 != c ==> #[trigger] final(self).registered(c2) == old(self).registered(c2)
                        &&& forall|c2: Seq<char>|
                            c2 != c && old(self).registered(c2) ==> #[trigger] final(self).comp(c2) == old(
                                self,
                            ).comp(c2)
                        &&& final(self).comp(c).max_count == (if fresh {
                            out.party_count
                        } else {
                            old(self).comp(c).max_count
                        })
                        &&& ids_view(final(self).comp(c).client_ids@) == add_id(
                            if fresh {
                                Seq::empty()
                            } else {
                                ids_view(old(self).comp(c).client_ids@)
                            },
                            id,
                        )
                        &&& final(self).tag_of(c, id) == Some(
                            match old(self).tag_of(c, id) {
                                Some(t) => t,
                                None => 0u64,
                            },
                        )
                        &&& final(self).mailbox_of(c, id) == old(self).mailbox_of(c, id)
                        &&& final(self).pending_of(c, id) == old(self).pending_of(c, id)
                        &&& forall|p2: PartyIdView|
                            #![trigger final(self).record(c, p2)]
                            p2 != id && gets_letter(ids_view(final(self).comp(c).client_ids@), id, p2)
                                ==> emitted(
                                *old(self),
                                *final(self),
                                c,
                                p2,
                                "public_keys"@,
                                keys_message(out.public_keys@),
                            )
                        &&& forall|p2: PartyIdView|
                            #![trigger final(self).record(c, p2)]
                            p2 != id && !gets_letter(ids_view(final(self).comp(c).client_ids@), id, p2)
                                ==> final(self).record(c, p2) == old(self).record(c, p2)
                        &&& id != PartyIdView::Text("s1"@) ==> final(self).key_of(c, id) == parsed_bytes(text->0)
                        &&& final(self).key_of(c, PartyIdView::Text("s1"@)) matches Some(k) && (
                        old(self).key_of(c, PartyIdView::Text("s1"@)) is None ==> k.len() == 32)
                        &&& forall|q: PartyIdView|
                            q != id && q != PartyIdView::Text("s1"@) ==> #[trigger] final(self).key_of(c, q)
                                == old(self).key_of(c, q)
                        &&& dumped_keys(final(self).comp(c).keys@, final(self).sodium, out.public_keys@)
                    },
                }
            }),
    {
        let server = server_id();
        if !s1 {
            if let Some(q) = &party_id {
                if same_party(q, &server) {
                    return Err(InitError::ReservedId);
                }
            }
        }
        let count: Option<i64> = match party_count {
            Some(n) => Some(n),
            None => self.saved_count(computation_id),
        };
        if self.find_spare(computation_id).is_none() {
            match count {
                None => {
                    return Err(InitError::NoPartyCount);
                },
                Some(n) => {
                    if n < 0 {
                        return Err(InitError::PartyCountTooSmall);
                    }
                    self.track_spare(computation_id, n as u64);
                },
            }
        }
        let ghost tracked_state = *self;
        proof {
            assert forall|c2: Seq<char>| #[trigger] self.registered(c2) == old(self).registered(c2) by {}
        }
        match serverHooks::beforeInitialization(self, computation_id, &party_id, count) {
            Err(e) => {
                return Err(e);
            },
            Ok(()) => {},
        }
        let n: i64 = match count {
            Some(n) => n,
            None => {
                return Err(InitError::NoPartyCount);
            },
        };
        let id: PartyId = match party_id {
            Some(q) => q,
            None => match self.first_free(computation_id) {
                Some(f) => {
                    if f <= 9223372036854775807u64 {
                        PartyId::Number(f as i64)
                    } else {
                        return Err(InitError::NoFreeId);
                    }
                },
                None => {
                    return Err(InitError::NoFreeId);
                },
            },
        };
        if let Some(e) = self.keys_check(computation_id, &id, &public_key) {
            return Err(e);
        }
        let ghost checked_state = *self;
        if let PartyId::Number(k) = &id {
            self.reserve_id(computation_id, *k as u64);
        }
        let ghost reserved_state = *self;
        self.initComputation(computation_id, &id, n);
        let ghost joined_state = *self;
        proof {
            let c = computation_id@;
            assert(joined_state.key_of(c, PartyIdView::Text("s1"@)) == old(self).key_of(
                c,
                PartyIdView::Text("s1"@),
            ));
            assert(keys_error(joined_state, c, id@, match public_key {
                Some(t) => Some(t@),
                None => None,
            }) == keys_error(*old(self), c, id@, match public_key {
                Some(t) => Some(t@),
                None => None,
            }));
        }
        let keys = match self.storeAndSendPublicKey(computation_id, &id, public_key) {
            Ok(keys) => keys,
            Err(e) => {
                return Err(e);
            },
        };
        proof {
            let c = computation_id@;
            assert forall|c2: Seq<char>| c2 != c implies #[trigger] self.spare_of(c2) == old(self).spare_of(
                c2,
            ) by {
                assert(self.spare_of(c2) == joined_state.spare_of(c2));
                assert(joined_state.spare_of(c2) == reserved_state.spare_of(c2));
                assert(reserved_state.spare_of(c2) == tracked_state.spare_of(c2));
            }
            let msg = keys_message(keys@);
            let clients = ids_view(self.comp(c).client_ids@);
            assert(clients == ids_view(joined_state.comp(c).client_ids@));
            assert forall|p2: PartyIdView| p2 != id@ implies #[trigger] joined_state.record(c, p2)
                == old(self).record(c, p2) by {
                assert(joined_state.record(c, p2) == reserved_state.record(c, p2));
                assert(reserved_state.record(c, p2) == old(self).record(c, p2));
            }
            assert forall|p2: PartyIdView|
                p2 != id@ && gets_letter(clients, id@, p2) implies #[trigger] emitted(
                *old(self),
                *self,
                c,
                p2,
                "public_keys"@,
                msg,
            ) by {
                assert(self.record(c, p2) == self.record(c, p2));
                assert(joined_state.record(c, p2) == old(self).record(c, p2));
            }
            assert forall|p2: PartyIdView|
                p2 != id@ && !gets_letter(clients, id@, p2) implies #[trigger] self.record(c, p2)
                    == old(self).record(c, p2) by {
                assert(joined_state.record(c, p2) == old(self).record(c, p2));
            }
            assert(self.record(c, id@) == joined_state.record(c, id@));
        }
        Ok(InitOutcome { party_id: id, party_count: n, public_keys: keys })
    }

    /// Stops tracking the free ids of a computation, when they are tracked.
    fn drop_spare(&mut self, c: &String)
        requires
            old(self).wf(),
        ensures
            final(self).wf(),
            final(self).computations == old(self).computations,
            final(self).sodium == old(self).sodium,
            final(self).spare_of(c@) is None,
            forall|c2: Seq<char>| c2 != c@ ==> #[trigger] final(self).spare_of(c2) == old(self).spare_of(c2),
    {
        let i = match self.find_spare(c) {
            Some(i) => i,
            None => {
                return;
            },
        };
        let ghost olds = self.spare_ids@;
        self.spare_ids.remove(i);
        proof {
            let s = self.spare_ids@;
            let idx = |k: int| if k < i { k } else { k + 1 };
            assert forall|k: int| 0 <= k < s.len() implies #[trigger] s[k] == olds[idx(k)] by {}
            assert forall|a: int, b: int| 0 <= a < b < s.len() implies #[trigger] s[a].computation_id@
                != #[trigger] s[b].computation_id@ by {
                assert(s[a] == olds[idx(a)]);
                assert(s[b] == olds[idx(b)]);
            }
            assert forall|a: int| 0 <= a < s.len() implies #[trigger] s[a].ids.gapped() by {
                assert(s[a] == olds[idx(a)]);
            }
            old(self).lemma_spare_index(c@, i as int);
            if self.spare_of(c@) is Some {
                let k = self.spare_index(c@);
                self.lemma_spare_index(c@, k);
                assert(s[k] == olds[idx(k)]);
                assert(olds[idx(k)].computation_id@ != olds[i as int].computation_id@);
            }
            assert forall|c2: Seq<char>| c2 != c@ implies #[trigger] self.spare_of(c2) == old(
                self,
            ).spare_of(c2) by {
                if old(self).spare_of(c2) is Some {
                    let k = old(self).spare_index(c2);
                    old(self).lemma_spare_index(c2, k);
                    assert(k != i);
                    let k2 = if k < i { k } else { k - 1 };
                    assert(s[k2] == olds[idx(k2)]);
                    self.lemma_spare_index(c2, k2);
                }
                if self.spare_of(c2) is Some {
                    let k = self.spare_index(c2);
                    self.lemma_spare_index(c2, k);
                    assert(s[k] == olds[idx(k)]);
                    old(self).lemma_spare_index(c2, idx(k));
                }
            }
        }
    }

    /// Forwards a message of a computation to the party `to_id` under `label`: the
    /// message, which names its sender, is stored in that party's mailbox.
    fn forward(&mut self, label: String, computation_id: &String, to_id: &PartyId, msg: String)
        requires
            old(self).wf(),
            to_id@ != PartyIdView::Text("s1"@) ==> old(self).registered(computation_id@),
        ensures
            forwarded(*old(self), *final(self), label@, computation_id@, to_id@, msg),
    {
        let ghost l = label;
        self.safe_emit(label, msg, computation_id, to_id);
        proof {
            if to_id@ != PartyIdView::Text("s1"@) {
                let m = self.mailbox_of(computation_id@, to_id@)->0;
                let o = match old(self).mailbox_of(computation_id@, to_id@) {
                    Some(m) => m,
                    None => Seq::empty(),
                };
                assert(m == o.push(Letter { label: l, msg: msg }));
                assert(m.drop_last() =~= o);
            }
        }
    }

    /// A share sent from one party to another: it is stored for `to_id`, the receiver
    /// named in the message, under the label `share`.
    pub fn share(&mut self, computation_id: &String, to_id: &PartyId, msg: String) -> (r: bool)
        requires
            old(self).wf(),
            to_id@ != PartyIdView::Text("s1"@) ==> old(self).registered(computation_id@),
        ensures
            r,
            forwarded(*old(self), *final(self), "share"@, computation_id@, to_id@, msg),
    {
        self.forward(String::from_str("share"), computation_id, to_id, msg);
        true
    }

    /// A share being opened, sent from one party to another: it is stored for `to_id`
    /// under the label `open`.
    pub fn open(&mut self, computation_id: &String, to_id: &PartyId, msg: String) -> (r: bool)
        requires
            old(self).wf(),
            to_id@ != PartyIdView::Text("s1"@) ==> old(self).registered(computation_id@),
        ensures
            r,
            forwarded(*old(self), *final(self), "open"@, computation_id@, to_id@, msg),
    {
        self.forward(String::from_str("open"), computation_id, to_id, msg);
        true
    }

    /// Party `party_id` is done with computation `computation_id`. When every party of
    /// the computation is done, everything kept for it is dropped; returns whether it
    /// was. A computation that was never initialized is left as it is.
    #[verifier::spinoff_prover]
    pub fn free(&mut self, computation_id: &String, party_id: &PartyId) -> (r: bool)
        requires
            old(self).wf(),
        ensures
            final(self).wf(),
            final(self).sodium == old(self).sodium,
            !old(self).registered(computation_id@) ==> !r && *final(self) == *old(self),
            old(self).registered(computation_id@) ==> {
                let c = computation_id@;
                let oc = old(self).comp(c);
                let done = add_id(ids_view(oc.free_parties@), party_id@);
                &&& r == (done.len() == oc.max_count)
                &&& forall|c2: Seq<char>|
                    c2 != c ==> #[trigger] final(self).registered(c2) == old(self).registered(c2)
                &&& forall|c2: Seq<char>|
                    c2 != c && old(self).registered(c2) ==> #[trigger] final(self).comp(c2) == old(self).comp(
                        c2,
                    )
                &&& r ==> !final(self).registered(c) && final(self).spare_of(c) is None && forall|
                    c2: Seq<char>,
                | c2 != c ==> #[trigger] final(self).spare_of(c2) == old(self).spare_of(c2)
                &&& !r ==> {
                    let nc = final(self).comp(c);
                    &&& final(self).registered(c)
                    &&& final(self).spare_ids == old(self).spare_ids
                    &&& ids_view(nc.free_parties@) == done
                    &&& nc.computation_id == oc.computation_id
                    &&& nc.client_ids == oc.client_ids
                    &&& nc.max_count == oc.max_count
                    &&& nc.keys == oc.keys
                    &&& nc.secret_key == oc.secret_key
                    &&& nc.parties == oc.parties
                }
            },
    {
        let ci = match self.find_computation(computation_id) {
            Some(ci) => ci,
            None => {
                return false;
            },
        };
        let ghost olds = self.computations@;
        let mut comp = self.computations.remove(ci);
        proof {
            assert(comp == olds[ci as int]);
            assert(parties_wf(comp.parties@));
            assert(keys_wf(comp.keys@));
            assert(ids_unique(comp.client_ids@));
            old(self).lemma_comp_index(computation_id@, ci as int);
        }
        let all_free = comp.mark_free(party_id);
        if all_free {
            let ghost before_drop = *self;
            self.drop_spare(computation_id);
            proof {
                assert forall|c2: Seq<char>| c2 != computation_id@ implies #[trigger] self.spare_of(c2)
                    == old(self).spare_of(c2) by {
                    assert(before_drop.spare_of(c2) == old(self).spare_of(c2));
                }
                let s = self.computations@;
                let c = computation_id@;
                let idx = |k: int| if k < ci { k } else { k + 1 };
                assert forall|k: int| 0 <= k < s.len() implies #[trigger] s[k] == olds[idx(k)] by {}
                assert forall|a: int, b: int| 0 <= a < b < s.len() implies #[trigger] s[a].computation_id@
                    != #[trigger] s[b].computation_id@ by {
                    assert(s[a] == olds[idx(a)]);
                    assert(s[b] == olds[idx(b)]);
                }
                assert forall|a: int| 0 <= a < s.len() implies parties_wf(#[trigger] s[a].parties@) by {
                    assert(s[a] == olds[idx(a)]);
                }
                assert forall|a: int| 0 <= a < s.len() implies keys_wf(#[trigger] s[a].keys@) by {
                    assert(s[a] == olds[idx(a)]);
                }
                assert forall|a: int| 0 <= a < s.len() implies ids_unique(#[trigger] s[a].client_ids@) by {
                    assert(s[a] == olds[idx(a)]);
                }
                if self.registered(c) {
                    let k = self.comp_index(c);
                    self.lemma_comp_index(c, k);
                    assert(s[k] == olds[idx(k)]);
                    assert(olds[idx(k)].computation_id@ != olds[ci as int].computation_id@);
                }
                assert forall|c2: Seq<char>| c2 != c && old(self).registered(c2) implies #[trigger] self.comp(
                    c2,
                ) == old(self).comp(c2) by {
                    let k = old(self).comp_index(c2);
                    old(self).lemma_comp_index(c2, k);
                    assert(k != ci);
                    let k2 = if k < ci { k } else { k - 1 };
                    assert(s[k2] == olds[idx(k2)]);
                    self.lemma_comp_index(c2, k2);
                }
                assert forall|c2: Seq<char>| c2 != c implies #[trigger] self.registered(c2) == old(
                    self,
                ).registered(c2) by {
                    if old(self).registered(c2) {
                        let k = old(self).comp_index(c2);
                        old(self).lemma_comp_index(c2, k);
                        assert(k != ci);
                        let k2 = if k < ci { k } else { k - 1 };
                        assert(s[k2] == olds[idx(k2)]);
                        self.lemma_comp_index(c2, k2);
                    }
                    if self.registered(c2) {
                        let k = self.comp_index(c2);
                        self.lemma_comp_index(c2, k);
                        assert(s[k] == olds[idx(k)]);
                        old(self).lemma_comp_index(c2, idx(k));
                    }
                }
            }
            return true;
        }
        self.computations.insert(ci, comp);
        proof {
            self.lemma_lift(old(self), ci as int);
        }
        false
    }

    proof fn lemma_spare_index(&self, c: Seq<char>, i: int)
        requires
            self.wf(),
            0 <= i < self.spare_ids@.len(),
            self.spare_ids@[i].computation_id@ == c,
        ensures
            self.spare_index(c) == i,
    {
        let j = choose|j: int|
            0 <= j < self.spare_ids@.len() && #[trigger] self.spare_ids@[j].computation_id@ == c;
        if j < i {
            assert(self.spare_ids@[j].computation_id@ != self.spare_ids@[i].computation_id@);
        } else if j > i {
            assert(self.spare_ids@[i].computation_id@ != self.spare_ids@[j].computation_id@);
        }
    }

    /// Finds the free ids of a computation.
    fn find_spare(&self, c: &String) -> (r: Option<usize>)
        requires
            self.wf(),
        ensures
            r matches Some(i) ==> i == self.spare_index(c@) && i < self.spare_ids@.len(),
            r is None ==> self.spare_of(c@) is None,
    {
        let mut i: usize = 0;
        while i < self.spare_ids.len()
            invariant
                i <= self.spare_ids@.len(),
                self.wf(),
                forall|j: int| 0 <= j < i ==> #[trigger] self.spare_ids@[j].computation_id@ != c@,
            decreases self.spare_ids.len() - i,
        {
            if self.spare_ids[i].computation_id == *c {
                proof {
                    self.lemma_spare_index(c@, i as int);
                }
                return Some(i);
            }
            i = i + 1;
        }
        None
    }

    /// Starts tracking the free ids `1..=count` of a computation that has none.
    fn track_spare(&mut self, c: &String, count: u64)
        requires
            old(self).wf(),
            old(self).spare_of(c@) is None,
        ensures
            final(self).wf(),
            final(self).computations == old(self).computations,
            final(self).sodium == old(self).sodium,
            final(self).spare_of(c@) matches Some(iv) && iv.spans() == seq![(1u64, count)] && forall|q: u64|
                #[trigger] iv.points().contains(q) <==> 1 <= q <= count,
            forall|c2: Seq<char>| c2 != c@ ==> #[trigger] final(self).spare_of(c2) == old(self).spare_of(c2),
    {
        let ids = serverHooks::trackFreeIds(count);
        let ghost olds = self.spare_ids@;
        self.spare_ids.push(SpareIds { computation_id: c.clone(), ids: ids });
        proof {
            let s = self.spare_ids@;
            assert forall|a: int, b: int| 0 <= a < b < s.len() implies #[trigger] s[a].computation_id@
                != #[trigger] s[b].computation_id@ by {
                if b == olds.len() {
                    assert(olds[a] == s[a]);
                    assert(!(0 <= a < olds.len() && #[trigger] olds[a].computation_id@ == c@));
                } else {
                    assert(olds[a] == s[a]);
                    assert(olds[b] == s[b]);
                }
            }
            assert forall|a: int| 0 <= a < s.len() implies #[trigger] s[a].ids.gapped() by {
                if a < olds.len() {
                    assert(olds[a] == s[a]);
                }
            }
            self.lemma_spare_index(c@, olds.len() as int);
            assert forall|c2: Seq<char>| c2 != c@ implies #[trigger] self.spare_of(c2) == old(
                self,
            ).spare_of(c2) by {
                if old(self).spare_of(c2) is Some {
                    let k = old(self).spare_index(c2);
                    old(self).lemma_spare_index(c2, k);
                    assert(s[k] == olds[k]);
                    self.lemma_spare_index(c2, k);
                }
                if self.spare_of(c2) is Some {
                    let k = self.spare_index(c2);
                    self.lemma_spare_index(c2, k);
                    assert(k != olds.len());
                    assert(s[k] == olds[k]);
                    old(self).lemma_spare_index(c2, k);
                }
            }
        }
    }

    /// The first free id of a computation whose free ids are tracked: the start of the
    /// first interval, if any.
    fn first_free(&self, c: &String) -> (r: Option<u64>)
        requires
            self.wf(),
            self.spare_of(c@) is Some,
        ensures
            r == (if self.spare_of(c@)->0.spans().len() == 0 {
                None::<u64>
            } else {
                Some(self.spare_of(c@)->0.spans()[0].0)
            }),
            forall|p: u64| #[trigger] self.spare_of(c@)->0.points().contains(p) ==> r is Some
                && self.spare_of(c@)->0.points().contains(r->0) && r->0 <= p,
    {
        let i = match self.find_spare(c) {
            Some(i) => i,
            None => {
                return None;
            },
        };
        proof {
            assert(self.spare_ids@[i as int].ids.gapped());
            self.spare_ids@[i as int].ids.lemma_gapped(0);
        }
        self.spare_ids[i].ids.create_free()
    }

    /// Removes `point` from the free ids of a computation whose free ids are tracked.
    fn reserve_id(&mut self, c: &String, point: u64)
        requires
            old(self).wf(),
            old(self).spare_of(c@) is Some,
        ensures
            final(self).wf(),
            final(self).computations == old(self).computations,
            final(self).sodium == old(self).sodium,
            final(self).spare_of(c@) matches Some(iv) && iv.points() == old(self).spare_of(
                c@,
            )->0.points().remove(point),
            forall|c2: Seq<char>| c2 != c@ ==> #[trigger] final(self).spare_of(c2) == old(self).spare_of(c2),
    {
        let i = match self.find_spare(c) {
            Some(i) => i,
            None => {
                return;
            },
        };
        let ghost olds = self.spare_ids@;
        let mut sp = self.spare_ids.remove(i);
        proof {
            assert(sp == olds[i as int]);
            assert(sp.ids.gapped());
            sp.ids.lemma_gapped(point);
        }
        sp.ids.reserve(point);
        self.spare_ids.insert(i, sp);
        proof {
            let s = self.spare_ids@;
            assert(s.len() == olds.len());
            assert forall|k: int| 0 <= k < s.len() && k != i implies #[trigger] s[k] == olds[k] by {}
            assert forall|a: int, b: int| 0 <= a < b < s.len() implies #[trigger] s[a].computation_id@
                != #[trigger] s[b].computation_id@ by {
                assert(s[a].computation_id == olds[a].computation_id);
                assert(s[b].computation_id == olds[b].computation_id);
            }
            assert forall|a: int| 0 <= a < s.len() implies #[trigger] s[a].ids.gapped() by {
                if a != i {
                    assert(s[a] == olds[a]);
                }
            }
            self.lemma_spare_index(c@, i as int);
            assert forall|c2: Seq<char>| c2 != c@ implies #[trigger] self.spare_of(c2) == old(
                self,
            ).spare_of(c2) by {
                if old(self).spare_of(c2) is Some {
                    let k = old(self).spare_index(c2);
                    old(self).lemma_spare_index(c2, k);
                    assert(k != i);
                    assert(s[k] == olds[k]);
                    self.lemma_spare_index(c2, k);
                }
                if self.spare_of(c2) is Some {
                    let k = self.spare_index(c2);
                    self.lemma_spare_index(c2, k);
                    assert(k != i);
                    assert(s[k] == olds[k]);
                    old(self).lemma_spare_index(c2, k);
                }
            }
        }
    }
}

} // verus!
