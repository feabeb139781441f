//! Hooks of the server: the free ids of a new computation, the key pairs and the
//! text form of keys, and the checks made before a party joins a computation.
use vstd::prelude::*;
use crate::common::{PartyId, PartyIdView, dec_text};
use crate::crypto::public_of;
use crate::intervals::{intervals, intervals_fn};
use crate::server::restfulAPI;

verus! {

/// The hooks of the server.
pub struct serverHooks {}

/// Why a party cannot join a computation.
pub enum InitError {
    ReservedId,
    NoPartyCount,
    PartyCountTooSmall,
    ContradictingPartyCount,
    InvalidPartyId,
    CapacityReached,
    NoFreeId,
    KeysUnavailable,
    InvalidPublicKey,
}

impl InitError {
    /// The text of the error.
    pub open spec fn text(&self) -> Seq<char> {
        match self {
            InitError::ReservedId => "Party id s1 is reserved for server computation instances. This incident will be reported!"@,
            InitError::NoPartyCount => "party count is not specified nor pre-saved"@,
            InitError::PartyCountTooSmall => "party count is less than 1"@,
            InitError::ContradictingPartyCount => "contradicting party count"@,
            InitError::InvalidPartyId => "Invalid party ID: not a valid number"@,
            InitError::CapacityReached => "Maximum parties capacity reached"@,
            InitError::NoFreeId => "no free party id is left"@,
            InitError::KeysUnavailable => "keys are not available without sodium"@,
            InitError::InvalidPublicKey => "the public key is not a list of bytes"@,
        }
    }

    /// The text of the error.
    pub fn message(&self) -> (r: String)
        ensures
            r@ == self.text(),
    {
        match self {
            InitError::ReservedId => String::from_str(
                "Party id s1 is reserved for server computation instances. This incident will be reported!",
            ),
            InitError::NoPartyCount => String::from_str("party count is not specified nor pre-saved"),
            InitError::PartyCountTooSmall => String::from_str("party count is less than 1"),
            InitError::ContradictingPartyCount => String::from_str("contradicting party count"),
            InitError::InvalidPartyId => String::from_str("Invalid party ID: not a valid number"),
            InitError::CapacityReached => String::from_str("Maximum parties capacity reached"),
            InitError::NoFreeId => String::from_str("no free party id is left"),
            InitError::KeysUnavailable => String::from_str("keys are not available without sodium"),
            InitError::InvalidPublicKey => String::from_str("the public key is not a list of bytes"),
        }
    }
}

/// The bytes in decimal, separated by `sep`.
pub open spec fn dec_bytes_list(b: Seq<u8>, sep: Seq<char>) -> Seq<char>
    decreases b.len(),
{
    if b.len() == 0 {
        Seq::empty()
    } else if b.len() == 1 {
        dec_text(b[0] as nat)
    } else {
        dec_bytes_list(b.drop_last(), sep) + sep + dec_text(b.last() as nat)
    }
}

/// The JSON text of a list of bytes: `[1,2,3]`.
pub open spec fn json_bytes(b: Seq<u8>) -> Seq<char> {
    seq!['['] + dec_bytes_list(b, seq![',']) + seq![']']
}

/// The text that `{:?}` writes for a list of bytes: `[1, 2, 3]`.
pub open spec fn debug_text(b: Seq<u8>) -> Seq<char> {
    seq!['['] + dec_bytes_list(b, seq![',', ' ']) + seq![']']
}

/// The bytes that `serde_json::from_str::<Vec<u8>>` reads from a text, when it
/// accepts the text.
pub uninterp spec fn parsed_bytes(s: Seq<char>) -> Option<Seq<u8>>;

/// Calls `sodiumoxide::crypto::box_::gen_keypair`, which draws a fresh secret key and
/// computes its public key (with the same base-point multiplication as
/// `SecretKey::public_key`). The secret key is random: only the lengths (32 bytes each)
/// and that the public key belongs to the secret key are stated.
#[verifier::external_body]
fn gen_keypair_bytes() -> (r: (Vec<u8>, Vec<u8>))
    ensures
        r.0@.len() == 32,
        r.1@.len() == 32,
        r.0@ == public_of(r.1@),
{
    let (pk, sk) = sodiumoxide::crypto::box_::gen_keypair();
    (pk.0.to_vec(), sk.0.to_vec())
}

/// Calls `serde_json::to_string` on a list of bytes. The crate writes a list as `[`,
/// the items in decimal separated by `,`, then `]`, with no space, and cannot fail on
/// bytes.
#[verifier::external_body]
fn bytes_to_json(v: &Vec<u8>) -> (r: String)
    ensures
        r@ == json_bytes(v@),
{
    match serde_json::to_string(v) {
        Ok(s) => s,
        Err(_) => String::new(),
    }
}

/// Calls `serde_json::from_str::<Vec<u8>>`. Its result is named `parsed_bytes`; a
/// list of bytes written by `serde_json::to_string` or by `{:?}` (which only adds a
/// space after each comma) reads back as that list.
#[verifier::external_body]
pub(crate) fn json_to_bytes(s: &str) -> (r: Option<Vec<u8>>)
    ensures
        r is Some ==> parsed_bytes(s@) == Some(r->0@),
        r is None ==> parsed_bytes(s@) is None,
        forall|b: Seq<u8>| s@ == json_bytes(b) ==> r is Some && r->0@ == b,
        forall|b: Seq<u8>| s@ == debug_text(b) ==> r is Some && r->0@ == b,
{
    match serde_json::from_str::<Vec<u8>>(s) {
        Ok(v) => Some(v),
        Err(_) => None,
    }
}

/// The check made before a party joins computation `c` of server state `s`: the
/// error, if any, for the requested party id and party count.
pub open spec fn before_init_spec(
    s: restfulAPI,
    c: Seq<char>,
    party_id: Option<PartyIdView>,
    party_count: Option<i64>,
) -> Option<InitError> {
    match party_count {
        None => Some(InitError::NoPartyCount),
        Some(n) => if n < 1 {
            Some(InitError::PartyCountTooSmall)
        } else if s.registered(c) && s.comp(c).max_count != n {
            Some(InitError::ContradictingPartyCount)
        } else {
            match party_id {
                Some(PartyIdView::Text(t)) => if t == "s1"@ {
                    None
                } else {
                    Some(InitError::InvalidPartyId)
                },
                Some(PartyIdView::Number(k)) => if k <= 0 || k > n {
                    Some(InitError::InvalidPartyId)
                } else {
                    None
                },
                None => if s.registered(c) && s.comp(c).client_ids@.len() == s.comp(c).max_count {
                    Some(InitError::CapacityReached)
                } else {
                    None
                },
            }
        },
    }
}

/// The server's own party id, `"s1"`.
pub fn server_id() -> (r: PartyId)
    ensures
        r@ == PartyIdView::Text("s1"@),
{
    PartyId::Text(String::from_str("s1"))
}

impl serverHooks {
    /// The free ids of a new computation of `party_count` parties: `1..=party_count`.
    pub fn trackFreeIds(party_count: u64) -> (r: intervals)
        ensures
            r.wf(),
            r.spans() == seq![(1u64, party_count)],
            forall|p: u64| #[trigger] r.points().contains(p) <==> 1 <= p <= party_count,
    {
        intervals_fn(1, party_count)
    }

    /// A fresh key pair (public, secret) when sodium is on; none otherwise.
    pub fn generateKeyPair(sodium: bool) -> (r: (Option<Vec<u8>>, Option<Vec<u8>>))
        ensures
            sodium ==> (r.0 matches Some(pk) && pk@.len() == 32) && (r.1 matches Some(sk)
                && sk@.len() == 32) && r.0->0@ == public_of(r.1->0@),
            !sodium ==> r.0 is None && r.1 is None,
    {
        if sodium {
            let (pk, sk) = gen_keypair_bytes();
            (Some(pk), Some(sk))
        } else {
            (None, None)
        }
    }

    /// Reads a public key sent as the JSON text of its bytes, when sodium is on.
    pub fn parseKey(sodium: bool, key_string: &str) -> (r: Result<Option<Vec<u8>>, InitError>)
        ensures
            !sodium ==> r == Ok::<Option<Vec<u8>>, InitError>(None),
            sodium ==> match parsed_bytes(key_string@) {
                Some(b) => r matches Ok(Some(v)) && v@ == b,
                None => r == Err::<Option<Vec<u8>>, InitError>(InitError::InvalidPublicKey),
            },
    {
        if sodium {
            match json_to_bytes(key_string) {
                Some(v) => Ok(Some(v)),
                None => Err(InitError::InvalidPublicKey),
            }
        } else {
            Ok(None)
        }
    }

    /// The JSON text of a key when sodium is on; the empty text otherwise.
    pub fn dumpKey(sodium: bool, key: &Vec<u8>) -> (r: String)
        ensures
            sodium ==> r@ == json_bytes(key@),
            !sodium ==> r@ == Seq::<char>::empty(),
    {
        if sodium {
            bytes_to_json(key)
        } else {
            String::new()
        }
    }

    /// Checks a request to join computation `computation_id` with the given party id
    /// and party count (the one sent, or the one saved for the computation).
    pub fn beforeInitialization(
        riff: &restfulAPI,
        computation_id: &String,
        party_id: &Option<PartyId>,
        party_count: Option<i64>,
    ) -> (r: Result<(), InitError>)
        requires
            riff.wf(),
        ensures
            match before_init_spec(
                *riff,
                computation_id@,
                match party_id {
                    Some(q) => Some(q@),
                    None => None,
                },
                party_count,
            ) {
                Some(e) => r == Err::<(), InitError>(e),
                None => r is Ok,
            },
    {
        let n = match party_count {
            None => {
                return Err(InitError::NoPartyCount);
            },
            Some(n) => n,
        };
        if n < 1 {
            return Err(InitError::PartyCountTooSmall);
        }
        let saved = riff.saved_count(computation_id);
        if let Some(m) = saved {
            if m != n {
                return Err(InitError::ContradictingPartyCount);
            }
        }
        match party_id {
            Some(PartyId::Text(t)) => {
                let s1 = String::from_str("s1");
                proof {
                    reveal_strlit("s1");
                }
                if *t == s1 {
                    Ok(())
                } else {
                    Err(InitError::InvalidPartyId)
                }
            },
            Some(PartyId::Number(k)) => {
                if *k <= 0 || *k > n {
                    Err(InitError::InvalidPartyId)
                } else {
                    Ok(())
                }
            },
            None => {
                if riff.is_full(computation_id) {
                    Err(InitError::CapacityReached)
                } else {
                    Ok(())
                }
            },
        }
    }
}

} // verus!
