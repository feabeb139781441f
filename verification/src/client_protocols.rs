//! The decisions a client takes in the sharing protocols: who sends and who receives,
//! the threshold, the operation id, the shares to send, and when all shares arrived.
use vstd::prelude::*;
use crate::client::{RiffClientRest, ClientError, counts_wf, count_of, op_label, op_label2, draw_post, sorted};
use crate::client_handlers::{share_in, opens_in, known_key, own_secret, lookup_key, copy_bytes};
use crate::crypto::{ShareText, encryptSign, sealed_box, ascii_bytes};
use crate::hooks::debug_text;
use crate::common::{int_text, PartyId};
use crate::secret_share::{SecretShare, copy_ids, max_threshold};
use crate::shamir::{jiff_compute_shares, jiff_lagrange, lagrange_value, opened_shares_ok, sharing_poly, share_value, lemma_share_fits_small, OpenedShare};
use crate::server::key_in;
use crate::common::PartyIdView;

verus! {

/// The options of a sharing; each may be left out.
pub struct ShareOptions {
    pub Zp: Option<i64>,
    pub receivers_list: Option<Vec<i64>>,
    pub senders_list: Option<Vec<i64>>,
    pub threshold: Option<i64>,
    pub share_id: Option<String>,
}

/// How a sharing goes for this client.
pub struct SharePlan {
    pub Zp: i64,
    pub receivers: Vec<i64>,
    pub senders: Vec<i64>,
    pub threshold: i64,
    pub share_id: String,
    pub is_sender: bool,
    pub is_receiver: bool,
}

/// The parties `1..=n`.
pub open spec fn all_parties(n: int) -> Seq<i64> {
    Seq::new(if n > 0 { n as nat } else { 0 }, |i: int| (i + 1) as i64)
}

/// The threshold of a sharing among `n` receivers: the one asked for, kept between 2
/// (for a negative one) and `n`, or `n` when none is asked for.
pub open spec fn clamp_threshold(t: Option<i64>, n: int) -> int {
    match t {
        None => n,
        Some(t) => if t < 0 {
            2
        } else if t > n {
            n
        } else {
            t as int
        },
    }
}

/// A list given in the options, in increasing order, or the parties `1..=n`.
pub open spec fn party_list_ok(given: Option<Vec<i64>>, n: int, r: Seq<i64>) -> bool {
    match given {
        Some(v) => sorted(r) && r.to_multiset() == v@.to_multiset(),
        None => r == all_parties(n),
    }
}

/// The list that `party_list_ok` describes: the one given, in increasing order, or the
/// parties `1..=n`.
pub open spec fn given_list(given: Option<Vec<i64>>, n: int) -> Seq<i64> {
    choose|r: Seq<i64>| party_list_ok(given, n, r)
}

/// `party_list_ok` describes one list only.
pub proof fn lemma_party_list_unique(given: Option<Vec<i64>>, n: int, a: Seq<i64>, b: Seq<i64>)
    requires
        party_list_ok(given, n, a),
        party_list_ok(given, n, b),
    ensures
        a == b,
{
    if let Some(v) = given {
        let leq = |x: i64, y: i64| x <= y;
        assert(vstd::relations::sorted_by(a, leq));
        assert(vstd::relations::sorted_by(b, leq));
        assert(vstd::relations::total_ordering(leq));
        vstd::seq_lib::lemma_sorted_unique(a, b, leq);
    }
}

/// The list that was made for the options is `given_list`.
proof fn lemma_given_list(given: Option<Vec<i64>>, n: int, a: Seq<i64>)
    requires
        party_list_ok(given, n, a),
    ensures
        given_list(given, n) == a,
{
    let g = given_list(given, n);
    assert(party_list_ok(given, n, g));
    lemma_party_list_unique(given, n, a, g);
}

/// Whether `id` is in the list given in the options, or among the parties `1..=n`.
pub open spec fn in_list(given: Option<Vec<i64>>, n: int, id: i64) -> bool {
    match given {
        Some(v) => v@.contains(id),
        None => 1 <= id <= n,
    }
}

/// A list in the sense of `party_list_ok` holds `id` exactly when `in_list` says so.
proof fn lemma_in_list(given: Option<Vec<i64>>, n: int, r: Seq<i64>, id: i64)
    requires
        party_list_ok(given, n, r),
        n <= i64::MAX,
    ensures
        r.contains(id) == in_list(given, n, id),
{
    broadcast use vstd::seq_lib::group_to_multiset_ensures;
    match given {
        Some(v) => {
            assert(r.to_multiset() == v@.to_multiset());
            assert(r.to_multiset().count(id) == v@.to_multiset().count(id));
            assert(r.contains(id) <==> r.to_multiset().count(id) > 0);
            assert(v@.contains(id) <==> v@.to_multiset().count(id) > 0);
            assert(r.contains(id) == v@.contains(id));
            assert(in_list(given, n, id) == v@.contains(id));
        },
        None => {
            if 1 <= id <= n {
                assert(r[id - 1] == id);
            } else if r.contains(id) {
                let i = choose|i: int| 0 <= i < r.len() && r[i] == id;
                assert(r.len() == n);
                assert(r[i] == (i + 1) as i64);
                assert(0 <= i < n);
            }
        },
    }
}

/// The parties `1..=n`.
fn parties_upto(n: i64) -> (r: Vec<i64>)
    ensures
        r@ == all_parties(n as int),
{
    let mut r: Vec<i64> = Vec::new();
    if n <= 0 {
        assert(r@ =~= all_parties(n as int));
        return r;
    }
    let mut i: i64 = 0;
    while i < n
        invariant
            0 <= i <= n,
            r@ == all_parties(i as int),
        decreases n - i,
    {
        r.push(i + 1);
        i = i + 1;
        assert(r@ =~= all_parties(i as int));
    }
    r
}

/// A list given in the options, sorted, or the parties `1..=n`.
fn party_list(given: &Option<Vec<i64>>, n: i64) -> (r: Vec<i64>)
    ensures
        party_list_ok(*given, n as int, r@),
{
    match given {
        Some(v) => {
            let mut w = copy_ids(v);
            crate::client::sort_ids(&mut w);
            w
        },
        None => parties_upto(n),
    }
}

/// Whether `x` is in the list.
fn contains_id(v: &Vec<i64>, x: Option<i64>) -> (r: bool)
    ensures
        r == (x matches Some(id) && v@.contains(id)),
{
    let id = match x {
        Some(id) => id,
        None => {
            return false;
        },
    };
    let mut i: usize = 0;
    while i < v.len()
        invariant
            i <= v@.len(),
            x == Some(id),
            forall|j: int| 0 <= j < i ==> #[trigger] v@[j] != id,
        decreases v.len() - i,
    {
        if v[i] == id {
            assert(v@[i as int] == id);
            return true;
        }
        i = i + 1;
    }
    false
}

/// The threshold of a sharing among `n` receivers.
fn threshold_of(t: Option<i64>, n: usize) -> (r: i64)
    requires
        n <= i64::MAX,
    ensures
        r == clamp_threshold(t, n as int),
{
    match t {
        None => n as i64,
        Some(t) => if t < 0 {
            2
        } else if t > n as i64 {
            n as i64
        } else {
            t
        },
    }
}

/// The threshold of a sharing: with none asked for, every receiver is needed to open
/// the secret, so it is the number of receivers; one asked for that lies between 0 and
/// the number of receivers is kept as it is; one above it is lowered to it.
pub proof fn law_threshold_defaults_to_receivers(c: RiffClientRest, options: ShareOptions, plan: SharePlan)
    requires
        share_plan_ok(c, options, plan),
    ensures
        options.threshold is None ==> plan.threshold == plan.receivers@.len(),
        options.threshold is Some && 0 <= options.threshold->0 <= plan.receivers@.len() ==> plan.threshold
            == options.threshold->0,
        options.threshold is Some && options.threshold->0 > plan.receivers@.len() ==> plan.threshold
            == plan.receivers@.len(),
        (options.threshold is None && options.receivers_list is None && c.party_count >= 0)
            ==> plan.threshold == c.party_count,
{
}

/// What a sharing holds for this client: the field, the receivers and senders, the
/// threshold and the id; `None` when the client neither sends nor receives.
pub open spec fn share_plan_ok(c: RiffClientRest, options: ShareOptions, plan: SharePlan) -> bool {
    &&& plan.Zp == (match options.Zp {
        Some(z) => z,
        None => c.Zp,
    })
    &&& party_list_ok(options.receivers_list, c.party_count as int, plan.receivers@)
    &&& party_list_ok(options.senders_list, c.party_count as int, plan.senders@)
    &&& plan.threshold == clamp_threshold(options.threshold, plan.receivers@.len() as int)
    &&& plan.is_sender == (c.id matches Some(id) && plan.senders@.contains(id))
    &&& plan.is_receiver == (c.id matches Some(id) && plan.receivers@.contains(id))
}

/// What is sent to a receiver for a share of value `v`: sealed with its key when sodium
/// is on, else the decimal text.
pub open spec fn sent_text(c: RiffClientRest, receiver: i64, v: int, t: ShareText) -> bool {
    if c.sodium_ {
        t matches ShareText::Sealed(e) && exists|n: Seq<u8>|
            n.len() == 24 && e.nonce@ == debug_text(n) && e.cipher@ == debug_text(
                sealed_box(
                    ascii_bytes(int_text(v)),
                    n,
                    known_key(c, PartyIdView::Number(receiver as int)),
                    own_secret(c),
                ),
            )
    } else {
        t matches ShareText::Plain(s) && s@ == int_text(v)
    }
}

/// A receiver other than this client whose share cannot be sealed: sodium is on and
/// its key, or the client's own secret key, is not a key.
pub open spec fn keys_missing(c: RiffClientRest, receivers: Seq<i64>) -> bool {
    c.sodium_ && exists|i: int|
        0 <= i < receivers.len() && c.id != Some(#[trigger] receivers[i]) && (known_key(
            c,
            PartyIdView::Number(receivers[i] as int),
        ).len() != 32 || own_secret(c).len() != 32)
}

/// The shares a sender computed: the value of each receiver, and what is sent to each
/// receiver other than itself.
pub struct Outgoing {
    pub values: Vec<i64>,
    pub sends: Vec<Option<ShareText>>,
}

/// Whether every sender other than this client has sent its share for the sharing.
pub open spec fn received_all(c: RiffClientRest, plan: SharePlan) -> bool {
    forall|k: int|
        0 <= k < plan.senders@.len() && c.id != Some(#[trigger] plan.senders@[k]) ==> share_in(
            c.share_map@,
            plan.share_id@,
            plan.senders@[k] as int,
        ) is Some
}

/// A share of the sharing with value `v`.
pub open spec fn plan_share(plan: SharePlan, s: SecretShare, v: int) -> bool {
    &&& s.value == v
    &&& s.holders@ == plan.receivers@
    &&& s.threshold == plan.threshold
    &&& s.Zp == plan.Zp
}

/// The options of an opening; each may be left out.
pub struct OpenOptions {
    pub parties: Option<Vec<i64>>,
    pub op_id: Option<String>,
}

/// How an opening goes for this client: who gets the result, the id, and whether this
/// client holds the share and gets the result.
pub struct OpenPlan {
    pub parties: Vec<i64>,
    pub op_id: String,
    pub is_holder: bool,
    pub is_receiver: bool,
}

/// The options of a request to the crypto provider; each may be left out.
pub struct ProviderOptions {
    pub Zp: Option<i64>,
    pub receivers_list: Option<Vec<i64>>,
    pub threshold: Option<i64>,
    pub op_id: Option<String>,
    pub params: Option<String>,
}

/// A request to the crypto provider.
pub struct ProviderRequest {
    pub label: String,
    pub op_id: String,
    pub receivers: Vec<i64>,
    pub threshold: i64,
    pub Zp: i64,
    pub params: Option<String>,
}

/// The latest share from `sender` for operation `op`, if any.
fn find_share(m: &Vec<(String, i64, i64)>, op: &String, sender: i64) -> (r: Option<i64>)
    ensures
        r == share_in(m@, op@, sender as int),
{
    let mut i: usize = m.len();
    assert(m@.subrange(0, m@.len() as int) =~= m@);
    while i > 0
        invariant
            i <= m@.len(),
            share_in(m@, op@, sender as int) == share_in(m@.subrange(0, i as int), op@, sender as int),
        decreases i,
    {
        let e = &m[i - 1];
        proof {
            assert(m@.subrange(0, i as int).drop_last() =~= m@.subrange(0, i - 1));
        }
        if e.0 == *op && e.1 == sender {
            return Some(e.2);
        }
        i = i - 1;
    }
    None
}

/// Whether the opened shares are in the range the reconstruction takes.
fn check_opened(shares: &Vec<OpenedShare>) -> (r: bool)
    ensures
        r == opened_shares_ok(shares@),
{
    let mut i: usize = 0;
    while i < shares.len()
        invariant
            i <= shares@.len(),
            forall|j: int|
                0 <= j < i ==> {
                    &&& 0 <= #[trigger] shares@[j].sender_id < 100
                    &&& 0 < shares@[j].Zp <= 3037000499
                    &&& -3037000499 <= shares@[j].value <= 3037000499
                },
        decreases shares.len() - i,
    {
        let s = &shares[i];
        if !(0 <= s.sender_id && s.sender_id < 100 && 0 < s.Zp && s.Zp <= 3037000499 && -3037000499 <= s.value
            && s.value <= 3037000499) {
            return false;
        }
        i = i + 1;
    }
    true
}

/// Why a secret cannot be shared: it is negative, or it does not lie below the field.
pub enum ShareInputError {
    Negative,
    OutsideField,
}

/// The ids and the crypto-provider request of a Beaver multiplication with id `op`.
pub struct SmultPlan {
    pub triplet: ProviderOptions,
    pub open1: String,
    pub open2: String,
}

/// The ids and the crypto-provider request of a Beaver multiplication of `x` and `y`
/// with id `op_id`: the triple is asked for under `op_id:triplet`, among the holders of
/// `x`, in its field, with the larger threshold; the two masked values are opened under
/// `op_id:open1` and `op_id:open2`.
pub fn smult_plan(x: &SecretShare, y: &SecretShare, op_id: &String) -> (r: SmultPlan)
    ensures
        r.triplet.Zp == Some(x.Zp),
        r.triplet.receivers_list matches Some(h) && h@ == x.holders@,
        r.triplet.threshold == Some(max_threshold(x.threshold, y.threshold)),
        r.triplet.op_id matches Some(t) && t@ == op_id@ + ":triplet"@,
        r.triplet.params is None,
        r.open1@ == op_id@ + ":open1"@,
        r.open2@ == op_id@ + ":open2"@,
{
    let threshold = if x.threshold >= y.threshold {
        x.threshold
    } else {
        y.threshold
    };
    let mut triplet_id = op_id.clone();
    triplet_id.append(":triplet");
    let mut open1 = op_id.clone();
    open1.append(":open1");
    let mut open2 = op_id.clone();
    open2.append(":open2");
    SmultPlan {
        triplet: ProviderOptions {
            Zp: Some(x.Zp),
            receivers_list: Some(copy_ids(&x.holders)),
            threshold: Some(threshold),
            op_id: Some(triplet_id),
            params: None,
        },
        open1: open1,
        open2: open2,
    }
}

/// The options of a resharing; each may be left out.
pub struct ReshareOptions {
    pub receivers_list: Option<Vec<i64>>,
    pub senders_list: Option<Vec<i64>>,
    pub threshold: Option<i64>,
    pub Zp: Option<i64>,
    pub op_id: Option<String>,
    pub share: Option<SecretShare>,
}

/// How a resharing goes: the share is kept as it is, or it is shared again with these
/// options (the share's value is sent when this client is a sender).
pub enum ReshareStep {
    Keep(SecretShare),
    Share(ShareOptions, bool),
}

/// Whether two lists are the same.
fn same_ids(a: &Vec<i64>, b: &Vec<i64>) -> (r: bool)
    ensures
        r == (a@ == b@),
{
    if a.len() != b.len() {
        return false;
    }
    let mut i: usize = 0;
    while i < a.len()
        invariant
            i <= a@.len(),
            a@.len() == b@.len(),
            forall|j: int| 0 <= j < i ==> a@[j] == b@[j],
        decreases a.len() - i,
    {
        if a[i] != b[i] {
            return false;
        }
        i = i + 1;
    }
    assert(a@ =~= b@);
    true
}

/// The latest preprocessed share for operation `op`.
pub open spec fn preprocessed_in(m: Seq<(String, SecretShare)>, op: Seq<char>) -> Option<SecretShare>
    decreases m.len(),
{
    if m.len() == 0 {
        None
    } else if m.last().0@ == op {
        Some(m.last().1)
    } else {
        preprocessed_in(m.drop_last(), op)
    }
}

/// A copy of a share.
pub fn copy_share(s: &SecretShare) -> (r: SecretShare)
    ensures
        r.value == s.value,
        r.holders@ == s.holders@,
        r.threshold == s.threshold,
        r.Zp == s.Zp,
{
    SecretShare::new(s.value, copy_ids(&s.holders), s.threshold, s.Zp)
}

impl RiffClientRest {
    /// Computes the shares of `secret` for the receivers of a sharing (the polynomial
    /// with constant term `secret` and the other coefficients given), and makes each
    /// share of another receiver ready to send.
    pub fn share_outgoing(&self, plan: &SharePlan, secret: i64, coefficients: &Vec<i64>) -> (r: Result<
        Outgoing,
        ClientError,
    >)
        requires
            self.wf(),
            0 < plan.Zp <= 3037000499,
            0 <= secret < plan.Zp,
            plan.threshold >= 1,
            coefficients@.len() == plan.threshold - 1,
            forall|i: int| 0 <= i < coefficients@.len() ==> 0 <= #[trigger] coefficients@[i] < plan.Zp,
            forall|i: int| 0 <= i < plan.receivers@.len() ==> -3037000499 <= #[trigger] plan.receivers@[i] <= 3037000499,
        ensures
            keys_missing(*self, plan.receivers@) ==> r == Err::<Outgoing, ClientError>(
                ClientError::KeysUnavailable,
            ),
            !keys_missing(*self, plan.receivers@) ==> (r matches Ok(out) && {
                &&& out.values@.len() == plan.receivers@.len()
                &&& out.sends@.len() == plan.receivers@.len()
                &&& forall|i: int|
                    0 <= i < plan.receivers@.len() ==> {
                        &&& #[trigger] out.values@[i] == share_value(
                            sharing_poly(secret, coefficients@),
                            plan.receivers@[i] as int,
                            plan.Zp as int,
                        )
                        &&& (self.id == Some(plan.receivers@[i])) == (out.sends@[i] is None)
                        &&& out.sends@[i] matches Some(t) ==> sent_text(
                            *self,
                            plan.receivers@[i],
                            out.values@[i] as int,
                            t,
                        )
                    }
            }),
    {
        let ghost poly = sharing_poly(secret, coefficients@);
        proof {
            assert forall|i: int| 0 <= i < plan.receivers@.len() implies crate::shamir::share_fits(
                poly,
                #[trigger] plan.receivers@[i] as int,
                plan.Zp as int,
                coefficients@.len(),
            ) by {
                assert(poly.len() == coefficients@.len() + 1);
                assert forall|k: int| 1 <= k < poly.len() implies 0 <= #[trigger] poly[k] < plan.Zp by {
                    assert(poly[k] == coefficients@[k - 1]);
                }
                lemma_share_fits_small(poly, plan.receivers@[i] as int, plan.Zp as int, coefficients@.len());
            }
        }
        let values = jiff_compute_shares(secret, &plan.receivers, plan.threshold as u64, plan.Zp, coefficients);
        let sk = match &self.secret_key {
            Some(k) => copy_bytes(k),
            None => Vec::new(),
        };
        let mut sends: Vec<Option<ShareText>> = Vec::new();
        let mut i: usize = 0;
        let n = plan.receivers.len();
        while i < n
            invariant
                i <= n,
                n == plan.receivers@.len(),
                values@.len() == n,
                self.wf(),
                sk@ == own_secret(*self),
                sends@.len() == i,
                forall|j: int|
                    0 <= j < i ==> {
                        &&& (self.id == Some(plan.receivers@[j])) == (#[trigger] sends@[j] is None)
                        &&& sends@[j] matches Some(t) ==> sent_text(
                            *self,
                            plan.receivers@[j],
                            values@[j] as int,
                            t,
                        )
                    },
                forall|j: int|
                    0 <= j < i && self.sodium_ && self.id != Some(#[trigger] plan.receivers@[j]) ==> known_key(
                        *self,
                        PartyIdView::Number(plan.receivers@[j] as int),
                    ).len() == 32 && own_secret(*self).len() == 32,
            decreases n - i,
        {
            let receiver = plan.receivers[i];
            let own = match self.id {
                Some(id) => id == receiver,
                None => false,
            };
            if own {
                sends.push(None);
            } else {
                let p = PartyId::Number(receiver);
                let pk = match lookup_key(&self.keymap, &p) {
                    Some(k) => k,
                    None => Vec::new(),
                };
                if self.sodium_ && (pk.len() != 32 || sk.len() != 32) {
                    return Err(ClientError::KeysUnavailable);
                }
                let t = encryptSign(self.sodium_, values[i], &pk, &sk);
                sends.push(Some(t));
            }
            i = i + 1;
        }
        Ok(Outgoing { values: values, sends: sends })
    }

    /// The shares of a sharing, once every sender's share arrived: first a share of
    /// value 0, then (when this client receives) the share from each sender in order,
    /// its own computed share `own` for itself. `None` while some share is missing.
    pub fn collect_shares(&self, plan: &SharePlan, own: Option<i64>) -> (r: Option<Vec<SecretShare>>)
        requires
            plan.is_receiver && (self.id matches Some(id) && plan.senders@.contains(id)) ==> own is Some,
        ensures
            !plan.is_receiver ==> (r matches Some(v) && v@.len() == 1 && plan_share(*plan, v@[0], 0)),
            plan.is_receiver ==> (r is Some <==> received_all(*self, *plan)),
            plan.is_receiver && r is Some ==> ({
                let v = r->0@;
                &&& v.len() == plan.senders@.len() + 1
                &&& plan_share(*plan, v[0], 0)
                &&& forall|k: int|
                    0 <= k < plan.senders@.len() ==> plan_share(
                        *plan,
                        #[trigger] v[k + 1],
                        if self.id == Some(plan.senders@[k]) {
                            own->0 as int
                        } else {
                            share_in(self.share_map@, plan.share_id@, plan.senders@[k] as int)->0 as int
                        },
                    )
            }),
    {
        let mut result: Vec<SecretShare> = Vec::new();
        result.push(SecretShare::new(0, copy_ids(&plan.receivers), plan.threshold, plan.Zp));
        if !plan.is_receiver {
            return Some(result);
        }
        let n = plan.senders.len();
        let mut k: usize = 0;
        while k < n
            invariant
                k <= n,
                n == plan.senders@.len(),
                plan.is_receiver,
                plan.is_receiver && (self.id matches Some(id) && plan.senders@.contains(id)) ==> own is Some,
                result@.len() == k + 1,
                plan_share(*plan, result@[0], 0),
                forall|j: int|
                    0 <= j < k && self.id != Some(#[trigger] plan.senders@[j]) ==> share_in(
                        self.share_map@,
                        plan.share_id@,
                        plan.senders@[j] as int,
                    ) is Some,
                forall|j: int|
                    0 <= j < k ==> plan_share(
                        *plan,
                        #[trigger] result@[j + 1],
                        if self.id == Some(plan.senders@[j]) {
                            own->0 as int
                        } else {
                            share_in(self.share_map@, plan.share_id@, plan.senders@[j] as int)->0 as int
                        },
                    ),
            decreases n - k,
        {
            let sender = plan.senders[k];
            let is_own = match self.id {
                Some(id) => id == sender,
                None => false,
            };
            let v = if is_own {
                proof {
                    assert(plan.senders@[k as int] == sender);
                }
                match own {
                    Some(v) => v,
                    None => 0,
                }
            } else {
                match find_share(&self.share_map, &plan.share_id, sender) {
                    Some(v) => v,
                    None => {
                        return None;
                    },
                }
            };
            result.push(SecretShare::new(v, copy_ids(&plan.receivers), plan.threshold, plan.Zp));
            k = k + 1;
        }
        Some(result)
    }

    /// Decides how an opening of `share` goes: the sorted parties that get the result
    /// (all parties by default) and whether this client holds the share or gets the
    /// result. When it does neither, nothing happens (`None`); otherwise the id is the
    /// one given or a fresh one.
    pub fn open_setup(&mut self, share: &SecretShare, options: OpenOptions) -> (r: Option<OpenPlan>)
        requires
            old(self).wf(),
            forall|l: Seq<char>| count_of(old(self).op_count@, l) < i64::MAX,
            old(self).party_count <= i64::MAX - 1,
        ensures
            final(self).wf(),
            match r {
                None => *final(self) == *old(self) && !(old(self).id matches Some(id) && (in_list(
                    options.parties,
                    old(self).party_count as int,
                    id,
                ) || share.holders@.contains(id))),
                Some(plan) => {
                    &&& party_list_ok(options.parties, old(self).party_count as int, plan.parties@)
                    &&& plan.is_holder == (old(self).id matches Some(id) && share.holders@.contains(id))
                    &&& plan.is_receiver == (old(self).id matches Some(id) && plan.parties@.contains(id))
                    &&& plan.is_holder || plan.is_receiver
                    &&& match options.op_id {
                        Some(id) => plan.op_id == id && *final(self) == *old(self),
                        None => draw_post(
                            *old(self),
                            *final(self),
                            op_label2(old(self).op_id_seed@, "open"@, plan.parties@, share.holders@),
                            plan.op_id,
                        ),
                    }
                },
            },
    {
        let parties = party_list(&options.parties, self.party_count);
        let is_holder = contains_id(&share.holders, self.id);
        let is_receiver = contains_id(&parties, self.id);
        if !is_holder && !is_receiver {
            proof {
                if let Some(id) = self.id {
                    lemma_in_list(options.parties, self.party_count as int, parties@, id);
                }
            }
            return None;
        }
        let op_id = match options.op_id {
            Some(id) => id,
            None => {
                let op = String::from_str("open");
                self.gen_op_id2(&op, &parties, &share.holders)
            },
        };
        Some(OpenPlan { parties: parties, op_id: op_id, is_holder: is_holder, is_receiver: is_receiver })
    }

    /// The opened shares that arrived for an operation, in order.
    pub fn opened_shares(&self, op_id: &String) -> (r: Vec<OpenedShare>)
        ensures
            r@ == opens_in(self.open_map@, op_id@),
    {
        let mut r: Vec<OpenedShare> = Vec::new();
        let mut i: usize = 0;
        while i < self.open_map.len()
            invariant
                i <= self.open_map@.len(),
                r@ == opens_in(self.open_map@.subrange(0, i as int), op_id@),
            decreases self.open_map.len() - i,
        {
            proof {
                assert(self.open_map@.subrange(0, i + 1 as int).drop_last() =~= self.open_map@.subrange(0, i as int));
            }
            if self.open_map[i].0 == *op_id {
                let s = &self.open_map[i].1;
                r.push(OpenedShare { value: s.value, sender_id: s.sender_id, Zp: s.Zp });
            }
            i = i + 1;
        }
        assert(self.open_map@.subrange(0, self.open_map@.len() as int) =~= self.open_map@);
        r
    }

    /// The result of an opening, once as many shares as the threshold arrived: the
    /// secret reconstructed by Lagrange interpolation. `Ok(None)` while shares are
    /// missing; an error when the shares are out of the range the reconstruction takes.
    pub fn open_result(&self, op_id: &String, threshold: i64) -> (r: Result<Option<i64>, ClientError>)
        ensures
            opens_in(self.open_map@, op_id@).len() != threshold ==> r == Ok::<Option<i64>, ClientError>(None),
            opens_in(self.open_map@, op_id@).len() == threshold ==> (if opened_shares_ok(
                opens_in(self.open_map@, op_id@),
            ) {
                r == Ok::<Option<i64>, ClientError>(Some(lagrange_value(opens_in(self.open_map@, op_id@)) as i64))
            } else {
                r == Err::<Option<i64>, ClientError>(ClientError::OutOfRange)
            }),
    {
        let shares = self.opened_shares(op_id);
        if shares.len() as u64 != threshold as u64 || threshold < 0 {
            return Ok(None);
        }
        if !check_opened(&shares) {
            return Err(ClientError::OutOfRange);
        }
        let v = jiff_lagrange(&shares);
        Ok(Some(v))
    }

    /// A request to the crypto provider for values of kind `label`: the field, the
    /// sorted receivers (all parties by default), the threshold, the id (the one given
    /// or a fresh one) and the parameters.
    pub fn from_crypto_provider(&mut self, label: String, options: ProviderOptions) -> (r: ProviderRequest)
        requires
            old(self).wf(),
            forall|l: Seq<char>| count_of(old(self).op_count@, l) < i64::MAX,
            options.receivers_list matches Some(v) ==> v@.len() <= i64::MAX,
            old(self).party_count <= i64::MAX - 1,
        ensures
            final(self).wf(),
            r.label == label,
            r.Zp == (match options.Zp {
                Some(z) => z,
                None => old(self).Zp,
            }),
            party_list_ok(options.receivers_list, old(self).party_count as int, r.receivers@),
            r.threshold == clamp_threshold(options.threshold, r.receivers@.len() as int),
            options.threshold is None ==> r.threshold == r.receivers@.len(),
            options.threshold is Some && 0 <= options.threshold->0 <= r.receivers@.len() ==> r.threshold
                == options.threshold->0,
            r.params == options.params,
            match options.op_id {
                Some(id) => r.op_id == id && *final(self) == *old(self),
                None => draw_post(
                    *old(self),
                    *final(self),
                    op_label(old(self).op_id_seed@, "crypto_provider:"@ + label@, r.receivers@),
                    r.op_id,
                ),
            },
    {
        let Zp = match options.Zp {
            Some(z) => z,
            None => self.Zp,
        };
        let receivers = party_list(&options.receivers_list, self.party_count);
        proof {
            if let Some(v) = options.receivers_list {
                vstd::seq_lib::to_multiset_len(receivers@);
                vstd::seq_lib::to_multiset_len(v@);
            }
        }
        let threshold = threshold_of(options.threshold, receivers.len());
        let op_id = match options.op_id {
            Some(id) => id,
            None => {
                let mut op = String::from_str("crypto_provider:");
                let ghost prefix = op@;
                op.append(label.as_str());
                proof {
                    reveal_strlit("crypto_provider:");
                }
                self.gen_op_id(&op, &receivers)
            },
        };
        ProviderRequest {
            label: label,
            op_id: op_id,
            receivers: receivers,
            threshold: threshold,
            Zp: Zp,
            params: options.params,
        }
    }

    /// Sends an opened share to the parties that get the result: the client records its
    /// own share at once (when it gets the result), and each other party gets the value
    /// sealed with its key (or as decimal text without sodium).
    pub fn jiff_broadcast(&mut self, share: &SecretShare, parties: &Vec<i64>, op_id: &String) -> (r: Result<
        Vec<Option<ShareText>>,
        ClientError,
    >)
        requires
            old(self).wf(),
        ensures
            keys_missing(*old(self), parties@) ==> r == Err::<Vec<Option<ShareText>>, ClientError>(
                ClientError::KeysUnavailable,
            ) && *final(self) == *old(self),
            !keys_missing(*old(self), parties@) ==> (r matches Ok(sends) && {
                &&& sends@.len() == parties@.len()
                &&& forall|i: int|
                    0 <= i < parties@.len() ==> {
                        &&& (old(self).id == Some(parties@[i])) == (#[trigger] sends@[i] is None)
                        &&& sends@[i] matches Some(t) ==> sent_text(*old(self), parties@[i], share.value as int, t)
                    }
                &&& final(self).open_map@ == (if old(self).id matches Some(id) && parties@.contains(id) {
                    old(self).open_map@.push(
                        (*op_id, OpenedShare { value: share.value, sender_id: old(self).id->0, Zp: share.Zp }),
                    )
                } else {
                    old(self).open_map@
                })
                &&& *final(self) == (RiffClientRest { open_map: final(self).open_map, ..*old(self) })
            }),
    {
        let sk = match &self.secret_key {
            Some(k) => copy_bytes(k),
            None => Vec::new(),
        };
        let mut sends: Vec<Option<ShareText>> = Vec::new();
        let n = parties.len();
        let mut i: usize = 0;
        while i < n
            invariant
                i <= n,
                n == parties@.len(),
                *self == *old(self),
                self.wf(),
                sk@ == own_secret(*self),
                sends@.len() == i,
                forall|j: int|
                    0 <= j < i ==> {
                        &&& (self.id == Some(parties@[j])) == (#[trigger] sends@[j] is None)
                        &&& sends@[j] matches Some(t) ==> sent_text(*self, parties@[j], share.value as int, t)
                    },
                forall|j: int|
                    0 <= j < i && self.sodium_ && self.id != Some(#[trigger] parties@[j]) ==> known_key(
                        *self,
                        PartyIdView::Number(parties@[j] as int),
                    ).len() == 32 && own_secret(*self).len() == 32,
            decreases n - i,
        {
            let party = parties[i];
            let own = match self.id {
                Some(id) => id == party,
                None => false,
            };
            if own {
                sends.push(None);
            } else {
                let p = PartyId::Number(party);
                let pk = match lookup_key(&self.keymap, &p) {
                    Some(k) => k,
                    None => Vec::new(),
                };
                if self.sodium_ && (pk.len() != 32 || sk.len() != 32) {
                    return Err(ClientError::KeysUnavailable);
                }
                sends.push(Some(encryptSign(self.sodium_, share.value, &pk, &sk)));
            }
            i = i + 1;
        }
        if contains_id(parties, self.id) {
            let id = match self.id {
                Some(id) => id,
                None => 0,
            };
            self.open_map.push((op_id.clone(), OpenedShare { value: share.value, sender_id: id, Zp: share.Zp }));
        }
        Ok(sends)
    }

    /// Decides how a resharing goes: the sorted receivers and senders (all parties by
    /// default), the threshold (the one given, or the number of receivers), the field
    /// and the id. When this client neither sends nor receives, nothing happens
    /// (`None`). When a share is given and neither the parties nor the threshold change,
    /// the share is kept; otherwise it is shared again.
    pub fn reshare_setup(&mut self, options: ReshareOptions) -> (r: Option<ReshareStep>)
        requires
            old(self).wf(),
            forall|l: Seq<char>| count_of(old(self).op_count@, l) < i64::MAX,
            options.receivers_list matches Some(v) ==> v@.len() <= i64::MAX,
            old(self).party_count <= i64::MAX - 1,
        ensures
            final(self).wf(),
            match options.op_id {
                Some(_) => *final(self) == *old(self),
                None => exists|senders: Seq<i64>, id: String|
                    party_list_ok(options.senders_list, old(self).party_count as int, senders)
                        && draw_post(
                        *old(self),
                        *final(self),
                        op_label(old(self).op_id_seed@, "reshare"@, senders),
                        id,
                    ),
            },
            match r {
                None => !(old(self).id matches Some(id) && (in_list(
                    options.receivers_list,
                    old(self).party_count as int,
                    id,
                ) || in_list(options.senders_list, old(self).party_count as int, id))),
                Some(ReshareStep::Keep(s)) => options.share == Some(s) && given_list(
                    options.receivers_list,
                    old(self).party_count as int,
                ) == given_list(options.senders_list, old(self).party_count as int) && match options.threshold {
                    Some(t) => t,
                    None => given_list(options.receivers_list, old(self).party_count as int).len() as i64,
                } == s.threshold,
                Some(ReshareStep::Share(o, sends)) => {
                    &&& o.Zp == Some(
                        match options.Zp {
                            Some(z) => z,
                            None => old(self).Zp,
                        },
                    )
                    &&& o.receivers_list matches Some(rl) && party_list_ok(
                        options.receivers_list,
                        old(self).party_count as int,
                        rl@,
                    )
                    &&& o.senders_list matches Some(sl) && party_list_ok(
                        options.senders_list,
                        old(self).party_count as int,
                        sl@,
                    )
                    &&& o.threshold == Some(
                        match options.threshold {
                            Some(t) => t,
                            None => o.receivers_list->0@.len() as i64,
                        },
                    )
                    &&& o.share_id matches Some(sid) && match options.op_id {
                        Some(given) => sid == given,
                        None => draw_post(
                            *old(self),
                            *final(self),
                            op_label(old(self).op_id_seed@, "reshare"@, o.senders_list->0@),
                            sid,
                        ),
                    }
                    &&& sends == (old(self).id matches Some(id) && o.senders_list->0@.contains(id))
                    &&& options.share matches Some(s) ==> !(given_list(
                        options.receivers_list,
                        old(self).party_count as int,
                    ) == given_list(options.senders_list, old(self).party_count as int) && o.threshold
                        == Some(s.threshold))
                },
            },
            (r is None) == !(old(self).id matches Some(id) && (in_list(
                options.receivers_list,
                old(self).party_count as int,
                id,
            ) || in_list(options.senders_list, old(self).party_count as int, id))),
    {
        let receivers = party_list(&options.receivers_list, self.party_count);
        let senders = party_list(&options.senders_list, self.party_count);
        proof {
            if let Some(v) = options.receivers_list {
                vstd::seq_lib::to_multiset_len(receivers@);
                vstd::seq_lib::to_multiset_len(v@);
            }
        }
        let threshold = match options.threshold {
            Some(t) => t,
            None => receivers.len() as i64,
        };
        let Zp = match options.Zp {
            Some(z) => z,
            None => self.Zp,
        };
        let op_id = match options.op_id {
            Some(id) => id,
            None => {
                let op = String::from_str("reshare");
                self.gen_op_id(&op, &senders)
            },
        };
        let is_sender = contains_id(&senders, self.id);
        let is_receiver = contains_id(&receivers, self.id);
        proof {
            if let Some(id) = self.id {
                lemma_in_list(options.receivers_list, self.party_count as int, receivers@, id);
                lemma_in_list(options.senders_list, self.party_count as int, senders@, id);
            }
            lemma_given_list(options.receivers_list, self.party_count as int, receivers@);
            lemma_given_list(options.senders_list, self.party_count as int, senders@);
        }
        if !is_sender && !is_receiver {
            return None;
        }
        if let Some(s) = options.share {
            if same_ids(&receivers, &senders) && threshold == s.threshold {
                return Some(ReshareStep::Keep(s));
            }
        }
        Some(
            ReshareStep::Share(
                ShareOptions {
                    Zp: Some(Zp),
                    receivers_list: Some(receivers),
                    senders_list: Some(senders),
                    threshold: Some(threshold),
                    share_id: Some(op_id),
                },
                is_sender,
            ),
        )
    }

    /// The preprocessed share of an operation. Without one, the crypto provider is
    /// asked when it is used (`None`); otherwise the operation cannot go on.
    pub fn get_preprocessing(&self, op_id: &String) -> (r: Result<Option<SecretShare>, ClientError>)
        ensures
            match preprocessed_in(self.preprocessing_table@, op_id@) {
                Some(s) => r matches Ok(Some(c)) && c.value == s.value && c.holders@ == s.holders@
                    && c.threshold == s.threshold && c.Zp == s.Zp,
                None => if self.crypto_provider {
                    r == Ok::<Option<SecretShare>, ClientError>(None)
                } else {
                    r == Err::<Option<SecretShare>, ClientError>(ClientError::NoPreprocessing)
                },
            },
    {
        let m = &self.preprocessing_table;
        let mut i: usize = m.len();
        assert(m@.subrange(0, m@.len() as int) =~= m@);
        while i > 0
            invariant
                i <= m@.len(),
                m@ == self.preprocessing_table@,
                preprocessed_in(m@, op_id@) == preprocessed_in(m@.subrange(0, i as int), op_id@),
            decreases i,
        {
            proof {
                assert(m@.subrange(0, i as int).drop_last() =~= m@.subrange(0, i - 1));
            }
            if m[i - 1].0 == *op_id {
                return Ok(Some(copy_share(&m[i - 1].1)));
            }
            i = i - 1;
        }
        if self.crypto_provider {
            Ok(None)
        } else {
            Err(ClientError::NoPreprocessing)
        }
    }

    /// Checks a secret before it is shared in the field given (or the client's own):
    /// it must not be negative and must lie below the field.
    pub fn share_input_check(&self, secret: i64, Zp: Option<i64>) -> (r: Option<ShareInputError>)
        ensures
            r == (if secret < 0 {
                Some(ShareInputError::Negative)
            } else if secret >= (match Zp {
                Some(z) => z,
                None => self.Zp,
            }) {
                Some(ShareInputError::OutsideField)
            } else {
                None
            }),
    {
        let zp = match Zp {
            Some(z) => z,
            None => self.Zp,
        };
        if secret < 0 {
            Some(ShareInputError::Negative)
        } else if secret >= zp {
            Some(ShareInputError::OutsideField)
        } else {
            None
        }
    }

    /// Decides how a sharing goes: the field, the sorted receivers and senders (all
    /// parties by default), the threshold, and whether this client sends or receives.
    /// When it does neither, nothing happens (`None`); otherwise the share id is the one
    /// given or a fresh one.
    pub fn share_setup(&mut self, options: ShareOptions) -> (r: Option<SharePlan>)
        requires
            old(self).wf(),
            forall|l: Seq<char>| count_of(old(self).op_count@, l) < i64::MAX,
            options.receivers_list matches Some(v) ==> v@.len() <= i64::MAX,
            old(self).party_count <= i64::MAX - 1,
        ensures
            final(self).wf(),
            match r {
                None => *final(self) == *old(self) && !(old(self).id matches Some(id) && (in_list(
                    options.receivers_list,
                    old(self).party_count as int,
                    id,
                ) || in_list(options.senders_list, old(self).party_count as int, id))),
                Some(plan) => {
                    &&& share_plan_ok(*old(self), options, plan)
                    &&& options.threshold is None ==> plan.threshold == plan.receivers@.len()
                    &&& options.threshold is Some && 0 <= options.threshold->0 <= plan.receivers@.len()
                        ==> plan.threshold == options.threshold->0
                    &&& plan.is_sender || plan.is_receiver
                    &&& match options.share_id {
                        Some(id) => plan.share_id == id && *final(self) == *old(self),
                        None => draw_post(
                            *old(self),
                            *final(self),
                            op_label2(old(self).op_id_seed@, "share"@, plan.receivers@, plan.senders@),
                            plan.share_id,
                        ),
                    }
                },
            },
    {
        let Zp = match options.Zp {
            Some(z) => z,
            None => self.Zp,
        };
        let receivers = party_list(&options.receivers_list, self.party_count);
        let senders = party_list(&options.senders_list, self.party_count);
        proof {
            if let Some(v) = options.receivers_list {
                vstd::seq_lib::to_multiset_len(receivers@);
                vstd::seq_lib::to_multiset_len(v@);
            }
        }
        let threshold = threshold_of(options.threshold, receivers.len());
        let is_receiver = contains_id(&receivers, self.id);
        let is_sender = contains_id(&senders, self.id);
        if !is_receiver && !is_sender {
            proof {
                if let Some(id) = self.id {
                    lemma_in_list(options.receivers_list, self.party_count as int, receivers@, id);
                    lemma_in_list(options.senders_list, self.party_count as int, senders@, id);
                }
            }
            return None;
        }
        let share_id = match options.share_id {
            Some(id) => id,
            None => {
                let op = String::from_str("share");
                self.gen_op_id2(&op, &receivers, &senders)
            },
        };
        Some(
            SharePlan {
                Zp: Zp,
                receivers: receivers,
                senders: senders,
                threshold: threshold,
                share_id: share_id,
                is_sender: is_sender,
                is_receiver: is_receiver,
            },
        )
    }
}

} // verus!
