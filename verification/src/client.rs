//! The client of the REST extension: its options, its state, the operation ids it
//! draws, and what it does with the keys and shares that arrive.
use vstd::prelude::*;
use crate::common::{PartyId, PartyIdView, dec_text, int_text, int_to_text, join_ints, join_numbers, lemma_dec_text_injective};
use crate::mailbox::Mailbox;
use crate::helper::is_prime_spec;
use crate::secret_share::SecretShare;
use crate::shamir::OpenedShare;

verus! {

/// The default field of a client: the prime 16777729.
pub const DEFAULT_ZP: i64 = 16777729;

/// How often a client retries its initialization, by default.
pub const MAX_INITIALIZATION_RETRIES: i64 = 2;

/// The text that `str::trim` leaves of a text.
pub uninterp spec fn trimmed(s: Seq<char>) -> Seq<char>;

/// A visible ASCII character (`!` to `~`), which is not white space.
pub open spec fn visible_ascii(c: char) -> bool {
    '!' <= c <= '~'
}

/// Calls `str::trim`, which drops the white space at both ends; its result is named
/// `trimmed`. A text that is empty, or starts and ends with a visible ASCII character,
/// has no white space to drop and comes back as it is.
#[verifier::external_body]
fn trim_text(s: &String) -> (r: String)
    ensures
        r@ == trimmed(s@),
        s@.len() == 0 ==> r@ == s@,
        s@.len() > 0 && visible_ascii(s@[0]) && visible_ascii(s@.last()) ==> r@ == s@,
{
    s.trim().to_string()
}

/// Calls `primes::is_prime`, which tells whether `n` is prime. It searches factors up
/// to the square root, whose square overflows from `0xFFFF_FFFE_0000_0001` on.
#[verifier::external_body]
fn prime_check(n: u64) -> (r: bool)
    requires
        n < 0xFFFF_FFFE_0000_0001u64,
    ensures
        r == is_prime_spec(n as nat),
{
    primes::is_prime(n)
}

/// The numbers are in increasing order (equal ones side by side).
pub open spec fn sorted(v: Seq<i64>) -> bool {
    forall|i: int, j: int| 0 <= i <= j < v.len() ==> v[i] <= v[j]
}

/// Calls `slice::sort`, which puts the numbers in increasing order.
#[verifier::external_body]
pub(crate) fn sort_ids(v: &mut Vec<i64>)
    ensures
        sorted(final(v)@),
        final(v)@.to_multiset() == old(v)@.to_multiset(),
{
    v.sort();
}

/// What a client is created with; each option may be left out.
pub struct ClientOptions {
    pub Zp: Option<i64>,
    pub safemod: Option<bool>,
    pub party_id: Option<i64>,
    pub party_count: Option<i64>,
    pub sodium: Option<bool>,
    pub public_keys: Option<Vec<(PartyId, Vec<u8>)>>,
    pub secret_key: Option<Vec<u8>>,
    pub public_key: Option<Vec<u8>>,
    pub crypto_provider: Option<bool>,
    pub preprocessingBatchSize: Option<i64>,
    pub internal_socket: bool,
    pub pollInterval: Option<i64>,
    pub flushInterval: Option<i64>,
    pub maxBatchSize: Option<i64>,
    pub maxInitializationRetries: Option<i64>,
}

/// Why the client refused something.
pub enum ClientError {
    NotPrime,
    InternalSocket,
    KeysUnavailable,
    InvalidKey,
    UnknownLabel,
    UnknownSender,
    Crypto(crate::crypto::CryptoError),
    OutOfRange,
    NoPreprocessing,
}

/// What the crypto provider sent for an operation: its values (the JSON text, when it
/// sent any) and the shares made from its numbers (when it sent any).
pub struct Provided {
    pub values: Option<String>,
    pub shares: Option<Vec<SecretShare>>,
}

/// A message that arrived before the key of its sender: its label and its text.
pub struct WaitingMessage {
    pub label: String,
    pub msg: String,
}

/// The state of a client. The keys it knows, by party; the messages that wait for the
/// key of their sender, in arrival order; and what arrived for each operation: the
/// shares (operation, sender, value), the opened shares and the shares from the crypto
/// provider, where a later entry replaces an earlier one for the same operation and
/// sender.
pub struct RiffClientRest {
    pub hostname: String,
    pub computation_id: String,
    pub __ready: bool,
    pub __initialized: bool,
    pub Zp: i64,
    pub id: Option<i64>,
    pub party_count: i64,
    pub sodium_: bool,
    pub keymap: Vec<(PartyId, Vec<u8>)>,
    pub secret_key: Option<Vec<u8>>,
    pub public_key: Option<Vec<u8>>,
    pub crypto_provider: bool,
    pub messagesWaitingKeys: Vec<(PartyId, WaitingMessage)>,
    pub initialization_counter: i64,
    pub preprocessingBatchSize: i64,
    pub op_id_seed: String,
    pub op_count: Vec<(String, i64)>,
    pub maxBatchSize: i64,
    pub pollInterval: i64,
    pub flushInterval: i64,
    pub maxInitializationRetries: i64,
    pub mailbox: Mailbox,
    pub share_map: Vec<(String, i64, i64)>,
    pub open_map: Vec<(String, OpenedShare)>,
    pub crypto_map: Vec<(String, Provided)>,
    pub preprocessing_table: Vec<(String, SecretShare)>,
}

/// A text ending with `/`: as it is when it does, else with `/` added.
pub open spec fn slashed(t: Seq<char>) -> Seq<char> {
    if t.len() > 0 && t.last() == '/' {
        t
    } else {
        t + seq!['/']
    }
}

/// The host name: trimmed, and ending with `/`.
pub open spec fn host_of(h: Seq<char>) -> Seq<char> {
    slashed(trimmed(h))
}

/// Whether creating a client with these options is refused, and why.
pub open spec fn new_error(options: ClientOptions) -> Option<ClientError> {
    if options.Zp is Some && options.safemod != Some(false) && !is_prime_spec(
        (options.Zp->0 as u64) as nat,
    ) {
        Some(ClientError::NotPrime)
    } else if options.internal_socket {
        Some(ClientError::InternalSocket)
    } else {
        None
    }
}

/// An option with its default.
pub open spec fn or_default<T>(o: Option<T>, d: T) -> T {
    match o {
        Some(v) => v,
        None => d,
    }
}

/// No label is counted twice, and every count is at least zero.
pub open spec fn counts_wf(counts: Seq<(String, i64)>) -> bool {
    &&& forall|i: int, j: int| 0 <= i < j < counts.len() ==> #[trigger] counts[i].0@ != #[trigger] counts[j].0@
    &&& forall|i: int| 0 <= i < counts.len() ==> #[trigger] counts[i].1 >= 0
}

/// The index of the count of `label`, or -1.
pub open spec fn count_index(counts: Seq<(String, i64)>, label: Seq<char>) -> int {
    if exists|i: int| 0 <= i < counts.len() && #[trigger] counts[i].0@ == label {
        choose|i: int| 0 <= i < counts.len() && #[trigger] counts[i].0@ == label
    } else {
        -1
    }
}

/// How many operation ids were drawn for `label` (0 when none was).
pub open spec fn count_of(counts: Seq<(String, i64)>, label: Seq<char>) -> int {
    let i = count_index(counts, label);
    if i >= 0 {
        counts[i].1 as int
    } else {
        0
    }
}

/// The label of an operation on the shares of `holders`.
pub open spec fn op_label(seed: Seq<char>, op: Seq<char>, holders: Seq<i64>) -> Seq<char> {
    seed + op + seq![':'] + join_ints(holders)
}

/// The label of an operation from `senders` to `receivers`.
pub open spec fn op_label2(seed: Seq<char>, op: Seq<char>, receivers: Seq<i64>, senders: Seq<i64>) -> Seq<
    char,
> {
    seed + op + seq![':'] + join_ints(senders) + seq![':'] + join_ints(receivers)
}

/// What drawing an id for `label` does to the counts, returning `r`.
pub open spec fn draw_post(s0: RiffClientRest, s1: RiffClientRest, label: Seq<char>, r: String) -> bool {
    let c = count_of(s0.op_count@, label);
    &&& r@ == label + seq![':'] + int_text(c)
    &&& counts_wf(s1.op_count@)
    &&& count_of(s1.op_count@, label) == c + 1
    &&& forall|l: Seq<char>| l != label ==> #[trigger] count_of(s1.op_count@, l) == count_of(s0.op_count@, l)
    &&& s1 == (RiffClientRest { op_count: s1.op_count, ..s0 })
}

proof fn lemma_count_index(counts: Seq<(String, i64)>, label: Seq<char>, i: int)
    requires
        counts_wf(counts),
        0 <= i < counts.len(),
        counts[i].0@ == label,
    ensures
        count_index(counts, label) == i,
{
    let j = choose|j: int| 0 <= j < counts.len() && #[trigger] counts[j].0@ == label;
    if j < i {
        assert(counts[j].0@ != counts[i].0@);
    } else if j > i {
        assert(counts[i].0@ != counts[j].0@);
    }
}

/// Counts one more id for `label`; returns how many were counted before.
fn bump_count(counts: &mut Vec<(String, i64)>, label: &String) -> (r: i64)
    requires
        counts_wf(old(counts)@),
        count_of(old(counts)@, label@) < i64::MAX,
    ensures
        r == count_of(old(counts)@, label@),
        counts_wf(final(counts)@),
        count_of(final(counts)@, label@) == r + 1,
        forall|l: Seq<char>| l != label@ ==> #[trigger] count_of(final(counts)@, l) == count_of(old(counts)@, l),
{
    let ghost oc = counts@;
    let mut i: usize = 0;
    while i < counts.len()
        invariant
            i <= counts@.len(),
            counts@ == oc,
            oc == old(counts)@,
            counts_wf(oc),
            count_of(oc, label@) < i64::MAX,
            forall|j: int| 0 <= j < i ==> #[trigger] oc[j].0@ != label@,
        decreases counts.len() - i,
    {
        if counts[i].0 == *label {
            let c = counts[i].1;
            proof {
                lemma_count_index(oc, label@, i as int);
            }
            counts.set(i, (label.clone(), c + 1));
            proof {
                let nc = counts@;
                assert forall|a: int, b: int| 0 <= a < b < nc.len() implies #[trigger] nc[a].0@
                    != #[trigger] nc[b].0@ by {
                    assert(nc[a].0@ == oc[a].0@);
                    assert(nc[b].0@ == oc[b].0@);
                }
                lemma_count_index(nc, label@, i as int);
                assert forall|l: Seq<char>| l != label@ implies #[trigger] count_of(nc, l) == count_of(oc, l) by {
                    if count_index(oc, l) >= 0 {
                        let k = count_index(oc, l);
                        lemma_count_index(oc, l, k);
                        lemma_count_index(nc, l, k);
                    }
                    if count_index(nc, l) >= 0 {
                        let k = count_index(nc, l);
                        lemma_count_index(nc, l, k);
                        lemma_count_index(oc, l, k);
                    }
                }
            }
            return c;
        }
        i = i + 1;
    }
    counts.push((label.clone(), 1));
    proof {
        let nc = counts@;
        let n = oc.len() as int;
        assert forall|a: int, b: int| 0 <= a < b < nc.len() implies #[trigger] nc[a].0@ != #[trigger] nc[b].0@ by {
            assert(nc[a] == oc[a]);
            if b < n {
                assert(nc[b] == oc[b]);
            }
        }
        lemma_count_index(nc, label@, n);
        assert forall|l: Seq<char>| l != label@ implies #[trigger] count_of(nc, l) == count_of(oc, l) by {
            if count_index(oc, l) >= 0 {
                let k = count_index(oc, l);
                lemma_count_index(oc, l, k);
                assert(nc[k] == oc[k]);
                lemma_count_index(nc, l, k);
            }
            if count_index(nc, l) >= 0 {
                let k = count_index(nc, l);
                lemma_count_index(nc, l, k);
                assert(k != n);
                assert(nc[k] == oc[k]);
                lemma_count_index(oc, l, k);
            }
        }
    }
    0
}

/// Drawing two ids for the same label, one after the other, gives two different ids.
pub proof fn law_op_ids_differ(
    s0: RiffClientRest,
    s1: RiffClientRest,
    s2: RiffClientRest,
    label: Seq<char>,
    r1: String,
    r2: String,
)
    requires
        counts_wf(s0.op_count@),
        draw_post(s0, s1, label, r1),
        draw_post(s1, s2, label, r2),
    ensures
        r1@ != r2@,
{
    let c = count_of(s0.op_count@, label);
    assert(c >= 0) by {
        let i = count_index(s0.op_count@, label);
        if i >= 0 {
            assert(s0.op_count@[i].1 >= 0);
        }
    }
    let prefix = label + seq![':'];
    if r1@ == r2@ {
        assert(r1@.subrange(prefix.len() as int, r1@.len() as int) =~= int_text(c));
        assert(r2@.subrange(prefix.len() as int, r2@.len() as int) =~= int_text(c + 1));
        assert(dec_text(c as nat) == dec_text((c + 1) as nat));
        lemma_dec_text_injective(c as nat, (c + 1) as nat);
    }
}

impl RiffClientRest {
    /// A new client of computation `computation_id` at `hostname`. A field that is
    /// given is checked to be prime unless `safemod` is set to false.
    pub fn new(hostname: String, computation_id: String, options: ClientOptions) -> (r: Result<
        RiffClientRest,
        ClientError,
    >)
        requires
            options.Zp is Some && options.safemod != Some(false) ==> (options.Zp->0 as u64)
                < 0xFFFF_FFFE_0000_0001u64,
        ensures
            match new_error(options) {
                Some(e) => r == Err::<RiffClientRest, ClientError>(e),
                None => r matches Ok(c) && {
                    &&& c.hostname@ == host_of(hostname@)
                    &&& hostname@.len() > 0 && visible_ascii(hostname@[0]) && visible_ascii(
                        hostname@.last(),
                    ) ==> c.hostname@ == slashed(hostname@)
                    &&& c.computation_id == computation_id
                    &&& !c.__ready && !c.__initialized
                    &&& c.Zp == or_default(options.Zp, DEFAULT_ZP)
                    &&& c.id == options.party_id
                    &&& c.party_count == or_default(options.party_count, 2)
                    &&& c.sodium_ == or_default(options.sodium, false)
                    &&& c.keymap@ == (match options.public_keys {
                        Some(k) => k@,
                        None => Seq::empty(),
                    })
                    &&& c.secret_key == options.secret_key
                    &&& c.public_key == options.public_key
                    &&& c.crypto_provider == or_default(options.crypto_provider, false)
                    &&& c.messagesWaitingKeys@.len() == 0
                    &&& c.initialization_counter == 0
                    &&& c.preprocessingBatchSize == or_default(options.preprocessingBatchSize, 10)
                    &&& c.op_id_seed@ == Seq::<char>::empty()
                    &&& c.op_count@.len() == 0
                    &&& c.maxBatchSize == or_default(options.maxBatchSize, 150)
                    &&& c.pollInterval == or_default(options.pollInterval, 500)
                    &&& c.flushInterval == or_default(options.flushInterval, 1000)
                    &&& c.maxInitializationRetries == or_default(
                        options.maxInitializationRetries,
                        MAX_INITIALIZATION_RETRIES,
                    )
                    &&& c.mailbox.pending is None
                    &&& c.mailbox.current.messages is None
                    &&& c.mailbox.current.initialization is None
                    &&& c.mailbox.current.ack is None
                    &&& c.share_map@.len() == 0
                    &&& c.open_map@.len() == 0
                    &&& c.crypto_map@.len() == 0
                    &&& c.preprocessing_table@.len() == 0
                },
            },
    {
        let mut host = trim_text(&hostname);
        let len = host.as_str().unicode_len();
        let ends_with_slash = len > 0 && host.as_str().get_char(len - 1) == '/';
        if !ends_with_slash {
            host.append("/");
            proof {
                reveal_strlit("/");
            }
        }
        if let Some(zp) = options.Zp {
            let skip_check = match options.safemod {
                Some(false) => true,
                _ => false,
            };
            if !skip_check {
                if !prime_check(zp as u64) {
                    return Err(ClientError::NotPrime);
                }
            }
        }
        if options.internal_socket {
            return Err(ClientError::InternalSocket);
        }
        let keymap = match options.public_keys {
            Some(k) => k,
            None => Vec::new(),
        };
        Ok(RiffClientRest {
            hostname: host,
            computation_id: computation_id,
            __ready: false,
            __initialized: false,
            Zp: match options.Zp {
                Some(z) => z,
                None => DEFAULT_ZP,
            },
            id: options.party_id,
            party_count: match options.party_count {
                Some(n) => n,
                None => 2,
            },
            sodium_: match options.sodium {
                Some(s) => s,
                None => false,
            },
            keymap: keymap,
            secret_key: options.secret_key,
            public_key: options.public_key,
            crypto_provider: match options.crypto_provider {
                Some(c) => c,
                None => false,
            },
            messagesWaitingKeys: Vec::new(),
            initialization_counter: 0,
            preprocessingBatchSize: match options.preprocessingBatchSize {
                Some(n) => n,
                None => 10,
            },
            op_id_seed: String::new(),
            op_count: Vec::new(),
            maxBatchSize: match options.maxBatchSize {
                Some(n) => n,
                None => 150,
            },
            pollInterval: match options.pollInterval {
                Some(n) => n,
                None => 500,
            },
            flushInterval: match options.flushInterval {
                Some(n) => n,
                None => 1000,
            },
            maxInitializationRetries: match options.maxInitializationRetries {
                Some(n) => n,
                None => MAX_INITIALIZATION_RETRIES,
            },
            mailbox: Mailbox::new(),
            share_map: Vec::new(),
            open_map: Vec::new(),
            crypto_map: Vec::new(),
            preprocessing_table: Vec::new(),
        })
    }


    /// Draws the next id for `label`: the label, `:`, and how many ids were drawn for it
    /// before.
    fn draw_id(&mut self, label: String) -> (r: String)
        requires
            counts_wf(old(self).op_count@),
            count_of(old(self).op_count@, label@) < i64::MAX,
        ensures
            draw_post(*old(self), *final(self), label@, r),
    {
        let ghost lv = label@;
        let c = bump_count(&mut self.op_count, &label);
        let mut r = label;
        r.append(":");
        proof {
            reveal_strlit(":");
        }
        let t = int_to_text(c);
        r.append(t.as_str());
        assert(r@ =~= lv + seq![':'] + int_text(c as int));
        r
    }

    /// The id of an operation `op` on the shares of `holders`: the seed, `op`, `:`, the
    /// holders separated by commas, `:`, and how many such ids were drawn before.
    pub fn gen_op_id(&mut self, op: &String, holders: &Vec<i64>) -> (r: String)
        requires
            counts_wf(old(self).op_count@),
            count_of(old(self).op_count@, op_label(old(self).op_id_seed@, op@, holders@)) < i64::MAX,
        ensures
            draw_post(*old(self), *final(self), op_label(old(self).op_id_seed@, op@, holders@), r),
    {
        let mut label = self.op_id_seed.clone();
        label.append(op.as_str());
        label.append(":");
        proof {
            reveal_strlit(":");
        }
        let ids = join_numbers(holders);
        label.append(ids.as_str());
        assert(label@ =~= op_label(self.op_id_seed@, op@, holders@));
        self.draw_id(label)
    }

    /// The id of an operation `op` from `senders` to `receivers`: the seed, `op`, `:`, the
    /// senders, `:`, the receivers, `:`, and how many such ids were drawn before.
    pub fn gen_op_id2(&mut self, op: &String, receivers: &Vec<i64>, senders: &Vec<i64>) -> (r: String)
        requires
            counts_wf(old(self).op_count@),
            count_of(old(self).op_count@, op_label2(old(self).op_id_seed@, op@, receivers@, senders@))
                < i64::MAX,
        ensures
            draw_post(*old(self), *final(self), op_label2(old(self).op_id_seed@, op@, receivers@, senders@), r),
    {
        let mut label = self.op_id_seed.clone();
        label.append(op.as_str());
        label.append(":");
        proof {
            reveal_strlit(":");
        }
        let s = join_numbers(senders);
        label.append(s.as_str());
        label.append(":");
        let t = join_numbers(receivers);
        label.append(t.as_str());
        assert(label@ =~= op_label2(self.op_id_seed@, op@, receivers@, senders@));
        self.draw_id(label)
    }

    /// Whether the client can start computing: it initialized with the server and
    /// knows the keys of all parties.
    pub fn isReady(&self) -> (r: bool)
        ensures
            r == self.__ready,
            self.wf() ==> (r ==> self.__initialized),
    {
        self.__ready
    }

    /// Whether the client initialized with the server.
    pub fn isInitialized(&self) -> (r: bool)
        ensures
            r == self.__initialized,
    {
        self.__initialized
    }
}

} // verus!
