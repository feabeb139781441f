//! The server of the REST extension: the state of each computation, the mailboxes
//! that hold messages until a party polls for them, and the acknowledgement tags
//! that free delivered messages.
use vstd::prelude::*;
use crate::common::{PartyId, PartyIdView};
use crate::intervals::intervals;

verus! {

/// A message waiting in a mailbox.
pub struct Letter {
    pub label: String,
    pub msg: String,
}

/// The messages last sent to a party and not yet acknowledged: the tag of the
/// delivery and the index of the last message sent.
pub struct pending_message {
    pub tag: u64,
    pub store_id: u64,
}

/// What the server keeps about one party of a computation.
pub struct PartyRecord {
    pub party_id: PartyId,
    pub mailbox: Option<Vec<Letter>>,
    pub tag: Option<u64>,
    pub pending: Option<pending_message>,
}

/// What the server keeps about one computation.
pub struct ComputationState {
    pub computation_id: String,
    pub client_ids: Vec<PartyId>,
    pub max_count: i64,
    pub keys: Vec<(PartyId, Vec<u8>)>,
    pub secret_key: Option<Vec<u8>>,
    pub free_parties: Vec<PartyId>,
    pub parties: Vec<PartyRecord>,
}

/// The free party ids of a computation.
pub struct SpareIds {
    pub computation_id: String,
    pub ids: intervals,
}

/// The state of the REST server.
pub struct restfulAPI {
    pub computations: Vec<ComputationState>,
    pub spare_ids: Vec<SpareIds>,
    pub sodium: bool,
}

/// The public keys sent to the parties of a computation: each party number with the
/// text of its key.
pub struct Broad_Cast_Message {
    pub public_keys: Vec<(u64, String)>,
}

/// What a server offers to send a message to a party of a computation.
pub trait server_trait {
    fn send(&mut self, json: String, party_id: u32, computation_id: u32);
}

/// What a poll hands the party: the acknowledgement tag and the messages.
pub struct Dumped {
    pub ack: Option<u64>,
    pub messages: Vec<Letter>,
}

/// The tags cycle below this bound.
pub open spec fn tag_bound() -> int {
    4294967296
}

/// The first index at which `p` stands in a list of parties, or -1.
pub open spec fn party_index(parties: Seq<PartyRecord>, p: PartyIdView) -> int {
    if exists|i: int| 0 <= i < parties.len() && #[trigger] parties[i].party_id@ == p {
        choose|i: int| 0 <= i < parties.len() && #[trigger] parties[i].party_id@ == p
    } else {
        -1
    }
}

/// No party stands twice, and every tag lies below the bound.
pub open spec fn parties_wf(parties: Seq<PartyRecord>) -> bool {
    &&& forall|i: int, j: int|
        0 <= i < j < parties.len() ==> #[trigger] parties[i].party_id@ != #[trigger] parties[j].party_id@
    &&& forall|i: int|
        0 <= i < parties.len() ==> (#[trigger] parties[i].tag matches Some(t) ==> t < tag_bound())
}

/// No party has two keys.
pub open spec fn keys_wf(keys: Seq<(PartyId, Vec<u8>)>) -> bool {
    forall|i: int, j: int| 0 <= i < j < keys.len() ==> #[trigger] keys[i].0@ != #[trigger] keys[j].0@
}

/// The index of the key of `p`, or -1.
pub open spec fn key_index(keys: Seq<(PartyId, Vec<u8>)>, p: PartyIdView) -> int {
    if exists|i: int| 0 <= i < keys.len() && #[trigger] keys[i].0@ == p {
        choose|i: int| 0 <= i < keys.len() && #[trigger] keys[i].0@ == p
    } else {
        -1
    }
}

/// The key of `p`, if any.
pub open spec fn key_in(keys: Seq<(PartyId, Vec<u8>)>, p: PartyIdView) -> Option<Seq<u8>> {
    let i = key_index(keys, p);
    if i >= 0 {
        Some(keys[i].1@)
    } else {
        None
    }
}

/// The keys as a map from party to key.
pub open spec fn key_map(keys: Seq<(PartyId, Vec<u8>)>) -> Map<PartyIdView, Seq<u8>> {
    Map::new(|p: PartyIdView| key_in(keys, p) is Some, |p: PartyIdView| key_in(keys, p)->0)
}

/// No party id stands twice in the list.
pub open spec fn ids_unique(ids: Seq<PartyId>) -> bool {
    forall|i: int, j: int| 0 <= i < j < ids.len() ==> #[trigger] ids[i]@ != #[trigger] ids[j]@
}

/// Two party ids are the same.
pub fn same_party(a: &PartyId, b: &PartyId) -> (r: bool)
    ensures
        r == (a@ == b@),
{
    match (a, b) {
        (PartyId::Number(x), PartyId::Number(y)) => *x == *y,
        (PartyId::Text(s), PartyId::Text(t)) => *s == *t,
        _ => false,
    }
}

/// A copy of a party id.
pub fn copy_party(p: &PartyId) -> (r: PartyId)
    ensures
        r == *p,
{
    match p {
        PartyId::Number(x) => PartyId::Number(*x),
        PartyId::Text(s) => PartyId::Text(s.clone()),
    }
}

/// A copy of a letter.
pub fn copy_letter(l: &Letter) -> (r: Letter)
    ensures
        r == *l,
{
    Letter { label: l.label.clone(), msg: l.msg.clone() }
}

/// In a list without repeated parties, the index of `p` is where it stands.
pub(crate) proof fn lemma_party_index(parties: Seq<PartyRecord>, p: PartyIdView, i: int)
    requires
        parties_wf(parties),
        0 <= i < parties.len(),
        parties[i].party_id@ == p,
    ensures
        party_index(parties, p) == i,
{
    let j = choose|j: int| 0 <= j < parties.len() && #[trigger] parties[j].party_id@ == p;
    if j < i {
        assert(parties[j].party_id@ != parties[i].party_id@);
    } else if j > i {
        assert(parties[i].party_id@ != parties[j].party_id@);
    }
}

/// Finds the index of a party in a list of parties.
pub(crate) fn find_party(parties: &Vec<PartyRecord>, p: &PartyId) -> (r: Option<usize>)
    requires
        parties_wf(parties@),
    ensures
        r matches Some(i) ==> i == party_index(parties@, p@) && i < parties@.len(),
        r is None ==> party_index(parties@, p@) == -1,
{
    let mut i: usize = 0;
    while i < parties.len()
        invariant
            i <= parties@.len(),
            parties_wf(parties@),
            forall|j: int| 0 <= j < i ==> #[trigger] parties@[j].party_id@ != p@,
        decreases parties.len() - i,
    {
        if same_party(&parties[i].party_id, p) {
            proof {
                lemma_party_index(parties@, p@, i as int);
            }
            return Some(i);
        }
        i = i + 1;
    }
    None
}

/// The metadata of two computation states agree.
pub open spec fn same_meta(a: ComputationState, b: ComputationState) -> bool {
    &&& a.computation_id == b.computation_id
    &&& a.client_ids == b.client_ids
    &&& a.max_count == b.max_count
    &&& a.keys == b.keys
    &&& a.secret_key == b.secret_key
    &&& a.free_parties == b.free_parties
}

/// The mailbox view of a record.
pub open spec fn box_of(r: Option<PartyRecord>) -> Option<Seq<Letter>> {
    match r {
        Some(rec) => match rec.mailbox {
            Some(m) => Some(m@),
            None => None,
        },
        None => None,
    }
}

/// The tag of a record, if any.
pub open spec fn tag_in(r: Option<PartyRecord>) -> Option<u64> {
    match r {
        Some(rec) => rec.tag,
        None => None,
    }
}

/// The pending delivery of a record, if any.
pub open spec fn pending_in(r: Option<PartyRecord>) -> Option<pending_message> {
    match r {
        Some(rec) => rec.pending,
        None => None,
    }
}

/// The first `k` letters of a mailbox, as sent to a party.
pub open spec fn first_letters(m: Seq<Letter>, k: int) -> Seq<Letter> {
    m.subrange(0, k)
}

impl ComputationState {
    /// The record of party `p`, if any.
    pub open spec fn record(&self, p: PartyIdView) -> Option<PartyRecord> {
        let i = party_index(self.parties@, p);
        if i >= 0 {
            Some(self.parties@[i])
        } else {
            None
        }
    }

    /// Replaces the record at `i` by `rec`, which is for the same party.
    pub(crate) fn set_party(&mut self, i: usize, rec: PartyRecord)
        requires
            parties_wf(old(self).parties@),
            i < old(self).parties@.len(),
            rec.party_id@ == old(self).parties@[i as int].party_id@,
            rec.tag matches Some(t) ==> t < tag_bound(),
        ensures
            parties_wf(final(self).parties@),
            same_meta(*final(self), *old(self)),
            final(self).record(rec.party_id@) == Some(rec),
            forall|p2: PartyIdView|
                p2 != rec.party_id@ ==> #[trigger] final(self).record(p2) == old(self).record(p2),
    {
        let ghost ops = self.parties@;
        self.parties.set(i, rec);
        proof {
            let ps = self.parties@;
            assert forall|a: int, b: int| 0 <= a < b < ps.len() implies #[trigger] ps[a].party_id@
                != #[trigger] ps[b].party_id@ by {
                assert(ps[a].party_id@ == ops[a].party_id@);
                assert(ps[b].party_id@ == ops[b].party_id@);
            }
            lemma_party_index(ps, rec.party_id@, i as int);
            assert forall|p2: PartyIdView| p2 != rec.party_id@ implies #[trigger] self.record(p2)
                == old(self).record(p2) by {
                if old(self).record(p2) is Some {
                    let k = party_index(ops, p2);
                    lemma_party_index(ops, p2, k);
                    assert(k != i);
                    lemma_party_index(ps, p2, k);
                }
                if self.record(p2) is Some {
                    let k = party_index(ps, p2);
                    lemma_party_index(ps, p2, k);
                    assert(k != i);
                    lemma_party_index(ops, p2, k);
                }
            }
        }
    }

    /// Appends a record for a party that has none.
    pub(crate) fn push_party(&mut self, rec: PartyRecord)
        requires
            parties_wf(old(self).parties@),
            old(self).record(rec.party_id@) is None,
            rec.tag matches Some(t) ==> t < tag_bound(),
        ensures
            parties_wf(final(self).parties@),
            same_meta(*final(self), *old(self)),
            final(self).record(rec.party_id@) == Some(rec),
            forall|p2: PartyIdView|
                p2 != rec.party_id@ ==> #[trigger] final(self).record(p2) == old(self).record(p2),
    {
        let ghost ops = self.parties@;
        let ghost pid = rec.party_id@;
        self.parties.push(rec);
        proof {
            let ps = self.parties@;
            assert forall|a: int, b: int| 0 <= a < b < ps.len() implies #[trigger] ps[a].party_id@
                != #[trigger] ps[b].party_id@ by {
                if b == ops.len() {
                    assert(!(0 <= a < ops.len() && #[trigger] ops[a].party_id@ == pid));
                } else {
                    assert(ps[a] == ops[a]);
                    assert(ps[b] == ops[b]);
                }
            }
            lemma_party_index(ps, pid, ops.len() as int);
            assert forall|p2: PartyIdView| p2 != pid implies #[trigger] self.record(p2) == old(
                self,
            ).record(p2) by {
                if old(self).record(p2) is Some {
                    let k = party_index(ops, p2);
                    lemma_party_index(ops, p2, k);
                    assert(ps[k] == ops[k]);
                    lemma_party_index(ps, p2, k);
                }
                if self.record(p2) is Some {
                    let k = party_index(ps, p2);
                    lemma_party_index(ps, p2, k);
                    assert(k != ops.len());
                    assert(ps[k] == ops[k]);
                    lemma_party_index(ops, p2, k);
                }
            }
        }
    }

    /// Finds the record of a party.
    pub(crate) fn find(&self, p: &PartyId) -> (r: Option<usize>)
        requires
            parties_wf(self.parties@),
        ensures
            r matches Some(i) ==> i < self.parties@.len() && self.record(p@) == Some(
                self.parties@[i as int],
            ) && self.parties@[i as int].party_id@ == p@,
            r is None ==> self.record(p@) is None,
    {
        let r = find_party(&self.parties, p);
        proof {
            if let Some(i) = r {
                let k = party_index(self.parties@, p@);
                lemma_party_index(self.parties@, p@, k);
            }
        }
        r
    }

    /// Adds a letter at the end of the mailbox of `to`, creating the mailbox if needed.
    /// Returns the index of the letter.
    pub(crate) fn put_letter(&mut self, to: &PartyId, letter: Letter) -> (r: usize)
        requires
            parties_wf(old(self).parties@),
        ensures
            parties_wf(final(self).parties@),
            same_meta(*final(self), *old(self)),
            box_of(final(self).record(to@)) == Some(
                match box_of(old(self).record(to@)) {
                    Some(m) => m,
                    None => Seq::empty(),
                }.push(letter),
            ),
            r + 1 == box_of(final(self).record(to@))->0.len(),
            final(self).record(to@)->0.tag == (match old(self).record(to@) {
                Some(rec) => rec.tag,
                None => None,
            }),
            final(self).record(to@)->0.pending == (match old(self).record(to@) {
                Some(rec) => rec.pending,
                None => None,
            }),
            forall|p2: PartyIdView|
                p2 != to@ ==> #[trigger] final(self).record(p2) == old(self).record(p2),
    {
        match self.find(to) {
            Some(i) => {
                let tag = self.parties[i].tag;
                let pending = match &self.parties[i].pending {
                    Some(pd) => Some(pending_message { tag: pd.tag, store_id: pd.store_id }),
                    None => None,
                };
                let mut letters: Vec<Letter> = match &self.parties[i].mailbox {
                    Some(m) => copy_letters(m),
                    None => Vec::new(),
                };
                letters.push(letter);
                let n = letters.len() - 1;
                let rec = PartyRecord { party_id: copy_party(to), mailbox: Some(letters), tag: tag, pending: pending };
                proof {
                    assert(parties_wf(self.parties@));
                    assert(self.parties@[i as int].tag matches Some(t) ==> t < tag_bound());
                }
                self.set_party(i, rec);
                n
            },
            None => {
                let mut letters: Vec<Letter> = Vec::new();
                letters.push(letter);
                let rec = PartyRecord { party_id: copy_party(to), mailbox: Some(letters), tag: None, pending: None };
                self.push_party(rec);
                0
            },
        }
    }
}

impl ComputationState {
    /// The letters waiting for party `p` (none when it has no mailbox).
    pub(crate) fn letters(&self, p: &PartyId) -> (r: Vec<Letter>)
        requires
            parties_wf(self.parties@),
        ensures
            r@ == match box_of(self.record(p@)) {
                Some(m) => m,
                None => Seq::empty(),
            },
    {
        match self.find(p) {
            Some(i) => match &self.parties[i].mailbox {
                Some(m) => copy_letters(m),
                None => Vec::new(),
            },
            None => Vec::new(),
        }
    }

    /// Drops the letters up to and including index `pointer` from the mailbox of `p`,
    /// when `p` has a mailbox.
    pub(crate) fn slice(&mut self, p: &PartyId, pointer: u64)
        requires
            parties_wf(old(self).parties@),
            box_of(old(self).record(p@)) matches Some(m) ==> pointer + 1 <= m.len(),
        ensures
            parties_wf(final(self).parties@),
            same_meta(*final(self), *old(self)),
            box_of(final(self).record(p@)) == match box_of(old(self).record(p@)) {
                Some(m) => Some(m.subrange(pointer + 1, m.len() as int)),
                None => None,
            },
            old(self).record(p@) is Some ==> final(self).record(p@)->0.tag == old(self).record(
                p@,
            )->0.tag && final(self).record(p@)->0.pending == old(self).record(p@)->0.pending,
            old(self).record(p@) is None ==> final(self).record(p@) is None,
            old(self).record(p@) is Some ==> final(self).record(p@) is Some,
            forall|p2: PartyIdView| p2 != p@ ==> #[trigger] final(self).record(p2) == old(self).record(p2),
    {
        match self.find(p) {
            Some(i) => {
                let rec = &self.parties[i];
                match &rec.mailbox {
                    Some(m) => {
                        assert(box_of(self.record(p@)) == Some(m@));
                        let mlen = m.len();
                        assert(pointer < mlen);
                        let mut rest: Vec<Letter> = Vec::new();
                        let mut k: usize = pointer as usize + 1;
                        let ghost start = (pointer + 1) as int;
                        while k < m.len()
                            invariant
                                start <= k <= m@.len(),
                                start == pointer + 1,
                                rest@ == m@.subrange(start, k as int),
                            decreases m.len() - k,
                        {
                            rest.push(copy_letter(&m[k]));
                            k = k + 1;
                            assert(rest@ =~= m@.subrange(start, k as int));
                        }
                        let pending = match &rec.pending {
                            Some(pd) => Some(pending_message { tag: pd.tag, store_id: pd.store_id }),
                            None => None,
                        };
                        let new_rec = PartyRecord {
                            party_id: copy_party(p),
                            mailbox: Some(rest),
                            tag: rec.tag,
                            pending: pending,
                        };
                        self.set_party(i, new_rec);
                    },
                    None => {},
                }
            },
            None => {},
        }
    }
}

/// The views of a list of party ids.
pub open spec fn ids_view(ids: Seq<PartyId>) -> Seq<PartyIdView> {
    ids.map_values(|q: PartyId| q@)
}

/// `ids` extended by `p` when `p` is not yet among them.
pub open spec fn add_id(ids: Seq<PartyIdView>, p: PartyIdView) -> Seq<PartyIdView> {
    if ids.contains(p) {
        ids
    } else {
        ids.push(p)
    }
}

/// Whether `p` is among `ids`; adds it when it is not.
pub(crate) fn add_party_id(ids: &mut Vec<PartyId>, p: &PartyId)
    ensures
        ids_view(final(ids)@) == add_id(ids_view(old(ids)@), p@),
        ids_unique(old(ids)@) ==> ids_unique(final(ids)@),
{
    let mut i: usize = 0;
    while i < ids.len()
        invariant
            i <= ids@.len(),
            forall|j: int| 0 <= j < i ==> #[trigger] ids@[j]@ != p@,
        decreases ids.len() - i,
    {
        if same_party(&ids[i], p) {
            assert(ids_view(ids@)[i as int] == p@);
            return;
        }
        i = i + 1;
    }
    let ghost before = ids@;
    assert(!ids_view(before).contains(p@));
    ids.push(copy_party(p));
    assert(ids_view(ids@) =~= ids_view(before).push(p@));
    proof {
        if ids_unique(before) {
            let s = ids@;
            assert forall|a: int, b: int| 0 <= a < b < s.len() implies #[trigger] s[a]@ != #[trigger] s[b]@ by {
                if b == before.len() {
                    assert(s[a] == before[a]);
                    assert(ids_view(before)[a] == before[a]@);
                } else {
                    assert(s[a] == before[a]);
                    assert(s[b] == before[b]);
                }
            }
        }
    }
}

impl ComputationState {
    /// Hands out the first letters (at most 150) waiting for `p` under a new tag, and
    /// remembers them as pending. Nothing changes when no letter waits.
    pub(crate) fn dump(&mut self, p: &PartyId) -> (r: Dumped)
        requires
            parties_wf(old(self).parties@),
            box_of(old(self).record(p@)) matches Some(m) && m.len() > 0 ==> old(self).record(
                p@,
            )->0.tag is Some,
        ensures
            parties_wf(final(self).parties@),
            same_meta(*final(self), *old(self)),
            ({
                let m = match box_of(old(self).record(p@)) {
                    Some(m) => m,
                    None => Seq::empty(),
                };
                let k = if m.len() < 150 {
                    m.len() as int
                } else {
                    150
                };
                &&& r.messages@ == first_letters(m, k)
                &&& m.len() == 0 ==> r.ack is None && final(self).parties@ == old(self).parties@
                &&& m.len() > 0 ==> {
                    let t = ((old(self).record(p@)->0.tag->0 + 1) % tag_bound()) as u64;
                    &&& r.ack == Some(t)
                    &&& box_of(final(self).record(p@)) == box_of(old(self).record(p@))
                    &&& tag_in(final(self).record(p@)) == Some(t)
                    &&& pending_in(final(self).record(p@)) == Some(
                        pending_message { tag: t, store_id: (k - 1) as u64 },
                    )
                    &&& forall|p2: PartyIdView|
                        p2 != p@ ==> #[trigger] final(self).record(p2) == old(self).record(p2)
                }
            }),
    {
        let letters = self.letters(p);
        if letters.len() == 0 {
            return Dumped { ack: None, messages: Vec::new() };
        }
        let count: usize = if 150 < letters.len() {
            150
        } else {
            letters.len()
        };
        let mut messages: Vec<Letter> = Vec::new();
        let mut k: usize = 0;
        while k < count
            invariant
                k <= count,
                count <= letters@.len(),
                messages@ == letters@.subrange(0, k as int),
            decreases count - k,
        {
            messages.push(copy_letter(&letters[k]));
            k = k + 1;
            assert(messages@ =~= letters@.subrange(0, k as int));
        }
        let i = match self.find(p) {
            Some(i) => i,
            None => {
                return Dumped { ack: None, messages: Vec::new() };
            },
        };
        let old_tag = match self.parties[i].tag {
            Some(t) => t,
            None => 0,
        };
        assert(old_tag < tag_bound()) by {
            assert(parties_wf(self.parties@));
        }
        let tag = (old_tag + 1) % 4294967296;
        let ghost old_rec = self.parties@[i as int];
        let mailbox = match &self.parties[i].mailbox {
            Some(m) => Some(copy_letters(m)),
            None => None,
        };
        let new_rec = PartyRecord {
            party_id: copy_party(&self.parties[i].party_id),
            mailbox: mailbox,
            tag: Some(tag),
            pending: Some(pending_message { tag: tag, store_id: (count - 1) as u64 }),
        };
        self.set_party(i, new_rec);
        Dumped { ack: Some(tag), messages: messages }
    }

    /// Frees the letters of the delivery acknowledged by `tag`, when `tag` is the tag
    /// of the pending delivery of `p`; otherwise nothing changes.
    pub(crate) fn free_tag(&mut self, p: &PartyId, tag: Option<u64>)
        requires
            parties_wf(old(self).parties@),
            (tag matches Some(t) && old(self).record(p@) matches Some(rec) && rec.pending matches Some(
                pd,
            ) && pd.tag == t) ==> (box_of(old(self).record(p@)) matches Some(m) ==> old(
                self,
            ).record(p@)->0.pending->0.store_id + 1 <= m.len()),
        ensures
            parties_wf(final(self).parties@),
            same_meta(*final(self), *old(self)),
            (tag matches Some(t) && old(self).record(p@) matches Some(rec) && rec.pending matches Some(
                pd,
            ) && pd.tag == t) ==> {
                let rec = old(self).record(p@)->0;
                &&& tag_in(final(self).record(p@)) == rec.tag
                &&& pending_in(final(self).record(p@)) is None
                &&& box_of(final(self).record(p@)) == match box_of(old(self).record(p@)) {
                    Some(m) => Some(m.subrange(rec.pending->0.store_id + 1, m.len() as int)),
                    None => None,
                }
                &&& forall|p2: PartyIdView|
                    p2 != p@ ==> #[trigger] final(self).record(p2) == old(self).record(p2)
            },
            !(tag matches Some(t) && old(self).record(p@) matches Some(rec) && rec.pending matches Some(
                pd,
            ) && pd.tag == t) ==> final(self).parties@ == old(self).parties@,
    {
        if let Some(t) = tag {
            if let Some(i) = self.find(p) {
                let matched = match &self.parties[i].pending {
                    Some(pd) => if pd.tag == t {
                        Some(pd.store_id)
                    } else {
                        None
                    },
                    None => None,
                };
                if let Some(store_id) = matched {
                    self.slice(p, store_id);
                    let j = match self.find(p) {
                        Some(j) => j,
                        None => {
                            return;
                        },
                    };
                    let mailbox = match &self.parties[j].mailbox {
                        Some(m) => Some(copy_letters(m)),
                        None => None,
                    };
                    let new_rec = PartyRecord {
                        party_id: copy_party(&self.parties[j].party_id),
                        mailbox: mailbox,
                        tag: self.parties[j].tag,
                        pending: None,
                    };
                    proof {
                        assert(parties_wf(self.parties@));
                    }
                    self.set_party(j, new_rec);
                }
            }
        }
    }

    /// Records `p` among the clients and starts its tag at 0 when it has none.
    pub(crate) fn init_party(&mut self, p: &PartyId)
        requires
            parties_wf(old(self).parties@),
        ensures
            parties_wf(final(self).parties@),
            final(self).computation_id == old(self).computation_id,
            final(self).max_count == old(self).max_count,
            final(self).keys == old(self).keys,
            final(self).secret_key == old(self).secret_key,
            final(self).free_parties == old(self).free_parties,
            ids_view(final(self).client_ids@) == add_id(ids_view(old(self).client_ids@), p@),
            ids_unique(old(self).client_ids@) ==> ids_unique(final(self).client_ids@),
            box_of(final(self).record(p@)) == box_of(old(self).record(p@)),
            pending_in(final(self).record(p@)) == pending_in(old(self).record(p@)),
            tag_in(final(self).record(p@)) == Some(
                match tag_in(old(self).record(p@)) {
                    Some(t) => t,
                    None => 0u64,
                },
            ),
            final(self).record(p@) is Some,
            forall|p2: PartyIdView| p2 != p@ ==> #[trigger] final(self).record(p2) == old(self).record(p2),
    {
        add_party_id(&mut self.client_ids, p);
        match self.find(p) {
            Some(i) => {
                if self.parties[i].tag.is_none() {
                    let ghost old_rec = self.parties@[i as int];
                    let mailbox = match &self.parties[i].mailbox {
                        Some(m) => Some(copy_letters(m)),
                        None => None,
                    };
                    let pending = match &self.parties[i].pending {
                        Some(pd) => Some(pending_message { tag: pd.tag, store_id: pd.store_id }),
                        None => None,
                    };
                    let new_rec = PartyRecord {
                        party_id: copy_party(&self.parties[i].party_id),
                        mailbox: mailbox,
                        tag: Some(0),
                        pending: pending,
                    };
                    self.set_party(i, new_rec);
                }
            },
            None => {
                let rec = PartyRecord { party_id: copy_party(p), mailbox: None, tag: Some(0), pending: None };
                self.push_party(rec);
            },
        }
    }

    /// Marks `p` as free; returns whether all parties of the computation are free.
    pub(crate) fn mark_free(&mut self, p: &PartyId) -> (r: bool)
        ensures
            final(self).computation_id == old(self).computation_id,
            final(self).client_ids == old(self).client_ids,
            final(self).max_count == old(self).max_count,
            final(self).keys == old(self).keys,
            final(self).secret_key == old(self).secret_key,
            final(self).parties == old(self).parties,
            ids_view(final(self).free_parties@) == add_id(ids_view(old(self).free_parties@), p@),
            r == (final(self).free_parties@.len() == final(self).max_count),
    {
        add_party_id(&mut self.free_parties, p);
        let n = self.free_parties.len() as u64;
        n <= 9223372036854775807u64 && (n as i64) == self.max_count
    }
}

impl restfulAPI {
    /// The index of the computation `c`, or -1.
    pub open spec fn comp_index(&self, c: Seq<char>) -> int {
        if exists|i: int|
            0 <= i < self.computations@.len() && #[trigger] self.computations@[i].computation_id@ == c {
            choose|i: int|
                0 <= i < self.computations@.len() && #[trigger] self.computations@[i].computation_id@
                    == c
        } else {
            -1
        }
    }

    /// Whether the computation `c` has been initialized.
    pub open spec fn registered(&self, c: Seq<char>) -> bool {
        self.comp_index(c) >= 0
    }

    /// The state of the computation `c` (meaningful when it is registered).
    pub open spec fn comp(&self, c: Seq<char>) -> ComputationState {
        self.computations@[self.comp_index(c)]
    }

    /// The record of party `p` in computation `c`, if any.
    pub open spec fn record(&self, c: Seq<char>, p: PartyIdView) -> Option<PartyRecord> {
        if self.registered(c) {
            self.comp(c).record(p)
        } else {
            None
        }
    }

    /// The mailbox of party `p` in computation `c`, if it has one.
    pub open spec fn mailbox_of(&self, c: Seq<char>, p: PartyIdView) -> Option<Seq<Letter>> {
        box_of(self.record(c, p))
    }

    /// The last tag of party `p` in computation `c`, if any.
    pub open spec fn tag_of(&self, c: Seq<char>, p: PartyIdView) -> Option<u64> {
        tag_in(self.record(c, p))
    }

    /// The unacknowledged delivery of party `p` in computation `c`, if any.
    pub open spec fn pending_of(&self, c: Seq<char>, p: PartyIdView) -> Option<pending_message> {
        pending_in(self.record(c, p))
    }

    /// The server state invariant: computations and parties appear once, tags stay
    /// below the bound.
    pub open spec fn wf(&self) -> bool {
        &&& forall|i: int, j: int|
            0 <= i < j < self.computations@.len() ==> #[trigger] self.computations@[i].computation_id@
                != #[trigger] self.computations@[j].computation_id@
        &&& forall|i: int|
            0 <= i < self.computations@.len() ==> parties_wf(
                #[trigger] self.computations@[i].parties@,
            )
        &&& forall|i: int|
            0 <= i < self.computations@.len() ==> keys_wf(#[trigger] self.computations@[i].keys@)
        &&& forall|i: int|
            0 <= i < self.computations@.len() ==> ids_unique(
                #[trigger] self.computations@[i].client_ids@,
            )
        &&& forall|i: int, j: int|
            0 <= i < j < self.spare_ids@.len() ==> #[trigger] self.spare_ids@[i].computation_id@
                != #[trigger] self.spare_ids@[j].computation_id@
        &&& forall|i: int| 0 <= i < self.spare_ids@.len() ==> #[trigger] self.spare_ids@[i].ids.gapped()
    }

    /// The index of the free ids of computation `c`, or -1.
    pub open spec fn spare_index(&self, c: Seq<char>) -> int {
        if exists|i: int|
            0 <= i < self.spare_ids@.len() && #[trigger] self.spare_ids@[i].computation_id@ == c {
            choose|i: int|
                0 <= i < self.spare_ids@.len() && #[trigger] self.spare_ids@[i].computation_id@ == c
        } else {
            -1
        }
    }

    /// The free ids of computation `c`, if they are tracked.
    pub open spec fn spare_of(&self, c: Seq<char>) -> Option<intervals> {
        let i = self.spare_index(c);
        if i >= 0 {
            Some(self.spare_ids@[i].ids)
        } else {
            None
        }
    }

    /// The key stored for party `p` of computation `c`, if any.
    pub open spec fn key_of(&self, c: Seq<char>, p: PartyIdView) -> Option<Seq<u8>> {
        if self.registered(c) {
            key_in(self.comp(c).keys@, p)
        } else {
            None
        }
    }

    /// Only the record of party `p` in computation `c` may differ from `old`.
    pub open spec fn frame(&self, old: restfulAPI, c: Seq<char>, p: PartyIdView) -> bool {
        &&& self.wf()
        &&& self.sodium == old.sodium
        &&& self.spare_ids == old.spare_ids
        &&& forall|c2: Seq<char>| #[trigger] self.registered(c2) == old.registered(c2)
        &&& forall|c2: Seq<char>, p2: PartyIdView|
            (c2 != c || p2 != p) ==> #[trigger] self.record(c2, p2) == old.record(c2, p2)
        &&& forall|c2: Seq<char>|
            self.registered(c2) ==> same_meta(#[trigger] self.comp(c2), old.comp(c2))
        &&& forall|c2: Seq<char>|
            c2 != c && old.registered(c2) ==> #[trigger] self.comp(c2) == old.comp(c2)
    }

    /// An unchanged state keeps the frame of any record.
    pub(crate) proof fn lemma_frame_refl(&self, c: Seq<char>, p: PartyIdView)
        requires
            self.wf(),
        ensures
            self.frame(*self, c, p),
    {
    }

    pub(crate) proof fn lemma_comp_index(&self, c: Seq<char>, i: int)
        requires
            self.wf(),
            0 <= i < self.computations@.len(),
            self.computations@[i].computation_id@ == c,
        ensures
            self.comp_index(c) == i,
    {
        let j = choose|j: int|
            0 <= j < self.computations@.len() && #[trigger] self.computations@[j].computation_id@ == c;
        if j < i {
            assert(self.computations@[j].computation_id@ != self.computations@[i].computation_id@);
        } else if j > i {
            assert(self.computations@[i].computation_id@ != self.computations@[j].computation_id@);
        }
    }

    /// Replacing the computation at `ci` by one with the same id keeps the invariant,
    /// and every view of another computation.
    #[verifier::spinoff_prover]
    pub(crate) proof fn lemma_lift(&self, old: &restfulAPI, ci: int)
        requires
            old.wf(),
            0 <= ci < old.computations@.len(),
            self.computations@.len() == old.computations@.len(),
            forall|j: int|
                0 <= j < old.computations@.len() && j != ci ==> #[trigger] self.computations@[j]
                    == old.computations@[j],
            self.computations@[ci].computation_id == old.computations@[ci].computation_id,
            parties_wf(self.computations@[ci].parties@),
            keys_wf(self.computations@[ci].keys@),
            ids_unique(self.computations@[ci].client_ids@),
            self.spare_ids == old.spare_ids,
        ensures
            self.wf(),
            forall|c2: Seq<char>| #[trigger] self.registered(c2) == old.registered(c2),
            self.comp_index(old.computations@[ci].computation_id@) == ci,
            old.comp_index(old.computations@[ci].computation_id@) == ci,
            forall|c2: Seq<char>|
                c2 != old.computations@[ci].computation_id@ && old.registered(c2) ==> #[trigger] self.comp(c2)
                    == old.comp(c2),
            forall|c2: Seq<char>, p2: PartyIdView|
                c2 != old.computations@[ci].computation_id@ ==> #[trigger] self.record(c2, p2)
                    == old.record(c2, p2),
            forall|p2: PartyIdView|
                #[trigger] self.record(old.computations@[ci].computation_id@, p2)
                    == self.computations@[ci].record(p2),
    {
        let s = self.computations@;
        let o = old.computations@;
        let c = o[ci].computation_id@;
        assert forall|i: int, j: int| 0 <= i < j < s.len() implies #[trigger] s[i].computation_id@
            != #[trigger] s[j].computation_id@ by {
            assert(s[i].computation_id == o[i].computation_id);
            assert(s[j].computation_id == o[j].computation_id);
        }
        assert forall|i: int| 0 <= i < s.len() implies parties_wf(#[trigger] s[i].parties@) by {
            if i != ci {
                assert(s[i] == o[i]);
            }
        }
        assert forall|i: int| 0 <= i < s.len() implies keys_wf(#[trigger] s[i].keys@) by {
            if i != ci {
                assert(s[i] == o[i]);
            }
        }
        assert forall|i: int| 0 <= i < s.len() implies ids_unique(#[trigger] s[i].client_ids@) by {
            if i != ci {
                assert(s[i] == o[i]);
            }
        }
        assert forall|c2: Seq<char>| #[trigger] self.registered(c2) == old.registered(c2) by {
            if old.registered(c2) {
                let k = old.comp_index(c2);
                old.lemma_comp_index(c2, k);
                assert(s[k].computation_id == o[k].computation_id);
                self.lemma_comp_index(c2, k);
            }
            if self.registered(c2) {
                let k = self.comp_index(c2);
                self.lemma_comp_index(c2, k);
                assert(s[k].computation_id == o[k].computation_id);
                old.lemma_comp_index(c2, k);
            }
        }
        self.lemma_comp_index(c, ci);
        old.lemma_comp_index(c, ci);
        assert forall|c2: Seq<char>| c2 != c && old.registered(c2) implies #[trigger] self.comp(c2)
            == old.comp(c2) by {
            let k = old.comp_index(c2);
            old.lemma_comp_index(c2, k);
            assert(s[k].computation_id == o[k].computation_id);
            self.lemma_comp_index(c2, k);
        }
        assert forall|c2: Seq<char>, p2: PartyIdView| c2 != c implies #[trigger] self.record(c2, p2)
            == old.record(c2, p2) by {
            if old.registered(c2) {
                assert(self.comp(c2) == old.comp(c2));
            }
        }
    }

    /// Finds the index of a computation.
    pub(crate) fn find_computation(&self, c: &String) -> (r: Option<usize>)
        requires
            self.wf(),
        ensures
            r matches Some(i) ==> i == self.comp_index(c@) && i < self.computations@.len()
                && self.computations@[i as int].computation_id@ == c@,
            r is None ==> !self.registered(c@),
    {
        let mut i: usize = 0;
        while i < self.computations.len()
            invariant
                i <= self.computations@.len(),
                self.wf(),
                forall|j: int| 0 <= j < i ==> #[trigger] self.computations@[j].computation_id@ != c@,
            decreases self.computations.len() - i,
        {
            if self.computations[i].computation_id == *c {
                proof {
                    self.lemma_comp_index(c@, i as int);
                }
                return Some(i);
            }
            i = i + 1;
        }
        None
    }

    /// The party count saved for a computation, if it has been initialized.
    pub fn saved_count(&self, computation_id: &String) -> (r: Option<i64>)
        requires
            self.wf(),
        ensures
            r == (if self.registered(computation_id@) {
                Some(self.comp(computation_id@).max_count)
            } else {
                None::<i64>
            }),
    {
        match self.find_computation(computation_id) {
            Some(ci) => Some(self.computations[ci].max_count),
            None => None,
        }
    }

    /// Whether as many clients joined the computation as its party count allows.
    pub fn is_full(&self, computation_id: &String) -> (r: bool)
        requires
            self.wf(),
        ensures
            r == (self.registered(computation_id@) && self.comp(computation_id@).client_ids@.len()
                == self.comp(computation_id@).max_count),
    {
        match self.find_computation(computation_id) {
            Some(ci) => {
                let n = self.computations[ci].client_ids.len() as u64;
                n <= 9223372036854775807u64 && (n as i64) == self.computations[ci].max_count
            },
            None => false,
        }
    }

    /// Whether a poll can hand out the messages of a party: a party with waiting
    /// messages has a tag.
    pub fn dump_ok(&self, computation_id: &String, party_id: &PartyId) -> (r: bool)
        requires
            self.wf(),
        ensures
            r == (self.mailbox_of(computation_id@, party_id@) matches Some(m) && m.len() > 0 ==> self.tag_of(
                computation_id@,
                party_id@,
            ) is Some),
    {
        let ci = match self.find_computation(computation_id) {
            Some(ci) => ci,
            None => {
                return true;
            },
        };
        proof {
            self.lemma_comp_index(computation_id@, ci as int);
            assert(parties_wf(self.computations@[ci as int].parties@));
        }
        let comp = &self.computations[ci];
        match comp.find(party_id) {
            None => true,
            Some(i) => {
                let rec = &comp.parties[i];
                match &rec.mailbox {
                    Some(m) => m.len() == 0 || rec.tag.is_some(),
                    None => true,
                }
            },
        }
    }

    /// Whether acknowledging `tag` can run: the delivery it acknowledges does not reach
    /// beyond the mailbox of the party.
    pub fn ack_ok(&self, computation_id: &String, party_id: &PartyId, tag: Option<u64>) -> (r: bool)
        requires
            self.wf(),
        ensures
            r == free_tag_ok(*self, computation_id@, party_id@, tag),
    {
        let ci = match self.find_computation(computation_id) {
            Some(ci) => ci,
            None => {
                return true;
            },
        };
        proof {
            self.lemma_comp_index(computation_id@, ci as int);
            assert(parties_wf(self.computations@[ci as int].parties@));
        }
        let comp = &self.computations[ci];
        match comp.find(party_id) {
            None => true,
            Some(i) => {
                let rec = &comp.parties[i];
                let t = match tag {
                    Some(t) => t,
                    None => {
                        return true;
                    },
                };
                match &rec.pending {
                    Some(pd) => {
                        if pd.tag != t {
                            return true;
                        }
                        match &rec.mailbox {
                            Some(m) => (pd.store_id as u128) + 1 <= m.len() as u128,
                            None => true,
                        }
                    },
                    None => true,
                }
            },
        }
    }

    /// Adds a message to the mailbox of `to_id` in a computation that has been
    /// initialized. Returns the index of the message in that mailbox.
    pub fn put_in_mailbox(
        &mut self,
        label: String,
        msg: String,
        computation_id: &String,
        to_id: &PartyId,
    ) -> (r: usize)
        requires
            old(self).wf(),
            old(self).registered(computation_id@),
        ensures
            final(self).frame(*old(self), computation_id@, to_id@),
            final(self).mailbox_of(computation_id@, to_id@) == Some(
                match old(self).mailbox_of(computation_id@, to_id@) {
                    Some(m) => m,
                    None => Seq::empty(),
                }.push(Letter { label: label, msg: msg }),
            ),
            r + 1 == final(self).mailbox_of(computation_id@, to_id@)->0.len(),
            final(self).tag_of(computation_id@, to_id@) == old(self).tag_of(computation_id@, to_id@),
            final(self).pending_of(computation_id@, to_id@) == old(self).pending_of(
                computation_id@,
                to_id@,
            ),
    {
        let ci = match self.find_computation(computation_id) {
            Some(ci) => ci,
            None => {
                return 0;
            },
        };
        let mut comp = self.computations.remove(ci);
        proof {
            assert(comp == old(self).computations@[ci as int]);
            assert(parties_wf(comp.parties@));
            assert(keys_wf(comp.keys@));
            assert(ids_unique(comp.client_ids@));
        }
        let letter = Letter { label: label, msg: msg };
        let r = comp.put_letter(to_id, letter);
        self.computations.insert(ci, comp);
        proof {
            self.lemma_lift(old(self), ci as int);
            assert forall|c2: Seq<char>| self.registered(c2) implies same_meta(
                #[trigger] self.comp(c2),
                old(self).comp(c2),
            ) by {
                if c2 != computation_id@ {
                    assert(self.comp(c2) == old(self).comp(c2));
                }
            }
        }
        r
    }

    /// The messages waiting for a party, in order (none for an unknown computation).
    pub fn get_from_mailbox(&self, computation_id: &String, party_id: &PartyId) -> (r: Vec<Letter>)
        requires
            self.wf(),
        ensures
            r@ == match self.mailbox_of(computation_id@, party_id@) {
                Some(m) => m,
                None => Seq::empty(),
            },
    {
        match self.find_computation(computation_id) {
            Some(ci) => {
                proof {
                    assert(parties_wf(self.computations@[ci as int].parties@));
                }
                self.computations[ci].letters(party_id)
            },
            None => Vec::new(),
        }
    }

    /// Drops the messages up to and including `mailbox_pointer` from the mailbox of a
    /// party, when the computation and the mailbox exist.
    pub fn sliceMailbox(&mut self, computation_id: &String, party_id: &PartyId, mailbox_pointer: u64)
        requires
            old(self).wf(),
            old(self).mailbox_of(computation_id@, party_id@) matches Some(m) ==> mailbox_pointer + 1
                <= m.len(),
        ensures
            final(self).frame(*old(self), computation_id@, party_id@),
            final(self).mailbox_of(computation_id@, party_id@) == match old(self).mailbox_of(
                computation_id@,
                party_id@,
            ) {
                Some(m) => Some(m.subrange(mailbox_pointer + 1, m.len() as int)),
                None => None,
            },
            final(self).tag_of(computation_id@, party_id@) == old(self).tag_of(
                computation_id@,
                party_id@,
            ),
            final(self).pending_of(computation_id@, party_id@) == old(self).pending_of(
                computation_id@,
                party_id@,
            ),
    {
        let ci = match self.find_computation(computation_id) {
            Some(ci) => ci,
            None => {
                return;
            },
        };
        let mut comp = self.computations.remove(ci);
        proof {
            assert(comp == old(self).computations@[ci as int]);
            assert(parties_wf(comp.parties@));
            assert(keys_wf(comp.keys@));
            assert(ids_unique(comp.client_ids@));
        }
        comp.slice(party_id, mailbox_pointer);
        self.computations.insert(ci, comp);
        proof {
            self.lemma_lift(old(self), ci as int);
            assert forall|c2: Seq<char>| self.registered(c2) implies same_meta(
                #[trigger] self.comp(c2),
                old(self).comp(c2),
            ) by {
                if c2 != computation_id@ {
                    assert(self.comp(c2) == old(self).comp(c2));
                }
            }
        }
    }

    /// Stores a message for `to_id`, unless it is the server itself (`"s1"`).
    pub fn safe_emit(&mut self, label: String, msg: String, computation_id: &String, to_id: &PartyId)
        requires
            old(self).wf(),
            to_id@ != PartyIdView::Text("s1"@) ==> old(self).registered(computation_id@),
        ensures
            to_id@ == PartyIdView::Text("s1"@) ==> *final(self) == *old(self),
            to_id@ != PartyIdView::Text("s1"@) ==> {
                &&& final(self).frame(*old(self), computation_id@, to_id@)
                &&& final(self).mailbox_of(computation_id@, to_id@) == Some(
                    match old(self).mailbox_of(computation_id@, to_id@) {
                        Some(m) => m,
                        None => Seq::empty(),
                    }.push(Letter { label: label, msg: msg }),
                )
                &&& final(self).tag_of(computation_id@, to_id@) == old(self).tag_of(
                    computation_id@,
                    to_id@,
                )
                &&& final(self).pending_of(computation_id@, to_id@) == old(self).pending_of(
                    computation_id@,
                    to_id@,
                )
            },
    {
        let server = String::from_str("s1");
        proof {
            reveal_strlit("s1");
        }
        let s1 = PartyId::Text(server);
        if same_party(to_id, &s1) {
            return;
        }
        self.put_in_mailbox(label, msg, computation_id, to_id);
    }

    /// Hands out the messages waiting for a party (at most 150) under a new tag, and
    /// records them as pending until the party acknowledges the tag.
    pub fn dumpMailbox(&mut self, computation_id: &String, party_id: &PartyId) -> (r: Dumped)
        requires
            old(self).wf(),
            old(self).mailbox_of(computation_id@, party_id@) matches Some(m) && m.len() > 0 ==> old(
                self,
            ).tag_of(computation_id@, party_id@) is Some,
        ensures
            dump_post(*old(self), *final(self), computation_id@, party_id@, r.ack, r.messages@),
    {
        let ci = match self.find_computation(computation_id) {
            Some(ci) => ci,
            None => {
                let messages: Vec<Letter> = Vec::new();
                proof {
                    self.lemma_frame_refl(computation_id@, party_id@);
                    assert(messages@ =~= first_letters(Seq::empty(), 0));
                }
                return Dumped { ack: None, messages: messages };
            },
        };
        let mut comp = self.computations.remove(ci);
        proof {
            assert(comp == old(self).computations@[ci as int]);
            assert(parties_wf(comp.parties@));
            assert(keys_wf(comp.keys@));
            assert(ids_unique(comp.client_ids@));
            old(self).lemma_comp_index(computation_id@, ci as int);
        }
        let ghost before = comp;
        let r = comp.dump(party_id);
        let ghost after = comp;
        self.computations.insert(ci, comp);
        proof {
            self.lemma_lift(old(self), ci as int);
            assert forall|c2: Seq<char>| self.registered(c2) implies same_meta(
                #[trigger] self.comp(c2),
                old(self).comp(c2),
            ) by {
                if c2 != computation_id@ {
                    assert(self.comp(c2) == old(self).comp(c2));
                }
            }
            if box_of(before.record(party_id@)) is None || box_of(before.record(party_id@))->0.len() == 0 {
                assert forall|p2: PartyIdView| #[trigger] after.record(p2) == before.record(p2) by {}
            }
        }
        r
    }

    /// Frees the messages acknowledged by `tag`: when it is the tag of the pending
    /// delivery of the party, the delivered messages leave its mailbox.
    pub fn freeTag(&mut self, computation_id: &String, party_id: &PartyId, tag: Option<u64>)
        requires
            old(self).wf(),
            free_tag_ok(*old(self), computation_id@, party_id@, tag),
        ensures
            free_tag_post(*old(self), *final(self), computation_id@, party_id@, tag),
    {
        let ci = match self.find_computation(computation_id) {
            Some(ci) => ci,
            None => {
                proof {
                    self.lemma_frame_refl(computation_id@, party_id@);
                }
                return;
            },
        };
        let mut comp = self.computations.remove(ci);
        proof {
            assert(comp == old(self).computations@[ci as int]);
            assert(parties_wf(comp.parties@));
            assert(keys_wf(comp.keys@));
            assert(ids_unique(comp.client_ids@));
            old(self).lemma_comp_index(computation_id@, ci as int);
        }
        let ghost before = comp;
        comp.free_tag(party_id, tag);
        let ghost after = comp;
        self.computations.insert(ci, comp);
        proof {
            self.lemma_lift(old(self), ci as int);
            assert forall|c2: Seq<char>| self.registered(c2) implies same_meta(
                #[trigger] self.comp(c2),
                old(self).comp(c2),
            ) by {
                if c2 != computation_id@ {
                    assert(self.comp(c2) == old(self).comp(c2));
                }
            }
            if !matches_pending(before.record(party_id@), tag) {
                assert forall|p2: PartyIdView| #[trigger] after.record(p2) == before.record(p2) by {}
            }
        }
    }
}

impl server_trait for restfulAPI {
    /// The REST server sends nothing by itself: parties poll for their messages.
    fn send(&mut self, json: String, party_id: u32, computation_id: u32)
        ensures
            *final(self) == *old(self),
    {
    }
}

/// `tag` is the tag of the pending delivery of the record.
pub open spec fn matches_pending(r: Option<PartyRecord>, tag: Option<u64>) -> bool {
    tag matches Some(t) && r matches Some(rec) && rec.pending matches Some(pd) && pd.tag == t
}

/// The number of letters handed out from a mailbox of `n` letters.
pub open spec fn batch_len(n: int) -> int {
    if n < 150 {
        n
    } else {
        150
    }
}

/// What `dumpMailbox` does, from `s0` to `s1`, handing out `messages` under `ack`.
pub open spec fn dump_post(
    s0: restfulAPI,
    s1: restfulAPI,
    c: Seq<char>,
    p: PartyIdView,
    ack: Option<u64>,
    messages: Seq<Letter>,
) -> bool {
    let m = match s0.mailbox_of(c, p) {
        Some(m) => m,
        None => Seq::empty(),
    };
    let k = batch_len(m.len() as int);
    &&& s1.frame(s0, c, p)
    &&& messages == first_letters(m, k)
    &&& m.len() == 0 ==> ack is None && s1.record(c, p) == s0.record(c, p)
    &&& m.len() > 0 ==> {
        let t = ((s0.tag_of(c, p)->0 + 1) % tag_bound()) as u64;
        &&& ack == Some(t)
        &&& s1.mailbox_of(c, p) == s0.mailbox_of(c, p)
        &&& s1.tag_of(c, p) == Some(t)
        &&& s1.pending_of(c, p) == Some(pending_message { tag: t, store_id: (k - 1) as u64 })
    }
}

/// `freeTag` can run: an acknowledged delivery does not reach beyond the mailbox.
pub open spec fn free_tag_ok(s0: restfulAPI, c: Seq<char>, p: PartyIdView, tag: Option<u64>) -> bool {
    matches_pending(s0.record(c, p), tag) ==> (s0.mailbox_of(c, p) matches Some(m)
        ==> s0.pending_of(c, p)->0.store_id + 1 <= m.len())
}

/// What `freeTag` does, from `s0` to `s1`.
pub open spec fn free_tag_post(s0: restfulAPI, s1: restfulAPI, c: Seq<char>, p: PartyIdView, tag: Option<u64>) -> bool {
    &&& s1.frame(s0, c, p)
    &&& matches_pending(s0.record(c, p), tag) ==> {
        &&& s1.tag_of(c, p) == s0.tag_of(c, p)
        &&& s1.pending_of(c, p) is None
        &&& s1.mailbox_of(c, p) == match s0.mailbox_of(c, p) {
            Some(m) => Some(m.subrange(s0.pending_of(c, p)->0.store_id + 1, m.len() as int)),
            None => None,
        }
    }
    &&& !matches_pending(s0.record(c, p), tag) ==> s1.record(c, p) == s0.record(c, p)
}

/// Delivery is exactly-once for acknowledged batches: after a poll hands out a batch
/// under a tag, acknowledging that tag removes exactly that batch from the front of
/// the mailbox, and the rest stays in order.
pub proof fn law_ack_frees_delivered(
    s0: restfulAPI,
    s1: restfulAPI,
    s2: restfulAPI,
    c: Seq<char>,
    p: PartyIdView,
    ack: Option<u64>,
    messages: Seq<Letter>,
)
    requires
        s0.wf(),
        dump_post(s0, s1, c, p, ack, messages),
        ack is Some,
        free_tag_post(s1, s2, c, p, ack),
    ensures
        free_tag_ok(s1, c, p, ack),
        s0.mailbox_of(c, p) matches Some(m) && s2.mailbox_of(c, p) == Some(
            m.subrange(messages.len() as int, m.len() as int),
        ),
        s0.mailbox_of(c, p)->0 == messages + s2.mailbox_of(c, p)->0,
        s2.pending_of(c, p) is None,
{
    let m = match s0.mailbox_of(c, p) {
        Some(m) => m,
        None => Seq::empty(),
    };
    assert(m.len() > 0);
    assert(s1.record(c, p) is Some);
    assert(matches_pending(s1.record(c, p), ack));
    assert(m =~= messages + m.subrange(messages.len() as int, m.len() as int));
}

/// Letters that arrive between a poll and its acknowledgement stay: after a poll hands
/// out a batch under a tag, letters `extra` are added to the mailbox, and the tag is
/// then acknowledged, the mailbox holds the undelivered letters followed by `extra`, in
/// order, and nothing waits for an acknowledgement.
pub proof fn law_ack_keeps_new_letters(
    s0: restfulAPI,
    s1: restfulAPI,
    s2: restfulAPI,
    s3: restfulAPI,
    c: Seq<char>,
    p: PartyIdView,
    ack: Option<u64>,
    messages: Seq<Letter>,
    extra: Seq<Letter>,
)
    requires
        s0.wf(),
        dump_post(s0, s1, c, p, ack, messages),
        ack is Some,
        s2.frame(s1, c, p),
        s2.mailbox_of(c, p) == Some(
            match s1.mailbox_of(c, p) {
                Some(m) => m,
                None => Seq::empty(),
            } + extra,
        ),
        s2.tag_of(c, p) == s1.tag_of(c, p),
        s2.pending_of(c, p) == s1.pending_of(c, p),
        free_tag_post(s2, s3, c, p, ack),
    ensures
        s0.mailbox_of(c, p) matches Some(m) && s3.mailbox_of(c, p) == Some(
            m.subrange(messages.len() as int, m.len() as int) + extra,
        ),
        s3.pending_of(c, p) is None,
{
    let m = match s0.mailbox_of(c, p) {
        Some(m) => m,
        None => Seq::empty(),
    };
    assert(m.len() > 0);
    assert(s1.record(c, p) is Some);
    assert(s2.record(c, p) is Some);
    assert(matches_pending(s2.record(c, p), ack));
    let m2 = m + extra;
    assert(m2.subrange(messages.len() as int, m2.len() as int) =~= m.subrange(
        messages.len() as int,
        m.len() as int,
    ) + extra);
}

/// A copy of a list of letters.
pub fn copy_letters(v: &Vec<Letter>) -> (r: Vec<Letter>)
    ensures
        r@ == v@,
{
    let mut r: Vec<Letter> = Vec::new();
    let mut i: usize = 0;
    while i < v.len()
        invariant
            i <= v@.len(),
            r@ == v@.subrange(0, i as int),
        decreases v.len() - i,
    {
        r.push(copy_letter(&v[i]));
        i = i + 1;
        assert(r@ =~= v@.subrange(0, i as int));
    }
    assert(v@.subrange(0, v@.len() as int) =~= v@);
    r
}

} // verus!
