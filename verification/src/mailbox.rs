//! The client's mailbox for the REST extension: what waits to be sent, the request
//! that is on its way, and how a failed request is put back in front of what waits.
use vstd::prelude::*;

verus! {

/// A message to the server: its label and its payload (JSON text).
pub struct OutMessage {
    pub label: String,
    pub payload: String,
}

/// What goes with one request: the last acknowledgement tag, the initialization
/// message if any, and the messages. The messages are absent until the first flush.
pub struct Request {
    pub ack: Option<u64>,
    pub initialization: Option<String>,
    pub messages: Option<Vec<OutMessage>>,
}

/// The request on its way (if any) and what waits to be sent.
pub struct Mailbox {
    pub pending: Option<Request>,
    pub current: Request,
}

/// The server's answer to a request: whether it succeeded, the error text when it did
/// not, its acknowledgement tag, its initialization message and its messages (label and
/// payload).
pub struct Answer {
    pub success: bool,
    pub error: String,
    pub ack: Option<u64>,
    pub initialization: Option<String>,
    pub messages: Vec<(String, String)>,
}

/// The messages of a request, none when absent.
pub open spec fn msgs(r: Request) -> Seq<OutMessage> {
    match r.messages {
        Some(m) => m@,
        None => Seq::empty(),
    }
}

/// How many messages go with one flush: all when the batch size is negative or
/// larger than what waits.
pub open spec fn batch_count(max_batch: i64, n: nat) -> nat {
    if max_batch < 0 || max_batch as int > n {
        n
    } else {
        max_batch as nat
    }
}

/// Two requests carry the same acknowledgement, initialization and messages.
pub open spec fn same_request(a: Request, b: Request) -> bool {
    &&& a.ack == b.ack
    &&& a.initialization == b.initialization
    &&& (a.messages is Some) == (b.messages is Some)
    &&& msgs(a) == msgs(b)
}

/// What `merge_requests` does, from `s0` to `s1`.
pub open spec fn merge_post(s0: Mailbox, s1: Mailbox) -> bool {
    &&& s0.pending is None ==> s1 == s0
    &&& s0.pending matches Some(p) ==> {
        &&& s1.pending is None
        &&& s1.current.initialization == (if s0.current.initialization is None {
            p.initialization
        } else {
            s0.current.initialization
        })
        &&& s1.current.ack == (if s0.current.ack is None {
            p.ack
        } else {
            s0.current.ack
        })
        &&& s1.current.messages is Some
        &&& msgs(s1.current) == msgs(p) + msgs(s0.current)
    }
}

/// What `flush` does, from `s0` to `s1`, returning `r`.
pub open spec fn flush_post(s0: Mailbox, s1: Mailbox, max_batch: i64, r: Option<Request>) -> bool {
    &&& s0.pending is Some ==> r is None && s1 == s0
    &&& s0.pending is None ==> {
        let m = msgs(s0.current);
        let k = batch_count(max_batch, m.len());
        &&& r matches Some(body) && {
            &&& body.ack == s0.current.ack
            &&& body.initialization == s0.current.initialization
            &&& body.messages is Some
            &&& msgs(body) == m.subrange(0, k as int)
            &&& s1.pending matches Some(p) && same_request(p, body)
        }
        &&& s1.current.ack is None
        &&& s1.current.initialization is None
        &&& s1.current.messages is Some
        &&& msgs(s1.current) == m.subrange(k as int, m.len() as int)
    }
}

/// What `poll` does, from `s0` to `s1`, returning `r`.
pub open spec fn poll_post(s0: Mailbox, s1: Mailbox, r: Option<Request>) -> bool {
    &&& s0.pending is Some ==> r is None && s1 == s0
    &&& s0.pending is None ==> {
        &&& r matches Some(body) && {
            &&& body.ack == s0.current.ack
            &&& body.initialization == s0.current.initialization
            &&& body.messages is Some
            &&& msgs(body).len() == 0
            &&& s1.pending matches Some(p) && same_request(p, body)
        }
        &&& s1.current.ack is None
        &&& s1.current.initialization is None
        &&& (s1.current.messages is Some) == (s0.current.messages is Some)
        &&& msgs(s1.current) == msgs(s0.current)
    }
}

/// A copy of a message.
pub fn copy_message(m: &OutMessage) -> (r: OutMessage)
    ensures
        r == *m,
{
    OutMessage { label: m.label.clone(), payload: m.payload.clone() }
}

/// A copy of `v[from..to]`.
pub fn copy_messages(v: &Vec<OutMessage>, from: usize, to: usize) -> (r: Vec<OutMessage>)
    requires
        from <= to <= v@.len(),
    ensures
        r@ == v@.subrange(from as int, to as int),
{
    let mut r: Vec<OutMessage> = Vec::new();
    let mut i: usize = from;
    while i < to
        invariant
            from <= i <= to,
            to <= v@.len(),
            r@ == v@.subrange(from as int, i as int),
        decreases to - i,
    {
        r.push(copy_message(&v[i]));
        i = i + 1;
        assert(r@ =~= v@.subrange(from as int, i as int));
    }
    r
}

/// A copy of an optional text.
fn copy_text(t: &Option<String>) -> (r: Option<String>)
    ensures
        r == *t,
{
    match t {
        Some(s) => Some(s.clone()),
        None => None,
    }
}

/// A copy of a request.
pub fn copy_request(r: &Request) -> (c: Request)
    ensures
        same_request(c, *r),
{
    let messages = match &r.messages {
        Some(m) => {
            let v = copy_messages(m, 0, m.len());
            assert(v@ =~= m@);
            Some(v)
        },
        None => None,
    };
    proof {
        if r.messages is Some {
            assert(messages->0@ == r.messages->0@);
        }
    }
    Request { ack: r.ack, initialization: copy_text(&r.initialization), messages: messages }
}

impl Mailbox {
    /// An empty mailbox with no request on its way.
    pub fn new() -> (r: Mailbox)
        ensures
            r.pending is None,
            r.current.ack is None,
            r.current.initialization is None,
            r.current.messages is None,
    {
        Mailbox { pending: None, current: Request { ack: None, initialization: None, messages: None } }
    }

    /// A request failed: its messages go back in front of those that wait, and its
    /// acknowledgement and initialization are kept unless newer ones wait.
    pub fn merge_requests(&mut self)
        requires
            old(self).pending is Some ==> old(self).current.messages is Some,
        ensures
            merge_post(*old(self), *final(self)),
    {
        let p = match &self.pending {
            None => {
                return;
            },
            Some(p) => copy_request(p),
        };
        let initialization = match &self.current.initialization {
            None => copy_text(&p.initialization),
            Some(t) => Some(t.clone()),
        };
        let ack = match self.current.ack {
            None => p.ack,
            Some(a) => Some(a),
        };
        let mut merged: Vec<OutMessage> = match &p.messages {
            Some(m) => copy_messages(m, 0, m.len()),
            None => Vec::new(),
        };
        let current: Vec<OutMessage> = match &self.current.messages {
            Some(m) => copy_messages(m, 0, m.len()),
            None => Vec::new(),
        };
        let ghost front = merged@;
        let mut i: usize = 0;
        while i < current.len()
            invariant
                i <= current@.len(),
                merged@ == front + current@.subrange(0, i as int),
            decreases current.len() - i,
        {
            merged.push(copy_message(&current[i]));
            i = i + 1;
            assert(merged@ =~= front + current@.subrange(0, i as int));
        }
        proof {
            assert(current@.subrange(0, current@.len() as int) =~= current@);
            if p.messages is Some {
                let m = p.messages->0;
                assert(m@.subrange(0, m@.len() as int) =~= m@);
            }
            if old(self).current.messages is Some {
                let m = old(self).current.messages->0;
                assert(m@.subrange(0, m@.len() as int) =~= m@);
            }
        }
        self.current = Request { ack: ack, initialization: initialization, messages: Some(merged) };
        self.pending = None;
    }

    /// Starts a request with what waits (at most `max_batch` messages), unless one is
    /// on its way. The rest of the messages keep waiting; the acknowledgement and the
    /// initialization go with the request.
    pub fn flush(&mut self, max_batch: i64) -> (r: Option<Request>)
        ensures
            flush_post(*old(self), *final(self), max_batch, r),
    {
        if self.pending.is_some() {
            return None;
        }
        let all: Vec<OutMessage> = match &self.current.messages {
            Some(m) => copy_messages(m, 0, m.len()),
            None => Vec::new(),
        };
        proof {
            if self.current.messages is Some {
                let m = self.current.messages->0;
                assert(m@.subrange(0, m@.len() as int) =~= m@);
            }
        }
        let n = all.len();
        let k: usize = if max_batch < 0 || max_batch as u64 > n as u64 {
            n
        } else {
            max_batch as usize
        };
        let sliced = copy_messages(&all, 0, k);
        let tail = copy_messages(&all, k, n);
        let body = Request {
            ack: self.current.ack,
            initialization: copy_text(&self.current.initialization),
            messages: Some(sliced),
        };
        self.pending = Some(copy_request(&body));
        self.current = Request { ack: None, initialization: None, messages: Some(tail) };
        Some(body)
    }

    /// Starts a request that only asks for messages, unless one is on its way. The
    /// acknowledgement and the initialization go with the request; the messages keep
    /// waiting.
    pub fn poll(&mut self) -> (r: Option<Request>)
        ensures
            poll_post(*old(self), *final(self), r),
    {
        if self.pending.is_some() {
            return None;
        }
        let body = Request {
            ack: self.current.ack,
            initialization: copy_text(&self.current.initialization),
            messages: Some(Vec::new()),
        };
        self.pending = Some(copy_request(&body));
        let messages = match &self.current.messages {
            Some(m) => {
                let v = copy_messages(m, 0, m.len());
                assert(v@ =~= m@);
                Some(v)
            },
            None => None,
        };
        proof {
            if old(self).current.messages is Some {
                assert(messages->0@ == old(self).current.messages->0@);
            }
        }
        self.current = Request { ack: None, initialization: None, messages: messages };
        Some(body)
    }

    /// Takes the server's answer: a failed answer changes nothing and gives one
    /// `"error"` event; otherwise the request is no longer on its way, the answer's tag
    /// is kept, and the events are the initialization message (if any) followed by the
    /// messages, in order.
    pub fn answered(&mut self, answer: Answer) -> (r: Vec<(String, String)>)
        ensures
            !answer.success ==> *final(self) == *old(self) && r@.len() == 1 && r@[0].0@ == "error"@
                && r@[0].1 == answer.error,
            answer.success ==> {
                &&& final(self).pending is None
                &&& final(self).current.ack == answer.ack
                &&& final(self).current.initialization == old(self).current.initialization
                &&& final(self).current.messages == old(self).current.messages
                &&& match answer.initialization {
                    Some(t) => r@.len() == answer.messages@.len() + 1 && r@[0].0@ == "initialization"@
                        && r@[0].1 == t && r@.subrange(1, r@.len() as int) == answer.messages@,
                    None => r@ == answer.messages@,
                }
            },
    {
        let mut events: Vec<(String, String)> = Vec::new();
        if !answer.success {
            events.push((String::from_str("error"), answer.error));
            return events;
        }
        self.received(answer.ack);
        if let Some(t) = answer.initialization {
            events.push((String::from_str("initialization"), t));
        }
        let ghost k = events@.len();
        let ghost head = events@;
        let messages = answer.messages;
        let mut i: usize = 0;
        while i < messages.len()
            invariant
                i <= messages@.len(),
                events@.len() == k + i,
                k <= 1,
                events@.subrange(k as int, events@.len() as int) == messages@.subrange(0, i as int),
                head.len() == k,
                forall|j: int| 0 <= j < k ==> #[trigger] events@[j] == head[j],
            decreases messages.len() - i,
        {
            events.push((messages[i].0.clone(), messages[i].1.clone()));
            i = i + 1;
            assert(events@.subrange(k as int, events@.len() as int) =~= messages@.subrange(0, i as int));
        }
        assert(messages@.subrange(0, messages@.len() as int) =~= messages@);
        events
    }

    /// The server answered the request: nothing is on its way any more, and the
    /// acknowledgement tag of the answer is kept for the next request.
    pub fn received(&mut self, ack: Option<u64>)
        ensures
            final(self).pending is None,
            final(self).current.ack == ack,
            final(self).current.initialization == old(self).current.initialization,
            final(self).current.messages == old(self).current.messages,
    {
        self.pending = None;
        self.current.ack = ack;
    }

    /// Queues a message: the initialization message takes the place of any former one;
    /// any other message waits at the end.
    pub fn emit(&mut self, label: String, payload: String)
        requires
            label@ != "initialization"@ ==> old(self).current.messages is Some,
        ensures
            final(self).pending == old(self).pending,
            final(self).current.ack == old(self).current.ack,
            label@ == "initialization"@ ==> final(self).current.initialization == Some(payload)
                && final(self).current.messages == old(self).current.messages,
            label@ != "initialization"@ ==> final(self).current.initialization == old(
                self,
            ).current.initialization && final(self).current.messages is Some && msgs(final(self).current)
                == msgs(old(self).current).push(OutMessage { label: label, payload: payload }),
    {
        let init = String::from_str("initialization");
        if label == init {
            self.current.initialization = Some(payload);
            return;
        }
        let mut messages = match &self.current.messages {
            Some(m) => copy_messages(m, 0, m.len()),
            None => Vec::new(),
        };
        proof {
            if old(self).current.messages is Some {
                let m = old(self).current.messages->0;
                assert(m@.subrange(0, m@.len() as int) =~= m@);
            }
        }
        messages.push(OutMessage { label: label, payload: payload });
        self.current.messages = Some(messages);
    }

    /// Nothing waits and nothing is on its way (and no open is pending).
    pub fn is_empty(&self, pending_opens: Option<i64>) -> (r: bool)
        requires
            self.pending is None && self.current.initialization is None ==> self.current.messages is Some,
            self.pending is None && self.current.initialization is None && msgs(self.current).len() == 0
                ==> pending_opens is Some,
        ensures
            r == (self.pending is None && self.current.initialization is None && msgs(self.current).len()
                == 0 && pending_opens == Some(0i64)),
    {
        if self.pending.is_some() || self.current.initialization.is_some() {
            return false;
        }
        let n = match &self.current.messages {
            Some(m) => m.len(),
            None => 0,
        };
        if n != 0 {
            return false;
        }
        match pending_opens {
            Some(k) => k == 0,
            None => false,
        }
    }
}

/// A request that failed loses nothing: flushing and then putting the failed request
/// back gives the same messages in the same order, with the same acknowledgement and
/// initialization.
pub proof fn law_failed_flush_loses_nothing(
    s0: Mailbox,
    s1: Mailbox,
    s2: Mailbox,
    max_batch: i64,
    r: Option<Request>,
)
    requires
        s0.pending is None,
        flush_post(s0, s1, max_batch, r),
        merge_post(s1, s2),
    ensures
        s2.pending is None,
        msgs(s2.current) == msgs(s0.current),
        s2.current.ack == s0.current.ack,
        s2.current.initialization == s0.current.initialization,
{
    let m = msgs(s0.current);
    let k = batch_count(max_batch, m.len());
    assert(m.subrange(0, k as int) + m.subrange(k as int, m.len() as int) =~= m);
}

/// A poll that failed loses nothing: putting the failed request back gives the same
/// messages, acknowledgement and initialization as before the poll.
pub proof fn law_failed_poll_loses_nothing(s0: Mailbox, s1: Mailbox, s2: Mailbox, r: Option<Request>)
    requires
        s0.pending is None,
        s0.current.messages is Some,
        poll_post(s0, s1, r),
        merge_post(s1, s2),
    ensures
        s2.pending is None,
        msgs(s2.current) == msgs(s0.current),
        s2.current.ack == s0.current.ack,
        s2.current.initialization == s0.current.initialization,
{
    assert(Seq::<OutMessage>::empty() + msgs(s0.current) =~= msgs(s0.current));
}

} // verus!
