//! The web-socket server: which computation a new connection joins, the mailbox it
//! gets, and what is answered to the messages it sends.
use vstd::prelude::*;

verus! {

/// A message sent over a web socket: a tag (`"connect"` or `"communicate"`), the
/// party it is meant for, and its text.
pub struct JasonMessage {
    pub tag: String,
    pub party_id: u32,
    pub message: String,
}

/// The mailbox of one party of one computation.
pub struct SocketMailbox {
    pub computation_id: u32,
    pub party_id: u32,
    pub messages: Vec<String>,
}

/// The web-socket server: its name and the mailboxes of the connected parties.
pub struct Server {
    pub name: String,
    pub mail_box: Vec<SocketMailbox>,
}

/// What the server does with a message: the party it answers or forwards to, and the
/// text it sends (`0` and `"error"` when it sends nothing).
pub struct Handled {
    pub party_id: u32,
    pub text: String,
}

/// The computation a connection joins: the first three connections join computation 1,
/// the others computation 2.
pub open spec fn computation_of(connection: u32) -> u32 {
    if connection == 1 || connection == 2 || connection == 3 {
        1
    } else {
        2
    }
}

/// The index of the mailbox of party `p` of computation `c`, or -1.
pub open spec fn box_index(boxes: Seq<SocketMailbox>, c: u32, p: u32) -> int {
    if exists|i: int|
        0 <= i < boxes.len() && #[trigger] boxes[i].computation_id == c && boxes[i].party_id == p {
        choose|i: int| 0 <= i < boxes.len() && #[trigger] boxes[i].computation_id == c && boxes[i].party_id == p
    } else {
        -1
    }
}

impl Server {
    /// A server with no connection.
    pub fn new(name: String) -> (r: Server)
        ensures
            r.name == name,
            r.mail_box@.len() == 0,
    {
        Server { name: name, mail_box: Vec::new() }
    }

    /// Registers connection number `connection`: it joins its computation as the party
    /// of the same number, and gets an empty mailbox unless it has one. Returns the
    /// computation.
    pub fn register(&mut self, connection: u32) -> (r: u32)
        ensures
            r == computation_of(connection),
            final(self).name == old(self).name,
            box_index(old(self).mail_box@, r, connection) >= 0 ==> final(self).mail_box@ == old(
                self,
            ).mail_box@,
            box_index(old(self).mail_box@, r, connection) < 0 ==> final(self).mail_box@.len() == old(
                self,
            ).mail_box@.len() + 1 && final(self).mail_box@.subrange(0, old(self).mail_box@.len() as int)
                == old(self).mail_box@ && final(self).mail_box@.last().computation_id == r
                && final(self).mail_box@.last().party_id == connection
                && final(self).mail_box@.last().messages@.len() == 0,
    {
        let c: u32 = if connection == 1 || connection == 2 || connection == 3 {
            1
        } else {
            2
        };
        let mut i: usize = 0;
        while i < self.mail_box.len()
            invariant
                i <= self.mail_box@.len(),
                c == computation_of(connection),
                self.mail_box@ == old(self).mail_box@,
                self.name == old(self).name,
                forall|j: int|
                    0 <= j < i ==> !(#[trigger] self.mail_box@[j].computation_id == c
                        && self.mail_box@[j].party_id == connection),
            decreases self.mail_box.len() - i,
        {
            if self.mail_box[i].computation_id == c && self.mail_box[i].party_id == connection {
                assert(self.mail_box@[i as int].computation_id == c && self.mail_box@[i as int].party_id
                    == connection);
                return c;
            }
            i = i + 1;
        }
        let ghost before = self.mail_box@;
        self.mail_box.push(SocketMailbox { computation_id: c, party_id: connection, messages: Vec::new() });
        assert(self.mail_box@.subrange(0, before.len() as int) =~= before);
        c
    }
}

/// Handles a message from party `sender`, given the parties connected to its
/// computation: `"connect"` is answered with a welcome to the sender, `"communicate"`
/// is forwarded to the party it names when that party is connected; anything else
/// gets `0` and `"error"`.
pub fn handle_messages(object: &JasonMessage, sender: u32, connected: &Vec<u32>) -> (r: Handled)
    ensures
        object.tag@ == "connect"@ ==> r.party_id == sender && r.text@ == "Welcome: "@ + object.message@,
        object.tag@ == "communicate"@ ==> (if connected@.contains(object.party_id) {
            r.party_id == object.party_id && r.text@ == object.message@
        } else {
            r.party_id == 0 && r.text@ == "error"@
        }),
        object.tag@ != "connect"@ && object.tag@ != "communicate"@ ==> r.party_id == 0 && r.text@
            == "error"@,
{
    let connect = String::from_str("connect");
    let communicate = String::from_str("communicate");
    proof {
        reveal_strlit("connect");
        reveal_strlit("communicate");
    }
    assert("communicate"@ != "connect"@) by {
        assert("communicate"@[2] != "connect"@[2]);
    }
    if object.tag == connect {
        let mut res = String::from_str("Welcome: ");
        res.append(object.message.as_str());
        return Handled { party_id: sender, text: res };
    }
    if object.tag == communicate {
        let mut i: usize = 0;
        while i < connected.len()
            invariant
                i <= connected@.len(),
                object.tag@ == "communicate"@,
                "communicate"@ != "connect"@,
                forall|j: int| 0 <= j < i ==> #[trigger] connected@[j] != object.party_id,
            decreases connected.len() - i,
        {
            if connected[i] == object.party_id {
                return Handled { party_id: object.party_id, text: object.message.clone() };
            }
            i = i + 1;
        }
    }
    Handled { party_id: 0, text: String::from_str("error") }
}

} // verus!
