//! The chat side of the server: messages, the JSON notification a waiting
//! listener receives, and the registry of listeners waiting for the next
//! message. Delivery fans a message out to every registered listener at once;
//! a message delivered with no listener waiting is dropped.
use vstd::prelude::*;
use vstd::string::StringExecFns;

verus! {

/// The ghost shape of a chat message.
pub struct MsgModel {
    pub username: Seq<char>,
    pub message: Seq<char>,
}

/// A chat message: who posted it and what was posted. Immutable once built.
#[derive(Debug, PartialEq, Eq)]
pub struct UserMessage {
    pub username: String,
    pub message: String,
}

impl View for UserMessage {
    type V = MsgModel;

    open spec fn view(&self) -> MsgModel {
        MsgModel { username: self.username@, message: self.message@ }
    }
}

impl UserMessage {
    /// A message as posted by `username`.
    pub fn new(username: String, message: String) -> (m: Self)
        ensures
            m@.username == username@,
            m@.message == message@,
    {
        Self { username, message }
    }
}

impl Clone for UserMessage {
    fn clone(&self) -> (r: Self)
        ensures
            r@ == self@,
    {
        UserMessage { username: self.username.clone(), message: self.message.clone() }
    }
}

/// The JSON text a listener is notified with.
pub open spec fn notification_json_text(m: MsgModel) -> Seq<char> {
    "{\"username\":\""@ + m.username + "\",\"message\":\""@ + m.message + "\"}"@
}

/// Render the notification JSON for `msg`.
pub fn notification_json(msg: &UserMessage) -> (r: String)
    ensures
        r@ == notification_json_text(msg@),
{
    let mut out = String::new();
    out.append("{\"username\":\"");
    out.append(msg.username.as_str());
    out.append("\",\"message\":\"");
    out.append(msg.message.as_str());
    out.append("\"}");
    proof {
        assert(out@ =~= notification_json_text(msg@));
    }
    out
}

/// A notification owed to one waiting listener: the handle of the waiting
/// connection and the message it is to receive.
pub struct Notification {
    pub slot: u64,
    pub message: UserMessage,
}

/// The sequence `s` with every occurrence of `x` taken out, order kept.
pub open spec fn without(s: Seq<u64>, x: u64) -> Seq<u64>
    decreases s.len(),
{
    if s.len() == 0 {
        Seq::empty()
    } else if s[0] == x {
        without(s.drop_first(), x)
    } else {
        seq![s[0]] + without(s.drop_first(), x)
    }
}

/// The listeners currently waiting for the next message, each named by a
/// handle under which the caller reaches its connection. The registry is pure
/// bookkeeping: `deliver` hands back the notifications owed, and the caller
/// performs them.
pub struct ListenerRegistry {
    slots: Vec<u64>,
}

impl View for ListenerRegistry {
    type V = Seq<u64>;

    closed spec fn view(&self) -> Seq<u64> {
        self.slots@
    }
}

impl ListenerRegistry {
    /// An empty registry: nobody is waiting.
    pub fn new() -> (r: Self)
        ensures
            r@ == Seq::<u64>::empty(),
    {
        let r = ListenerRegistry { slots: Vec::new() };
        proof {
            assert(r@ =~= Seq::<u64>::empty());
        }
        r
    }

    /// How many listeners are waiting.
    pub fn len(&self) -> (n: usize)
        ensures
            n == self@.len(),
    {
        self.slots.len()
    }

    /// Register a waiting connection under the handle `slot`.
    pub fn register(&mut self, slot: u64)
        ensures
            final(self)@ == old(self)@.push(slot),
    {
        self.slots.push(slot);
    }

    /// Remove every slot registered under `slot`, if any still waits: a
    /// timed-out or disconnected listener must not linger in the registry.
    pub fn deregister(&mut self, slot: u64)
        ensures
            final(self)@ == without(old(self)@, slot),
    {
        let n = self.slots.len();
        let mut kept: Vec<u64> = Vec::new();
        let mut i: usize = 0;
        proof {
            assert(old(self)@.skip(0) =~= old(self)@);
            assert(kept@ =~= Seq::<u64>::empty());
        }
        while i < n
            invariant
                i <= n,
                n == self.slots@.len(),
                self.slots@ == old(self)@,
                without(old(self)@, slot) == kept@ + without(old(self)@.skip(i as int), slot),
            decreases n - i,
        {
            let ghost rest = old(self)@.skip(i as int);
            proof {
                assert(rest[0] == old(self)@[i as int]);
                assert(rest.drop_first() =~= old(self)@.skip(i + 1));
            }
            let v = self.slots[i];
            let ghost kbefore = kept@;
            if v != slot {
                kept.push(v);
                proof {
                    assert(kept@ + without(old(self)@.skip(i + 1), slot) =~= kbefore + without(
                        rest,
                        slot,
                    ));
                }
            }
            i = i + 1;
        }
        self.slots = kept;
        proof {
            assert(old(self)@.skip(n as int) =~= Seq::<u64>::empty());
            assert(kept@ + without(old(self)@.skip(n as int), slot) =~= kept@);
        }
    }

    /// Fan-out-all delivery: every waiting listener is owed this one message,
    /// in registration order, and the registry is left empty. With nobody
    /// waiting, nothing is owed and the message is dropped.
    pub fn deliver(&mut self, msg: &UserMessage) -> (out: Vec<Notification>)
        ensures
            final(self)@.len() == 0,
            out@.len() == old(self)@.len(),
            forall|i: int|
                0 <= i < out@.len() ==> (#[trigger] out@[i]).slot == old(self)@[i] && out@[i].message@
                    == msg@,
    {
        let n = self.slots.len();
        let mut out: Vec<Notification> = Vec::new();
        let mut i: usize = 0;
        while i < n
            invariant
                i <= n,
                n == self.slots@.len(),
                self.slots@ == old(self)@,
                out@.len() == i,
                forall|j: int|
                    0 <= j < i ==> (#[trigger] out@[j]).slot == old(self)@[j] && out@[j].message@
                        == msg@,
            decreases n - i,
        {
            out.push(Notification { slot: self.slots[i], message: msg.clone() });
            i = i + 1;
        }
        self.slots.clear();
        out
    }
}

} // verus!
