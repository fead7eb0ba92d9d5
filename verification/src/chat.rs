//! Chat room logic: nickname registration and line broadcast.
//!
//! A joining connection is prompted for a nickname; the first line it
//! sends is the nickname, valid exactly when non-empty and entirely
//! ASCII alphanumeric. A registered user's lines are broadcast to every
//! other registered user, prefixed with the sender's nickname; joins
//! and leaves are announced to the registered room. All I/O stays with
//! the caller: each step returns the exact bytes to write and to whom.

use vstd::prelude::*;
use vstd::string::StringSliceAdditionalSpecFns;

verus! {

/// ASCII letters and digits, the whole nickname alphabet.
pub open spec fn is_alnum_byte(b: u8) -> bool {
    (48 <= b <= 57) || (65 <= b <= 90) || (97 <= b <= 122)
}

/// A nickname is valid when non-empty and entirely alphanumeric.
pub open spec fn valid_nick(s: Seq<u8>) -> bool {
    &&& s.len() >= 1
    &&& forall|i: int| 0 <= i < s.len() ==> is_alnum_byte(s[i])
}

/// Whether a string is a valid nickname. Any non-ASCII character makes
/// some byte of the string fall outside the alphabet, so checking the
/// bytes checks the characters.
pub fn is_valid_nick(s: &str) -> (r: bool)
    ensures
        r == valid_nick(s.spec_bytes()),
{
    let b = s.as_bytes();
    if b.len() == 0 {
        return false;
    }
    let mut i: usize = 0;
    while i < b.len()
        invariant
            i <= b@.len(),
            b@ == s.spec_bytes(),
            b@.len() >= 1,
            forall|j: int| 0 <= j < i ==> is_alnum_byte(b@[j]),
        decreases b@.len() - i,
    {
        let c = b[i];
        if !((48 <= c && c <= 57) || (65 <= c && c <= 90) || (97 <= c && c <= 122)) {
            return false;
        }
        i += 1;
    }
    true
}

/// One connection known to the room.
pub struct Member {
    pub id: u64,
    pub nick: Vec<u8>,
    pub registered: bool,
}

/// A message to write to one connection.
pub struct Outgoing {
    pub id: u64,
    pub bytes: Vec<u8>,
}

/// The target and bytes of each queued write.
pub open spec fn out_views(v: Seq<Outgoing>) -> Seq<(u64, Seq<u8>)> {
    v.map(|i: int, o: Outgoing| (o.id, o.bytes@))
}

/// First index of a member, or -1.
pub open spec fn member_index(s: Seq<Member>, id: u64) -> int
    decreases s.len(),
{
    if s.len() == 0 {
        -1
    } else if s[0].id == id {
        0
    } else {
        let r = member_index(s.drop_first(), id);
        if r < 0 {
            -1
        } else {
            r + 1
        }
    }
}

/// `member_index` finds the first member with the id, if any.
pub proof fn lemma_member_index_char(s: Seq<Member>, id: u64)
    ensures
        member_index(s, id) == -1 ==> forall|j: int| 0 <= j < s.len() ==> s[j].id != id,
        member_index(s, id) != -1 ==> {
            let i = member_index(s, id);
            &&& 0 <= i < s.len()
            &&& s[i].id == id
            &&& forall|j: int| 0 <= j < i ==> s[j].id != id
        },
    decreases s.len(),
{
    if s.len() > 0 && s[0].id != id {
        let d = s.drop_first();
        lemma_member_index_char(d, id);
        assert(forall|j: int| 0 < j < s.len() ==> s[j] == d[j - 1]);
        if member_index(d, id) == -1 {
            assert forall|j: int| 0 <= j < s.len() implies s[j].id != id by {
                if j > 0 {
                    assert(s[j] == d[j - 1]);
                }
            }
        } else {
            let r = member_index(d, id);
            assert(s[r + 1] == d[r]);
            assert forall|j: int| 0 <= j < r + 1 implies s[j].id != id by {
                if j > 0 {
                    assert(s[j] == d[j - 1]);
                }
            }
        }
    }
}

/// The nicknames of the registered members, in member order.
pub open spec fn registered_nicks(s: Seq<Member>) -> Seq<Seq<u8>>
    decreases s.len(),
{
    if s.len() == 0 {
        seq![]
    } else {
        registered_nicks(s.drop_last()) + if s.last().registered {
            seq![s.last().nick@]
        } else {
            seq![]
        }
    }
}

/// Comma-joined nickname list.
pub open spec fn join_nicks(ns: Seq<Seq<u8>>) -> Seq<u8>
    decreases ns.len(),
{
    if ns.len() == 0 {
        seq![]
    } else if ns.len() == 1 {
        ns[0]
    } else {
        join_nicks(ns.drop_last()) + seq![44u8, 32u8] + ns.last()
    }
}

/// The writes that broadcast one message to every registered member but
/// the sender, in member order.
pub open spec fn broadcast_to(s: Seq<Member>, except: u64, m: Seq<u8>) -> Seq<(u64, Seq<u8>)>
    decreases s.len(),
{
    if s.len() == 0 {
        seq![]
    } else {
        broadcast_to(s.drop_last(), except, m) + if s.last().registered && s.last().id != except {
            seq![(s.last().id, m)]
        } else {
            seq![]
        }
    }
}

/// The nickname prompt, the bytes of "enter nick\n".
pub open spec fn enter_prompt() -> Seq<u8> {
    seq![101u8, 110u8, 116u8, 101u8, 114u8, 32u8, 110u8, 105u8, 99u8, 107u8, 10u8]
}

/// The rejection line, the bytes of "invalid nick\n".
pub open spec fn invalid_msg() -> Seq<u8> {
    seq![105u8, 110u8, 118u8, 97u8, 108u8, 105u8, 100u8, 32u8, 110u8, 105u8, 99u8, 107u8, 10u8]
}

/// The room listing sent to a joiner: "* in room: " then the joined
/// nicknames and a newline.
pub open spec fn room_msg(ns: Seq<Seq<u8>>) -> Seq<u8> {
    seq![42u8, 32u8, 105u8, 110u8, 32u8, 114u8, 111u8, 111u8, 109u8, 58u8, 32u8] + join_nicks(ns)
        + seq![10u8]
}

/// The join announcement: "* ", the nickname, " entered\n".
pub open spec fn entered_msg(nick: Seq<u8>) -> Seq<u8> {
    seq![42u8, 32u8] + nick + seq![32u8, 101u8, 110u8, 116u8, 101u8, 114u8, 101u8, 100u8, 10u8]
}

/// The leave announcement: "* ", the nickname, " left\n".
pub open spec fn left_msg(nick: Seq<u8>) -> Seq<u8> {
    seq![42u8, 32u8] + nick + seq![32u8, 108u8, 101u8, 102u8, 116u8, 10u8]
}

/// A chat line: "[", the nickname, "] ", the text, "\n".
pub open spec fn chat_msg(nick: Seq<u8>, text: Seq<u8>) -> Seq<u8> {
    seq![91u8] + nick + seq![93u8, 32u8] + text + seq![10u8]
}

/// Appends a byte string.
fn push_bytes(out: &mut Vec<u8>, s: &[u8])
    ensures
        final(out)@ == old(out)@ + s@,
{
    let ghost pre = out@;
    let mut i: usize = 0;
    while i < s.len()
        invariant
            i <= s@.len(),
            out@ == pre + s@.subrange(0, i as int),
        decreases s@.len() - i,
    {
        out.push(s[i]);
        i += 1;
        assert(out@ =~= pre + s@.subrange(0, i as int));
    }
    assert(out@ =~= pre + s@);
}

fn enter_prompt_vec() -> (r: Vec<u8>)
    ensures
        r@ == enter_prompt(),
{
    let mut r: Vec<u8> = Vec::new();
    r.push(101);
    r.push(110);
    r.push(116);
    r.push(101);
    r.push(114);
    r.push(32);
    r.push(110);
    r.push(105);
    r.push(99);
    r.push(107);
    r.push(10);
    assert(r@ =~= enter_prompt());
    r
}

fn invalid_msg_vec() -> (r: Vec<u8>)
    ensures
        r@ == invalid_msg(),
{
    let mut r: Vec<u8> = Vec::new();
    r.push(105);
    r.push(110);
    r.push(118);
    r.push(97);
    r.push(108);
    r.push(105);
    r.push(100);
    r.push(32);
    r.push(110);
    r.push(105);
    r.push(99);
    r.push(107);
    r.push(10);
    assert(r@ =~= invalid_msg());
    r
}

fn entered_msg_vec(nick: &[u8]) -> (r: Vec<u8>)
    ensures
        r@ == entered_msg(nick@),
{
    let mut r: Vec<u8> = Vec::new();
    r.push(42);
    r.push(32);
    push_bytes(&mut r, nick);
    r.push(32);
    r.push(101);
    r.push(110);
    r.push(116);
    r.push(101);
    r.push(114);
    r.push(101);
    r.push(100);
    r.push(10);
    assert(r@ =~= entered_msg(nick@));
    r
}

fn left_msg_vec(nick: &[u8]) -> (r: Vec<u8>)
    ensures
        r@ == left_msg(nick@),
{
    let mut r: Vec<u8> = Vec::new();
    r.push(42);
    r.push(32);
    push_bytes(&mut r, nick);
    r.push(32);
    r.push(108);
    r.push(101);
    r.push(102);
    r.push(116);
    r.push(10);
    assert(r@ =~= left_msg(nick@));
    r
}

fn chat_msg_vec(nick: &[u8], text: &[u8]) -> (r: Vec<u8>)
    ensures
        r@ == chat_msg(nick@, text@),
{
    let mut r: Vec<u8> = Vec::new();
    r.push(91);
    push_bytes(&mut r, nick);
    r.push(93);
    r.push(32);
    push_bytes(&mut r, text);
    r.push(10);
    assert(r@ =~= chat_msg(nick@, text@));
    r
}

/// The room.
pub struct ChatRoom {
    pub members: Vec<Member>,
}

impl ChatRoom {
    /// Member ids are unique.
    pub open spec fn wf(self) -> bool {
        forall|i: int, j: int| 0 <= i < j < self.members@.len() ==> self.members@[i].id
            != self.members@[j].id
    }

    /// An empty room.
    pub fn new() -> (r: ChatRoom)
        ensures
            r.wf(),
            r.members@.len() == 0,
    {
        ChatRoom { members: Vec::new() }
    }

    /// Whether the room knows a connection id.
    pub fn has_member(&self, id: u64) -> (r: bool)
        ensures
            r == (member_index(self.members@, id) >= 0),
    {
        let mut i: usize = 0;
        while i < self.members.len()
            invariant
                i <= self.members@.len(),
                forall|j: int| 0 <= j < i ==> self.members@[j].id != id,
            decreases self.members@.len() - i,
        {
            if self.members[i].id == id {
                proof {
                    lemma_member_index_char(self.members@, id);
                    if member_index(self.members@, id) == -1 {
                        assert(self.members@[i as int].id == id);
                    }
                }
                return true;
            }
            i += 1;
        }
        proof {
            lemma_member_index_char(self.members@, id);
            let k = member_index(self.members@, id);
            if k != -1 {
                assert(self.members@[k].id == id);
            }
        }
        false
    }

    /// First index of a member, if known.
    fn find_member(&self, id: u64) -> (r: Option<usize>)
        ensures
            match r {
                Some(i) => member_index(self.members@, id) == i,
                None => member_index(self.members@, id) == -1,
            },
    {
        let mut i: usize = 0;
        while i < self.members.len()
            invariant
                i <= self.members@.len(),
                forall|j: int| 0 <= j < i ==> self.members@[j].id != id,
            decreases self.members@.len() - i,
        {
            if self.members[i].id == id {
                proof {
                    lemma_member_index_char(self.members@, id);
                    if member_index(self.members@, id) == -1 {
                        assert(self.members@[i as int].id == id);
                    }
                }
                return Some(i);
            }
            i += 1;
        }
        proof {
            lemma_member_index_char(self.members@, id);
            let k = member_index(self.members@, id);
            if k != -1 {
                assert(self.members@[k].id == id);
            }
        }
        None
    }

    /// Builds the broadcast of one message to every registered member
    /// but the sender.
    fn broadcast(&self, except: u64, m: &[u8]) -> (r: Vec<Outgoing>)
        ensures
            out_views(r@) == broadcast_to(self.members@, except, m@),
    {
        let mut r: Vec<Outgoing> = Vec::new();
        proof {
            assert(out_views(r@) =~= broadcast_to(self.members@.subrange(0, 0), except, m@));
        }
        let mut i: usize = 0;
        while i < self.members.len()
            invariant
                i <= self.members@.len(),
                out_views(r@) == broadcast_to(self.members@.subrange(0, i as int), except, m@),
            decreases self.members@.len() - i,
        {
            let ghost pre = r@;
            if self.members[i].registered && self.members[i].id != except {
                let bytes = vstd::slice::slice_to_vec(m);
                r.push(Outgoing { id: self.members[i].id, bytes });
                proof {
                    assert(out_views(r@) =~= out_views(pre) + seq![
                        (self.members@[i as int].id, m@),
                    ]);
                }
            }
            i += 1;
            proof {
                let sub = self.members@.subrange(0, i as int);
                assert(sub.drop_last() =~= self.members@.subrange(0, i - 1));
                assert(sub.last() == self.members@[i - 1]);
                assert(out_views(r@) =~= broadcast_to(sub, except, m@));
            }
        }
        proof {
            assert(self.members@.subrange(0, self.members@.len() as int) =~= self.members@);
        }
        r
    }

    /// Builds the room listing of the currently registered nicknames.
    fn room_listing(&self) -> (r: Vec<u8>)
        ensures
            r@ == room_msg(registered_nicks(self.members@)),
    {
        // Collect the registered nicknames in member order.
        let mut nicks: Vec<Vec<u8>> = Vec::new();
        let ghost mv = self.members@;
        let mut i: usize = 0;
        while i < self.members.len()
            invariant
                mv == self.members@,
                i <= mv.len(),
                nicks@.map_values(|n: Vec<u8>| n@) == registered_nicks(mv.subrange(0, i as int)),
            decreases mv.len() - i,
        {
            let ghost pre = nicks@;
            if self.members[i].registered {
                nicks.push(vstd::slice::slice_to_vec(self.members[i].nick.as_slice()));
                proof {
                    assert(nicks@.map_values(|n: Vec<u8>| n@) =~= pre.map_values(
                        |n: Vec<u8>| n@,
                    ) + seq![mv[i as int].nick@]);
                }
            }
            i += 1;
            proof {
                let sub = mv.subrange(0, i as int);
                assert(sub.drop_last() =~= mv.subrange(0, i - 1));
                assert(sub.last() == mv[i - 1]);
                assert(nicks@.map_values(|n: Vec<u8>| n@) =~= registered_nicks(sub));
            }
        }
        proof {
            assert(mv.subrange(0, mv.len() as int) =~= mv);
        }
        // Join them and wrap the banner around the list.
        let ghost ns = nicks@.map_values(|n: Vec<u8>| n@);
        let mut joined: Vec<u8> = Vec::new();
        let mut k: usize = 0;
        while k < nicks.len()
            invariant
                ns == nicks@.map_values(|n: Vec<u8>| n@),
                k <= nicks@.len(),
                joined@ == join_nicks(ns.subrange(0, k as int)),
            decreases nicks@.len() - k,
        {
            if k > 0 {
                joined.push(44);
                joined.push(32);
            }
            push_bytes(&mut joined, nicks[k].as_slice());
            k += 1;
            proof {
                let sub = ns.subrange(0, k as int);
                assert(sub.drop_last() =~= ns.subrange(0, k - 1));
                assert(sub.last() == ns[k - 1]);
                assert(joined@ =~= join_nicks(sub));
            }
        }
        proof {
            assert(ns.subrange(0, ns.len() as int) =~= ns);
        }
        let mut r: Vec<u8> = Vec::new();
        r.push(42);
        r.push(32);
        r.push(105);
        r.push(110);
        r.push(32);
        r.push(114);
        r.push(111);
        r.push(111);
        r.push(109);
        r.push(58);
        r.push(32);
        push_bytes(&mut r, joined.as_slice());
        r.push(10);
        proof {
            assert(r@ =~= room_msg(registered_nicks(self.members@)));
        }
        r
    }

    /// A new connection joins unregistered and is prompted for a
    /// nickname.
    pub fn join(&mut self, id: u64) -> (r: Vec<Outgoing>)
        requires
            old(self).wf(),
            member_index(old(self).members@, id) == -1,
        ensures
            final(self).wf(),
            final(self).members@.len() == old(self).members@.len() + 1,
            final(self).members@.subrange(0, old(self).members@.len() as int) == old(
                self,
            ).members@,
            final(self).members@.last().id == id,
            final(self).members@.last().nick@ == Seq::<u8>::empty(),
            !final(self).members@.last().registered,
            out_views(r@) == seq![(id, enter_prompt())],
    {
        let ghost pre = self.members@;
        self.members.push(Member { id, nick: Vec::new(), registered: false });
        let mut r: Vec<Outgoing> = Vec::new();
        r.push(Outgoing { id, bytes: enter_prompt_vec() });
        proof {
            lemma_member_index_char(pre, id);
            assert(self.members@.subrange(0, pre.len() as int) =~= pre);
            assert(out_views(r@) =~= seq![(id, enter_prompt())]);
            assert(self.wf());
        }
        r
    }

    /// Handles one line from a connection: a nickname attempt if it is
    /// not yet registered, else a chat line to broadcast. Returns the
    /// writes to perform and whether the connection must be dropped; a
    /// dropped connection is already removed from the room.
    pub fn line(&mut self, id: u64, text: &[u8]) -> (r: (Vec<Outgoing>, bool))
        requires
            old(self).wf(),
            member_index(old(self).members@, id) >= 0,
        ensures
            final(self).wf(),
            ({
                let mi = member_index(old(self).members@, id);
                let m = old(self).members@[mi];
                if m.registered {
                    &&& final(self).members@ == old(self).members@
                    &&& r.1 == false
                    &&& out_views(r.0@) == broadcast_to(
                        old(self).members@,
                        id,
                        chat_msg(m.nick@, text@),
                    )
                } else if valid_nick(text@) {
                    &&& r.1 == false
                    &&& final(self).members@.len() == old(self).members@.len()
                    &&& forall|j: int|
                        0 <= j < old(self).members@.len() && j != mi ==> final(self).members@[j]
                            == old(self).members@[j]
                    &&& final(self).members@[mi].id == id
                    &&& final(self).members@[mi].nick@ == text@
                    &&& final(self).members@[mi].registered
                    &&& out_views(r.0@) == seq![
                        (id, room_msg(registered_nicks(old(self).members@))),
                    ] + broadcast_to(final(self).members@, id, entered_msg(text@))
                } else {
                    &&& r.1 == true
                    &&& final(self).members@ == old(self).members@.remove(mi)
                    &&& out_views(r.0@) == seq![(id, invalid_msg())]
                }
            }),
    {
        let ghost pre = self.members@;
        proof {
            lemma_member_index_char(pre, id);
        }
        let mi = self.find_member(id).unwrap();
        if self.members[mi].registered {
            let msg = chat_msg_vec(self.members[mi].nick.as_slice(), text);
            let out = self.broadcast(id, msg.as_slice());
            (out, false)
        } else if is_valid_nick_bytes(text) {
            let listing = self.room_listing();
            let nick = vstd::slice::slice_to_vec(text);
            self.members.remove(mi);
            self.members.insert(mi, Member { id, nick, registered: true });
            proof {
                assert(self.members@ =~= pre.update(mi as int, self.members@[mi as int]));
                assert(self.wf());
            }
            let announce = entered_msg_vec(text);
            let mut others = self.broadcast(id, announce.as_slice());
            let ghost ov = others@;
            let mut out: Vec<Outgoing> = Vec::new();
            out.push(Outgoing { id, bytes: listing });
            let ghost head = out@;
            out.append(&mut others);
            proof {
                assert(out@ == head + ov);
                assert(out_views(out@) =~= seq![(id, room_msg(registered_nicks(pre)))]
                    + out_views(ov));
            }
            (out, false)
        } else {
            self.members.remove(mi);
            proof {
                assert forall|i: int, j: int|
                    0 <= i < j < self.members@.len() implies self.members@[i].id
                    != self.members@[j].id by {
                    assert(self.members@[i] == if i < mi {
                        pre[i]
                    } else {
                        pre[i + 1]
                    });
                    assert(self.members@[j] == if j < mi {
                        pre[j]
                    } else {
                        pre[j + 1]
                    });
                }
            }
            let mut out: Vec<Outgoing> = Vec::new();
            out.push(Outgoing { id, bytes: invalid_msg_vec() });
            proof {
                assert(out_views(out@) =~= seq![(id, invalid_msg())]);
            }
            (out, true)
        }
    }

    /// A connection leaves: a registered user's departure is announced
    /// to the other registered users, and the member is removed.
    pub fn leave(&mut self, id: u64) -> (r: Vec<Outgoing>)
        requires
            old(self).wf(),
            member_index(old(self).members@, id) >= 0,
        ensures
            final(self).wf(),
            ({
                let mi = member_index(old(self).members@, id);
                let m = old(self).members@[mi];
                &&& final(self).members@ == old(self).members@.remove(mi)
                &&& out_views(r@) == if m.registered {
                    broadcast_to(old(self).members@, id, left_msg(m.nick@))
                } else {
                    Seq::<(u64, Seq<u8>)>::empty()
                }
            }),
    {
        let ghost pre = self.members@;
        proof {
            lemma_member_index_char(pre, id);
        }
        let mi = self.find_member(id).unwrap();
        let out: Vec<Outgoing>;
        if self.members[mi].registered {
            let msg = left_msg_vec(self.members[mi].nick.as_slice());
            out = self.broadcast(id, msg.as_slice());
        } else {
            out = Vec::new();
            proof {
                assert(out_views(out@) =~= Seq::<(u64, Seq<u8>)>::empty());
            }
        }
        self.members.remove(mi);
        proof {
            assert forall|i: int, j: int|
                0 <= i < j < self.members@.len() implies self.members@[i].id
                != self.members@[j].id by {
                assert(self.members@[i] == if i < mi {
                    pre[i]
                } else {
                    pre[i + 1]
                });
                assert(self.members@[j] == if j < mi {
                    pre[j]
                } else {
                    pre[j + 1]
                });
            }
        }
        out
    }
}

/// Whether a raw line is a valid nickname.
fn is_valid_nick_bytes(b: &[u8]) -> (r: bool)
    ensures
        r == valid_nick(b@),
{
    if b.len() == 0 {
        return false;
    }
    let mut i: usize = 0;
    while i < b.len()
        invariant
            i <= b@.len(),
            b@.len() >= 1,
            forall|j: int| 0 <= j < i ==> is_alnum_byte(b@[j]),
        decreases b@.len() - i,
    {
        let c = b[i];
        if !((48 <= c && c <= 57) || (65 <= c && c <= 90) || (97 <= c && c <= 122)) {
            return false;
        }
        i += 1;
    }
    true
}

} // verus!
