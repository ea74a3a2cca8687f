//! The chat room: who is present, who receives each line, and the text of
//! the room's announcements.
use vstd::prelude::*;

use crate::text::{chars_of, push_char, push_str};

verus! {

/// Whether a character is alphabetic or numeric in the Unicode sense, as
/// `char::is_alphanumeric` decides it.
pub uninterp spec fn alphanumeric(c: char) -> bool;

/// `char::is_alphanumeric`. Its result is claimed to be `alphanumeric(c)`,
/// a function of the character alone; what that function is (the Unicode
/// Alphabetic and Numeric properties) is not stated here.
#[verifier::external_body]
fn char_is_alphanumeric(c: char) -> (b: bool)
    ensures
        b == alphanumeric(c),
{
    c.is_alphanumeric()
}

/// A user name is accepted when it has at least one character and all its
/// characters are alphanumeric.
pub open spec fn acceptable_username(name: Seq<char>) -> bool {
    &&& name.len() > 0
    &&& forall|i: int| 0 <= i < name.len() ==> alphanumeric(#[trigger] name[i])
}

/// Makes sure the username is at least one character long and consists of
/// alphanumeric characters only: returns false if the username is empty or
/// not alphanumeric.
pub fn valid_username(username: &String) -> (b: bool)
    ensures
        b == acceptable_username(username@),
{
    let cs = chars_of(username.as_str());
    if cs.len() == 0 {
        return false;
    }
    let mut i: usize = 0;
    while i < cs.len()
        invariant
            cs@ == username@,
            i <= cs@.len(),
            forall|k: int| 0 <= k < i ==> alphanumeric(#[trigger] cs@[k]),
        decreases cs.len() - i,
    {
        if !char_is_alphanumeric(cs[i]) {
            return false;
        }
        i = i + 1;
    }
    true
}

/// What the room knows of a connected user.
#[derive(Debug)]
pub struct UserDetails {
    pub username: String,
}

/// The users present in the room, in the order they joined, each under the
/// id of its connection.
pub struct Shared {
    peers: Vec<(u64, UserDetails)>,
}

/// The ids of a list of members.
pub open spec fn ids_of(s: Seq<(u64, Seq<char>)>) -> Seq<u64> {
    s.map_values(|e: (u64, Seq<char>)| e.0)
}

/// The members of `s` other than `sender`, in order.
pub open spec fn others(s: Seq<(u64, Seq<char>)>, sender: u64) -> Seq<(u64, Seq<char>)>
    decreases s.len(),
{
    if s.len() == 0 {
        s
    } else if s.last().0 == sender {
        others(s.drop_last(), sender)
    } else {
        others(s.drop_last(), sender).push(s.last())
    }
}

/// The members after `id` joined as `name`: a present id is renamed in
/// place, a new one is added at the end.
pub open spec fn with_member(s: Seq<(u64, Seq<char>)>, id: u64, name: Seq<char>) -> Seq<
    (u64, Seq<char>),
> {
    if exists|i: int| 0 <= i < s.len() && s[i].0 == id {
        let i = choose|i: int| 0 <= i < s.len() && s[i].0 == id;
        s.update(i, (id, name))
    } else {
        s.push((id, name))
    }
}

/// The members after `id` left.
pub open spec fn without_member(s: Seq<(u64, Seq<char>)>, id: u64) -> Seq<(u64, Seq<char>)> {
    others(s, id)
}

pub open spec fn ids_unique(s: Seq<(u64, Seq<char>)>) -> bool {
    forall|i: int, j: int| 0 <= i < j < s.len() ==> s[i].0 != s[j].0
}

impl View for Shared {
    type V = Seq<(u64, Seq<char>)>;

    closed spec fn view(&self) -> Seq<(u64, Seq<char>)> {
        self.peers@.map_values(|e: (u64, UserDetails)| (e.0, e.1.username@))
    }
}

proof fn lemma_others_unique(s: Seq<(u64, Seq<char>)>, sender: u64)
    requires
        ids_unique(s),
    ensures
        ids_unique(others(s, sender)),
        forall|k: int|
            0 <= k < others(s, sender).len() ==> #[trigger] others(s, sender)[k].0 != sender
                && s.contains(others(s, sender)[k]),
    decreases s.len(),
{
    if s.len() > 0 {
        let t = s.drop_last();
        assert(ids_unique(t));
        lemma_others_unique(t, sender);
        let o = others(t, sender);
        assert forall|k: int| 0 <= k < o.len() implies s.contains(#[trigger] o[k]) by {
            assert(o[k].0 != sender);
            assert(t.contains(o[k]));
            let i = choose|i: int| 0 <= i < t.len() && t[i] == o[k];
            assert(s[i] == t[i]);
        }
        if s.last().0 != sender {
            let r = o.push(s.last());
            assert forall|a: int, b: int| 0 <= a < b < r.len() implies r[a].0 != r[b].0 by {
                if b == o.len() {
                    assert(o[a].0 != sender);
                    assert(t.contains(o[a]));
                    let i = choose|i: int| 0 <= i < t.len() && t[i] == o[a];
                    assert(s[i] == t[i]);
                    assert(s[i].0 != s[s.len() - 1].0);
                } else {
                    assert(r[a] == o[a] && r[b] == o[b]);
                }
            }
            assert forall|k: int| 0 <= k < r.len() implies #[trigger] r[k].0 != sender
                && s.contains(r[k]) by {
                if k == o.len() {
                    assert(s[s.len() - 1] == r[k]);
                } else {
                    assert(r[k] == o[k]);
                }
            }
        }
    }
}

impl Shared {
    /// Every id is present once.
    pub closed spec fn wf(&self) -> bool {
        ids_unique(self@)
    }

    /// Creates a new, empty, instance of `Shared`.
    pub fn new() -> (s: Self)
        ensures
            s.wf(),
            s@ == Seq::<(u64, Seq<char>)>::empty(),
    {
        let s = Shared { peers: Vec::new() };
        assert(s@ =~= Seq::<(u64, Seq<char>)>::empty());
        s
    }

    /// Registers the connection `addr` under `username`.
    pub fn join(&mut self, addr: u64, username: String)
        requires
            old(self).wf(),
        ensures
            final(self).wf(),
            final(self)@ == with_member(old(self)@, addr, username@),
    {
        let ghost old_v = self@;
        let ghost name = username@;
        let mut i: usize = 0;
        while i < self.peers.len()
            invariant
                self@ == old_v,
                old_v == old(self)@,
                ids_unique(old_v),
                name == username@,
                i <= self.peers@.len(),
                forall|k: int| 0 <= k < i ==> self.peers@[k].0 != addr,
            decreases self.peers.len() - i,
        {
            if self.peers[i].0 == addr {
                self.peers.set(i, (addr, UserDetails { username }));
                proof {
                    assert(old_v[i as int].0 == addr);
                    assert(exists|j: int| 0 <= j < old_v.len() && old_v[j].0 == addr);
                    let j = choose|j: int| 0 <= j < old_v.len() && old_v[j].0 == addr;
                    if j < i {
                        assert(old_v[j].0 == old(self).peers@[j].0);
                        assert(false);
                    } else if j > i {
                        assert(old_v[i as int].0 != old_v[j].0);
                        assert(false);
                    }
                    assert(j == i);
                    assert(with_member(old_v, addr, name) == old_v.update(i as int, (addr, name)));
                    assert(self@ =~= old_v.update(i as int, (addr, name)));
                    assert forall|a: int, b: int| 0 <= a < b < self@.len() implies self@[a].0
                        != self@[b].0 by {
                        assert(self@[a].0 == old_v[a].0 && self@[b].0 == old_v[b].0);
                    }
                }
                return;
            }
            i = i + 1;
        }
        self.peers.push((addr, UserDetails { username }));
        proof {
            assert forall|k: int| 0 <= k < old_v.len() implies old_v[k].0 != addr by {
                assert(old_v[k].0 == old(self).peers@[k].0);
            }
            assert(self@ =~= old_v.push((addr, name)));
        }
    }

    /// Whether the connection `addr` is in the room.
    pub fn is_member(&self, addr: u64) -> (b: bool)
        ensures
            b == exists|i: int| 0 <= i < self@.len() && self@[i].0 == addr,
    {
        let mut i: usize = 0;
        while i < self.peers.len()
            invariant
                i <= self.peers@.len(),
                forall|k: int| 0 <= k < i ==> self@[k].0 != addr,
            decreases self.peers.len() - i,
        {
            if self.peers[i].0 == addr {
                assert(self@[i as int].0 == addr);
                return true;
            }
            i = i + 1;
        }
        false
    }

    /// Removes the connection `addr` from the room.
    pub fn leave(&mut self, addr: u64)
        requires
            old(self).wf(),
        ensures
            final(self).wf(),
            final(self)@ == without_member(old(self)@, addr),
    {
        let ghost old_v = self@;
        let mut kept: Vec<(u64, UserDetails)> = Vec::new();
        let n = self.peers.len();
        let mut i: usize = 0;
        while i < n
            invariant
                n == self.peers@.len(),
                old_v == self@,
                i <= n,
                kept@.map_values(|e: (u64, UserDetails)| (e.0, e.1.username@)) == others(
                    old_v.subrange(0, i as int),
                    addr,
                ),
            decreases n - i,
        {
            let ghost before = kept@.map_values(|e: (u64, UserDetails)| (e.0, e.1.username@));
            let id = self.peers[i].0;
            proof {
                assert(old_v.subrange(0, i + 1).drop_last() =~= old_v.subrange(0, i as int));
                assert(old_v.subrange(0, i + 1).last() == old_v[i as int]);
            }
            if id != addr {
                let name = self.peers[i].1.username.clone();
                kept.push((id, UserDetails { username: name }));
                proof {
                    assert(kept@.map_values(|e: (u64, UserDetails)| (e.0, e.1.username@))
                        =~= before.push(old_v[i as int]));
                }
            }
            i = i + 1;
        }
        self.peers = kept;
        proof {
            assert(old_v.subrange(0, n as int) =~= old_v);
            lemma_others_unique(old_v, addr);
        }
    }
}

impl Default for Shared {
    fn default() -> (s: Self)
        ensures
            s.wf(),
            s@ == Seq::<(u64, Seq<char>)>::empty(),
    {
        Self::new()
    }
}

/// The lines a broadcast sends: `message` to every member other than the
/// sender, in order.
pub open spec fn deliveries(members: Seq<(u64, Seq<char>)>, sender: u64, message: Seq<char>) -> Seq<
    (u64, Seq<char>),
> {
    others(members, sender).map_values(|e: (u64, Seq<char>)| (e.0, message))
}

pub open spec fn delivery_views(v: Seq<(u64, String)>) -> Seq<(u64, Seq<char>)> {
    v.map_values(|e: (u64, String)| (e.0, e.1@))
}

pub open spec fn string_views(v: Seq<String>) -> Seq<Seq<char>> {
    v.map_values(|e: String| e@)
}

impl Shared {
    /// The `LinesCodec` lines to send for a message from `sender`: one to
    /// every peer except the sender.
    pub fn broadcast(&self, sender: u64, message: &str) -> (d: Vec<(u64, String)>)
        ensures
            delivery_views(d@) == deliveries(self@, sender, message@),
    {
        let mut d: Vec<(u64, String)> = Vec::new();
        let n = self.peers.len();
        let mut i: usize = 0;
        while i < n
            invariant
                n == self.peers@.len(),
                i <= n,
                delivery_views(d@) == deliveries(self@.subrange(0, i as int), sender, message@),
            decreases n - i,
        {
            let ghost before = delivery_views(d@);
            proof {
                assert(self@.subrange(0, i + 1).drop_last() =~= self@.subrange(0, i as int));
                assert(self@.subrange(0, i + 1).last() == self@[i as int]);
            }
            if self.peers[i].0 != sender {
                let mut text = String::new();
                push_str(&mut text, message);
                d.push((self.peers[i].0, text));
                proof {
                    assert(delivery_views(d@) =~= before.push((self@[i as int].0, message@)));
                    assert(deliveries(self@.subrange(0, i + 1), sender, message@) =~= deliveries(
                        self@.subrange(0, i as int),
                        sender,
                        message@,
                    ).push((self@[i as int].0, message@)));
                }
            } else {
                proof {
                    assert(deliveries(self@.subrange(0, i + 1), sender, message@) =~= deliveries(
                        self@.subrange(0, i as int),
                        sender,
                        message@,
                    ));
                }
            }
            i = i + 1;
        }
        proof {
            assert(self@.subrange(0, n as int) =~= self@);
        }
        d
    }

    /// The line to send to the sender itself, who must be present.
    pub fn send_to_sender(&self, sender: u64, message: &str) -> (d: (u64, String))
        requires
            exists|i: int| 0 <= i < self@.len() && self@[i].0 == sender,
        ensures
            d.0 == sender,
            d.1@ == message@,
    {
        let mut text = String::new();
        push_str(&mut text, message);
        (sender, text)
    }

    /// The names of everyone present except `sender`, in the order they
    /// joined.
    pub fn get_everyone(&self, sender: u64) -> (everyone: Vec<String>)
        ensures
            string_views(everyone@) == others(self@, sender).map_values(
                |e: (u64, Seq<char>)| e.1,
            ),
    {
        let mut everyone: Vec<String> = Vec::new();
        let n = self.peers.len();
        let mut i: usize = 0;
        while i < n
            invariant
                n == self.peers@.len(),
                i <= n,
                string_views(everyone@) == others(self@.subrange(0, i as int), sender).map_values(
                    |e: (u64, Seq<char>)| e.1,
                ),
            decreases n - i,
        {
            let ghost before = string_views(everyone@);
            proof {
                assert(self@.subrange(0, i + 1).drop_last() =~= self@.subrange(0, i as int));
                assert(self@.subrange(0, i + 1).last() == self@[i as int]);
            }
            if self.peers[i].0 != sender {
                everyone.push(self.peers[i].1.username.clone());
                proof {
                    assert(string_views(everyone@) =~= before.push(self@[i as int].1));
                    assert(others(self@.subrange(0, i + 1), sender).map_values(
                        |e: (u64, Seq<char>)| e.1,
                    ) =~= others(self@.subrange(0, i as int), sender).map_values(
                        |e: (u64, Seq<char>)| e.1,
                    ).push(self@[i as int].1));
                }
            }
            i = i + 1;
        }
        proof {
            assert(self@.subrange(0, n as int) =~= self@);
        }
        everyone
    }
}

// ---------------- the room's announcements ----------------

/// `* NAME has entered the room.`
pub fn joined_message(username: &str) -> (m: String)
    ensures
        m@ == "* "@ + username@ + " has entered the room."@,
{
    let mut m = String::new();
    push_str(&mut m, "* ");
    push_str(&mut m, username);
    push_str(&mut m, " has entered the room.");
    m
}

/// `* NAME has left the room`
pub fn left_message(username: &str) -> (m: String)
    ensures
        m@ == "* "@ + username@ + " has left the room"@,
{
    let mut m = String::new();
    push_str(&mut m, "* ");
    push_str(&mut m, username);
    push_str(&mut m, " has left the room");
    m
}

/// `[NAME] MESSAGE`
pub fn chat_message(username: &str, message: &str) -> (m: String)
    ensures
        m@ == "["@ + username@ + "] "@ + message@,
{
    let mut m = String::new();
    push_str(&mut m, "[");
    push_str(&mut m, username);
    push_str(&mut m, "] ");
    push_str(&mut m, message);
    m
}

/// How `char::escape_debug` writes a character: the character itself, or an
/// escape sequence for it.
pub uninterp spec fn debug_escape(c: char) -> Seq<char>;

/// `char::escape_debug`, collected into a string. Its result is claimed to
/// be `debug_escape(c)`, a function of the character alone; which characters
/// it escapes, and how (quotes, backslashes, control, non-printable and
/// grapheme-extending characters), is not stated here.
#[verifier::external_body]
fn char_escape_debug(c: char) -> (r: String)
    ensures
        r@ == debug_escape(c),
{
    c.escape_debug().to_string()
}

/// How a character of a name is written inside a double-quoted string: as
/// `char::escape_debug` writes it, except the single quote, which a string
/// leaves as it is.
pub open spec fn debug_char(c: char) -> Seq<char> {
    if c == '\'' {
        seq![c]
    } else {
        debug_escape(c)
    }
}

/// The body of a name written as a double-quoted string: each character
/// written by `debug_char`.
pub open spec fn debug_body(n: Seq<char>) -> Seq<char>
    decreases n.len(),
{
    if n.len() == 0 {
        Seq::empty()
    } else {
        debug_body(n.drop_last()) + debug_char(n.last())
    }
}

/// A string body between double quotes.
pub open spec fn quoted(body: Seq<char>) -> Seq<char> {
    seq!['"'] + body + seq!['"']
}

/// The quoted bodies separated by `, `.
pub open spec fn list_body(bodies: Seq<Seq<char>>) -> Seq<char>
    decreases bodies.len(),
{
    if bodies.len() == 0 {
        Seq::empty()
    } else if bodies.len() == 1 {
        quoted(bodies[0])
    } else {
        list_body(bodies.drop_last()) + seq![',', ' '] + quoted(bodies.last())
    }
}

/// The quoted bodies in list form, `["alice", "bob"]`.
pub open spec fn name_list(bodies: Seq<Seq<char>>) -> Seq<char> {
    seq!['['] + list_body(bodies) + seq![']']
}

/// The names written as the bodies of double-quoted strings.
pub open spec fn debug_bodies(names: Seq<Seq<char>>) -> Seq<Seq<char>> {
    names.map_values(|n: Seq<char>| debug_body(n))
}

/// Writes a name as the body of a double-quoted string, as `debug_body`
/// states.
pub fn debug_name(name: &str) -> (r: String)
    ensures
        r@ == debug_body(name@),
{
    let cs = chars_of(name);
    let mut r = String::new();
    let mut i: usize = 0;
    while i < cs.len()
        invariant
            cs@ == name@,
            i <= cs@.len(),
            r@ == debug_body(name@.subrange(0, i as int)),
        decreases cs.len() - i,
    {
        let c = cs[i];
        proof {
            assert(name@.subrange(0, i + 1).drop_last() =~= name@.subrange(0, i as int));
        }
        if c == '\'' {
            push_char(&mut r, c);
        } else {
            let e = char_escape_debug(c);
            push_str(&mut r, e.as_str());
        }
        i = i + 1;
        assert(r@ =~= debug_body(name@.subrange(0, i as int)));
    }
    assert(name@.subrange(0, cs@.len() as int) =~= name@);
    r
}

/// `* The room contains: ["alice", "bob"]`, from the names already written
/// as string bodies: each is put between double quotes, and they are
/// separated by `, `.
pub fn room_listing(bodies: &Vec<String>) -> (m: String)
    ensures
        m@ == "* The room contains: "@ + name_list(string_views(bodies@)),
{
    let mut m = String::new();
    push_str(&mut m, "* The room contains: ");
    push_char(&mut m, '[');
    let ghost start = m@;
    let mut i: usize = 0;
    while i < bodies.len()
        invariant
            i <= bodies@.len(),
            m@ == start + list_body(string_views(bodies@).subrange(0, i as int)),
        decreases bodies.len() - i,
    {
        proof {
            assert(string_views(bodies@).subrange(0, i + 1).drop_last() =~= string_views(
                bodies@,
            ).subrange(0, i as int));
        }
        if i > 0 {
            push_char(&mut m, ',');
            push_char(&mut m, ' ');
        }
        push_char(&mut m, '"');
        push_str(&mut m, bodies[i].as_str());
        push_char(&mut m, '"');
        i = i + 1;
        proof {
            assert(m@ =~= start + list_body(string_views(bodies@).subrange(0, i as int)));
        }
    }
    push_char(&mut m, ']');
    proof {
        assert(string_views(bodies@).subrange(0, bodies@.len() as int) =~= string_views(bodies@));
        assert(m@ =~= "* The room contains: "@ + name_list(string_views(bodies@)));
    }
    m
}

/// `* The room contains: ["alice", "bob"]`: the names of the others present,
/// in list form, each written as a double-quoted string with the escapes of
/// `char::escape_debug` (a single quote is left as it is).
pub fn room_message(names: &Vec<String>) -> (m: String)
    ensures
        m@ == "* The room contains: "@ + name_list(debug_bodies(string_views(names@))),
{
    let mut bodies: Vec<String> = Vec::new();
    let mut i: usize = 0;
    while i < names.len()
        invariant
            i <= names@.len(),
            string_views(bodies@) == debug_bodies(string_views(names@)).subrange(0, i as int),
        decreases names.len() - i,
    {
        let ghost before = string_views(bodies@);
        let ghost all = debug_bodies(string_views(names@));
        let b = debug_name(names[i].as_str());
        proof {
            assert(string_views(names@)[i as int] == names@[i as int]@);
            assert(all[i as int] == b@);
        }
        bodies.push(b);
        proof {
            assert(string_views(bodies@) =~= before.push(b@));
            assert(all.subrange(0, i + 1) =~= all.subrange(0, i as int).push(all[i as int]));
        }
        i = i + 1;
    }
    assert(debug_bodies(string_views(names@)).subrange(0, names@.len() as int) =~= debug_bodies(
        string_views(names@),
    ));
    room_listing(&bodies)
}

proof fn lemma_others_complete(s: Seq<(u64, Seq<char>)>, sender: u64, i: int)
    requires
        0 <= i < s.len(),
        s[i].0 != sender,
    ensures
        others(s, sender).contains(s[i]),
    decreases s.len(),
{
    let t = s.drop_last();
    if i == s.len() - 1 {
        assert(others(s, sender).last() == s[i]);
    } else {
        lemma_others_complete(t, sender, i);
        assert(t[i] == s[i]);
        let o = others(t, sender);
        let k = choose|k: int| 0 <= k < o.len() && o[k] == s[i];
        if s.last().0 == sender {
        } else {
            assert(others(s, sender)[k] == s[i]);
        }
    }
}

/// Law: a broadcast sends the message to every member other than the
/// sender, once each, and never to the sender.
pub proof fn law_broadcast_reaches_others(
    members: Seq<(u64, Seq<char>)>,
    sender: u64,
    message: Seq<char>,
)
    requires
        ids_unique(members),
    ensures
        ({
            let d = deliveries(members, sender, message);
            &&& forall|k: int| 0 <= k < d.len() ==> #[trigger] d[k].0 != sender && d[k].1 == message
            &&& forall|a: int, b: int| 0 <= a < b < d.len() ==> d[a].0 != d[b].0
            &&& forall|i: int|
                0 <= i < members.len() && members[i].0 != sender ==> exists|k: int|
                    0 <= k < d.len() && #[trigger] d[k].0 == #[trigger] members[i].0
        }),
{
    let o = others(members, sender);
    let d = deliveries(members, sender, message);
    lemma_others_unique(members, sender);
    assert forall|k: int| 0 <= k < d.len() implies #[trigger] d[k].0 != sender && d[k].1
        == message by {
        assert(d[k] == (o[k].0, message));
        assert(o[k].0 != sender);
    }
    assert forall|a: int, b: int| 0 <= a < b < d.len() implies d[a].0 != d[b].0 by {
        assert(d[a].0 == o[a].0 && d[b].0 == o[b].0);
    }
    assert forall|i: int| 0 <= i < members.len() && members[i].0 != sender implies exists|k: int|
        0 <= k < d.len() && #[trigger] d[k].0 == #[trigger] members[i].0 by {
        lemma_others_complete(members, sender, i);
        let k = choose|k: int| 0 <= k < o.len() && o[k] == members[i];
        assert(d[k].0 == o[k].0);
    }
}

} // verus!
