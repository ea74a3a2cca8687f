//! The key/value database answered over datagrams: `key=value` stores,
//! `key` retrieves, `version` reports the version.
use vstd::prelude::*;

use crate::assoc::{assoc_map, keys_unique, lemma_assoc_empty, lemma_assoc_index, lemma_assoc_push, lemma_assoc_update};
use crate::text::{chars_of, push_char, push_str, str_equal, string_of};

verus! {

/// All possible request types.
#[derive(Debug, Clone, Copy, PartialEq, Eq)]
pub enum RequestType {
    Insert,
    Retrieve,
    Version,
}

/// The position of the first `=`.
pub open spec fn first_equals(s: Seq<char>) -> Option<int>
    decreases s.len(),
{
    if s.len() == 0 {
        None
    } else if s[0] == '=' {
        Some(0)
    } else {
        match first_equals(s.subrange(1, s.len() as int)) {
            Some(k) => Some(k + 1),
            None => None,
        }
    }
}

proof fn lemma_first_equals(s: Seq<char>)
    ensures
        first_equals(s) matches Some(k) ==> 0 <= k < s.len() && s[k] == '=' && forall|i: int|
            0 <= i < k ==> s[i] != '=',
        first_equals(s) is None <==> !s.contains('='),
    decreases s.len(),
{
    if s.len() > 0 {
        let t = s.subrange(1, s.len() as int);
        lemma_first_equals(t);
        assert forall|i: int| 1 <= i < s.len() implies s[i] == t[i - 1] by {}
        if s[0] != '=' {
            if t.contains('=') {
                let j = choose|j: int| 0 <= j < t.len() && t[j] == '=';
                assert(s[j + 1] == '=');
            }
            if s.contains('=') {
                let j = choose|j: int| 0 <= j < s.len() && s[j] == '=';
                assert(t[j - 1] == '=');
            }
        }
    }
}

/// `split_once('=')`: the text before and after the first `=`.
pub open spec fn split_at_equals(s: Seq<char>) -> Option<(Seq<char>, Seq<char>)> {
    match first_equals(s) {
        Some(k) => Some((s.subrange(0, k), s.subrange(k + 1, s.len() as int))),
        None => None,
    }
}

pub open spec fn version_word() -> Seq<char> {
    seq!['v', 'e', 'r', 's', 'i', 'o', 'n']
}

pub open spec fn starts_with_version(s: Seq<char>) -> bool {
    s.len() >= 7 && s.subrange(0, 7) == version_word()
}

/// The kind of a request: it starts with `version`, else it holds an `=`,
/// else it is a retrieval.
pub open spec fn request_kind(s: Seq<char>) -> RequestType {
    if starts_with_version(s) {
        RequestType::Version
    } else if s.contains('=') {
        RequestType::Insert
    } else {
        RequestType::Retrieve
    }
}

fn find_equals(cs: &Vec<char>) -> (r: Option<usize>)
    ensures
        match r {
            Some(k) => first_equals(cs@) == Some(k as int),
            None => first_equals(cs@) is None,
        },
{
    proof {
        lemma_first_equals(cs@);
    }
    let mut i: usize = 0;
    while i < cs.len()
        invariant
            i <= cs@.len(),
            forall|k: int| 0 <= k < i ==> cs@[k] != '=',
            first_equals(cs@) matches Some(k) ==> 0 <= k < cs@.len() && cs@[k] == '=' && forall|
                j: int,
            | 0 <= j < k ==> cs@[j] != '=',
            first_equals(cs@) is None <==> !cs@.contains('='),
        decreases cs.len() - i,
    {
        if cs[i] == '=' {
            proof {
                if let Some(k) = first_equals(cs@) {
                    if k < i {
                        assert(cs@[k] != '=');
                    }
                    if k > i {
                        assert(cs@[i as int] != '=');
                    }
                } else {
                    assert(cs@.contains('='));
                }
            }
            return Some(i);
        }
        i = i + 1;
    }
    proof {
        if let Some(k) = first_equals(cs@) {
            assert(cs@[k] != '=');
        }
    }
    None
}

/// The key and value of an insert request: the text before and after its
/// first `=`; `None` if there is no `=`.
pub fn get_kv_pair(msg: &str) -> (r: Option<(String, String)>)
    ensures
        match r {
            Some((k, v)) => split_at_equals(msg@) == Some((k@, v@)),
            None => split_at_equals(msg@) is None,
        },
{
    let cs = chars_of(msg);
    proof {
        lemma_first_equals(cs@);
    }
    match find_equals(&cs) {
        Some(k) => {
            let key = string_of(cs.as_slice(), 0, k);
            let value = string_of(cs.as_slice(), k + 1, cs.len());
            Some((key, value))
        },
        None => None,
    }
}

/// Checks the message for `version` at its start, or an `=`, and returns
/// the corresponding kind of request.
pub fn parse_request(msg: &str) -> (r: RequestType)
    ensures
        r == request_kind(msg@),
{
    let cs = chars_of(msg);
    let v = chars_of("version");
    proof {
        reveal_strlit("version");
        assert(v@ =~= version_word());
    }
    let mut starts = false;
    if cs.len() >= 7 {
        let mut same = true;
        let mut i: usize = 0;
        while i < 7
            invariant
                v@ == version_word(),
                cs@.len() >= 7,
                i <= 7,
                same <==> forall|k: int| 0 <= k < i ==> cs@[k] == version_word()[k],
            decreases 7 - i,
        {
            if cs[i] != v[i] {
                same = false;
            }
            i = i + 1;
        }
        starts = same;
        proof {
            if !same {
                let k = choose|k: int| 0 <= k < 7 && cs@[k] != version_word()[k];
                assert(cs@.subrange(0, 7)[k] != version_word()[k]);
            }
        }
    }
    if starts {
        proof {
            assert(cs@.subrange(0, 7) =~= version_word());
        }
        return RequestType::Version;
    }
    proof {
        lemma_first_equals(cs@);
    }
    match find_equals(&cs) {
        Some(_) => RequestType::Insert,
        None => RequestType::Retrieve,
    }
}

/// The stored pairs, each key once.
pub struct Store {
    entries: Vec<(String, String)>,
}

impl View for Store {
    type V = Map<Seq<char>, Seq<char>>;

    closed spec fn view(&self) -> Map<Seq<char>, Seq<char>> {
        assoc_map(self.entry_seq())
    }
}

/// The reply to the version request.
pub open spec fn version_reply() -> Seq<char> {
    "version=budget DB 1.0"@
}

/// What the store answers to `msg`, and what it holds afterwards.
pub open spec fn answer(db: Map<Seq<char>, Seq<char>>, msg: Seq<char>) -> (
    Option<Seq<char>>,
    Map<Seq<char>, Seq<char>>,
) {
    match request_kind(msg) {
        RequestType::Version => (Some(version_reply()), db),
        RequestType::Insert => match split_at_equals(msg) {
            Some((k, v)) => (None, db.insert(k, v)),
            None => (None, db),
        },
        RequestType::Retrieve => if db.contains_key(msg) {
            (Some(msg + seq!['='] + db[msg]), db)
        } else {
            (None, db)
        },
    }
}

impl Store {
    pub closed spec fn entry_seq(&self) -> Seq<(Seq<char>, Seq<char>)> {
        self.entries@.map_values(|e: (String, String)| (e.0@, e.1@))
    }

    /// Each key is stored once, and no stored key starts with `version`.
    pub closed spec fn wf(&self) -> bool {
        &&& keys_unique(self.entry_seq())
        &&& forall|k: Seq<char>| #[trigger] self@.contains_key(k) ==> !starts_with_version(k)
    }

    pub fn new() -> (s: Self)
        ensures
            s.wf(),
            s@ == Map::<Seq<char>, Seq<char>>::empty(),
    {
        let s = Store { entries: Vec::new() };
        proof {
            lemma_assoc_empty(s.entry_seq());
        }
        s
    }

    fn find(&self, key: &str) -> (r: Option<usize>)
        ensures
            match r {
                Some(i) => i < self.entries@.len() && self.entry_seq()[i as int].0 == key@,
                None => forall|i: int| 0 <= i < self.entry_seq().len() ==> self.entry_seq()[i].0 != key@,
            },
    {
        let mut i: usize = 0;
        while i < self.entries.len()
            invariant
                i <= self.entries@.len(),
                forall|k: int| 0 <= k < i ==> self.entry_seq()[k].0 != key@,
            decreases self.entries.len() - i,
        {
            if str_equal(self.entries[i].0.as_str(), key) {
                return Some(i);
            }
            i = i + 1;
        }
        None
    }

    /// Answers one request. A store (`key=value`) answers nothing; a
    /// retrieval of a stored key answers `key=value`, of another key nothing;
    /// `version` answers `version=budget DB 1.0`.
    pub fn handle_request(&mut self, msg: &str) -> (r: Option<String>)
        requires
            old(self).wf(),
        ensures
            final(self).wf(),
            (match r {
                Some(s) => Some(s@),
                None => None,
            }, final(self)@) == answer(old(self)@, msg@),
    {
        match parse_request(msg) {
            RequestType::Insert => {
                if let Some((k, v)) = get_kv_pair(msg) {
                    proof {
                        lemma_first_equals(msg@);
                        assert(!starts_with_version(k@)) by {
                            if starts_with_version(k@) {
                                assert(msg@.subrange(0, 7) =~= k@.subrange(0, 7));
                            }
                        }
                    }
                    self.insert(k, v);
                }
                None
            },
            RequestType::Retrieve => {
                match self.find(msg) {
                    Some(i) => {
                        proof {
                            lemma_assoc_index(self.entry_seq(), i as int);
                        }
                        let mut reply = String::new();
                        push_str(&mut reply, msg);
                        push_char(&mut reply, '=');
                        push_str(&mut reply, self.entries[i].1.as_str());
                        Some(reply)
                    },
                    None => None,
                }
            },
            RequestType::Version => {
                let version = "version=budget DB 1.0";
                let mut reply = String::new();
                push_str(&mut reply, version);
                Some(reply)
            },
        }
    }

    fn insert(&mut self, key: String, value: String)
        requires
            old(self).wf(),
            !starts_with_version(key@),
        ensures
            final(self).wf(),
            final(self)@ == old(self)@.insert(key@, value@),
    {
        let ghost old_seq = self.entry_seq();
        let ghost kv = key@;
        let ghost vv = value@;
        match self.find(key.as_str()) {
            Some(i) => {
                self.entries.set(i, (key, value));
                proof {
                    assert(self.entry_seq() =~= old_seq.update(i as int, (kv, vv)));
                    lemma_assoc_update(old_seq, i as int, vv);
                }
            },
            None => {
                self.entries.push((key, value));
                proof {
                    assert(self.entry_seq() =~= old_seq.push((kv, vv)));
                    lemma_assoc_push(old_seq, kv, vv);
                }
            },
        }
        proof {
            assert forall|k: Seq<char>| #[trigger] self@.contains_key(k) implies !starts_with_version(k) by {
                if k != kv {
                    assert(old(self)@.contains_key(k));
                }
            }
        }
    }
}

/// Law: a value stored under a key is what a later retrieval of that key
/// answers, as `key=value`.
pub proof fn law_retrieve_after_insert(
    db: Map<Seq<char>, Seq<char>>,
    key: Seq<char>,
    value: Seq<char>,
)
    requires
        !starts_with_version(key),
        !key.contains('='),
    ensures
        ({
            let stored = answer(db, key + seq!['='] + value).1;
            answer(stored, key) == (Some(key + seq!['='] + value), stored)
        }),
{
    let msg = key + seq!['='] + value;
    lemma_first_equals(msg);
    assert(msg[key.len() as int] == '=');
    assert(msg.contains('='));
    assert(!starts_with_version(msg)) by {
        if starts_with_version(msg) {
            if key.len() >= 7 {
                assert(msg.subrange(0, 7) =~= key.subrange(0, 7));
            } else {
                assert(msg.subrange(0, 7)[key.len() as int] == '=');
            }
        }
    }
    let k = first_equals(msg)->0;
    if k < key.len() {
        assert(msg[k] == key[k]);
    }
    assert(msg.subrange(0, k) =~= key);
    assert(msg.subrange(k + 1, msg.len() as int) =~= value);
}

/// Law: a retrieval (a request without `=` that is not the version request)
/// never changes the store; it is answered, as `key=value`, exactly when the
/// key is stored.
pub proof fn law_retrieve_keeps_store(db: Map<Seq<char>, Seq<char>>, msg: Seq<char>)
    requires
        !starts_with_version(msg),
        !msg.contains('='),
    ensures
        answer(db, msg).1 == db,
        answer(db, msg).0 is Some <==> db.contains_key(msg),
        db.contains_key(msg) ==> answer(db, msg).0 == Some(msg + seq!['='] + db[msg]),
{
}

/// Law: a key that no request has stored is never answered: from an empty
/// store, after any retrievals of keys, the store is still empty and no
/// retrieval gets an answer.
pub proof fn law_unknown_key_silent(msg: Seq<char>)
    requires
        !starts_with_version(msg),
        !msg.contains('='),
    ensures
        answer(Map::empty(), msg) == (None::<Seq<char>>, Map::<Seq<char>, Seq<char>>::empty()),
        answer(answer(Map::empty(), msg).1, msg) == (None::<Seq<char>>, Map::<Seq<char>, Seq<char>>::empty()),
{
    law_retrieve_keeps_store(Map::empty(), msg);
}

/// Law: the version request is always answered with the version, and
/// leaves the store as it was.
pub proof fn law_version_fixed(db: Map<Seq<char>, Seq<char>>, msg: Seq<char>)
    requires
        starts_with_version(msg),
    ensures
        answer(db, msg) == (Some(version_reply()), db),
{
}

} // verus!
