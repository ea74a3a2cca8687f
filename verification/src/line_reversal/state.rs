//! The session table of the line-reversal server: one session record per
//! client.
use vstd::prelude::*;

use crate::assoc::{assoc_map, keys_unique, lemma_assoc_empty, lemma_assoc_index, lemma_assoc_push, lemma_assoc_update};
use crate::line_reversal::types::{Pos, Session, SessionPosDataStruct, SessionView};

verus! {

/// The sessions, keyed by client ids chosen by the caller (one per peer
/// address).
pub struct Db {
    sessions: Vec<(u64, SessionPosDataStruct)>,
}

impl Db {
    pub closed spec fn session_seq(&self) -> Seq<(u64, SessionView)> {
        self.sessions@.map_values(|e: (u64, SessionPosDataStruct)| (e.0, e.1@))
    }

    /// Each client has at most one record.
    pub closed spec fn wf(&self) -> bool {
        keys_unique(self.session_seq())
    }
}

impl View for Db {
    type V = Map<u64, SessionView>;

    closed spec fn view(&self) -> Map<u64, SessionView> {
        assoc_map(self.session_seq())
    }
}

fn find_client(v: &Vec<(u64, SessionPosDataStruct)>, client: u64) -> (r: Option<usize>)
    ensures
        match r {
            Some(i) => i < v@.len() && v@[i as int].0 == client,
            None => forall|i: int| 0 <= i < v@.len() ==> v@[i].0 != client,
        },
{
    let mut i: usize = 0;
    while i < v.len()
        invariant
            i <= v@.len(),
            forall|k: int| 0 <= k < i ==> v@[k].0 != client,
        decreases v.len() - i,
    {
        if v[i].0 == client {
            return Some(i);
        }
        i = i + 1;
    }
    None
}

impl Db {
    pub fn new() -> (db: Db)
        ensures
            db.wf(),
            db@ == Map::<u64, SessionView>::empty(),
    {
        let db = Db { sessions: Vec::new() };
        proof {
            lemma_assoc_empty(db.session_seq());
        }
        db
    }

    /// Stores `session_pos_data` as the record of client `addr`, replacing
    /// the one it had.
    pub fn add_session(&mut self, addr: u64, session_pos_data: SessionPosDataStruct)
        requires
            old(self).wf(),
        ensures
            final(self).wf(),
            final(self)@ == old(self)@.insert(addr, session_pos_data@),
    {
        let ghost old_seq = self.session_seq();
        let ghost rec = session_pos_data@;
        match find_client(&self.sessions, addr) {
            Some(i) => {
                self.sessions.set(i, (addr, session_pos_data));
                proof {
                    assert(self.session_seq() =~= old_seq.update(i as int, (addr, rec)));
                    lemma_assoc_update(old_seq, i as int, rec);
                }
            },
            None => {
                self.sessions.push((addr, session_pos_data));
                proof {
                    assert(self.session_seq() =~= old_seq.push((addr, rec)));
                    lemma_assoc_push(old_seq, addr, rec);
                }
            },
        }
    }

    /// The session number of client `addr`, if it has a session.
    pub fn get_session(&self, addr: u64) -> (r: Option<Session>)
        requires
            self.wf(),
        ensures
            match r {
                Some(s) => self@.contains_key(addr) && s == self@[addr].session,
                None => !self@.contains_key(addr),
            },
    {
        match find_client(&self.sessions, addr) {
            Some(i) => {
                proof {
                    lemma_assoc_index(self.session_seq(), i as int);
                }
                Some(self.sessions[i].1.session)
            },
            None => {
                proof {
                    assert forall|j: int| 0 <= j < self.session_seq().len() implies self.session_seq()[j].0
                        != addr by {
                        assert(self.session_seq()[j].0 == self.sessions@[j].0);
                    }
                }
                None
            },
        }
    }

    /// A copy of the record of client `addr`, if it has a session.
    pub fn get_record(&self, addr: u64) -> (r: Option<SessionPosDataStruct>)
        requires
            self.wf(),
        ensures
            match r {
                Some(rec) => self@.contains_key(addr) && rec@ == self@[addr],
                None => !self@.contains_key(addr),
            },
    {
        match find_client(&self.sessions, addr) {
            Some(i) => {
                proof {
                    lemma_assoc_index(self.session_seq(), i as int);
                }
                Some(self.sessions[i].1.clone())
            },
            None => {
                proof {
                    assert forall|j: int| 0 <= j < self.session_seq().len() implies self.session_seq()[j].0
                        != addr by {
                        assert(self.session_seq()[j].0 == self.sessions@[j].0);
                    }
                }
                None
            },
        }
    }

    /// The position recorded for client `addr`, if it has a session.
    pub fn get_pos(&self, addr: u64) -> (r: Option<Pos>)
        requires
            self.wf(),
        ensures
            match r {
                Some(p) => self@.contains_key(addr) && p == self@[addr].pos,
                None => !self@.contains_key(addr),
            },
    {
        match find_client(&self.sessions, addr) {
            Some(i) => {
                proof {
                    lemma_assoc_index(self.session_seq(), i as int);
                }
                Some(self.sessions[i].1.pos)
            },
            None => {
                proof {
                    assert forall|j: int| 0 <= j < self.session_seq().len() implies self.session_seq()[j].0
                        != addr by {
                        assert(self.session_seq()[j].0 == self.sessions@[j].0);
                    }
                }
                None
            },
        }
    }
}

impl Default for Db {
    fn default() -> (db: Self)
        ensures
            db.wf(),
            db@ == Map::<u64, SessionView>::empty(),
    {
        Self::new()
    }
}

} // verus!
