//! Domain types of the line-reversal protocol.
use vstd::prelude::*;

verus! {

pub type Session = u32;

pub type Pos = u32;

pub type Length = u32;

/// A session's position and data.
#[derive(Debug)]
pub struct SessionPosDataStruct {
    pub session: Session,
    pub pos: Pos,
    pub data: String,
}

/// The mathematical value of a session record.
pub struct SessionView {
    pub session: u32,
    pub pos: u32,
    pub data: Seq<char>,
}

impl View for SessionPosDataStruct {
    type V = SessionView;

    open spec fn view(&self) -> SessionView {
        SessionView { session: self.session, pos: self.pos, data: self.data@ }
    }
}

impl SessionPosDataStruct {
    /// Creates a new [`SessionPosDataStruct`].
    pub fn new(session: Session, pos: Pos, data: String) -> (r: Self)
        ensures
            r.session == session,
            r.pos == pos,
            r.data == data,
    {
        Self { session, pos, data }
    }
}

impl Default for SessionPosDataStruct {
    fn default() -> (r: Self)
        ensures
            r@ == (SessionView { session: 0, pos: 0, data: Seq::empty() }),
    {
        Self { session: 0, pos: 0, data: String::new() }
    }
}

impl Clone for SessionPosDataStruct {
    fn clone(&self) -> (r: Self)
        ensures
            r@ == self@,
    {
        Self { session: self.session, pos: self.pos, data: self.data.clone() }
    }
}

} // verus!
