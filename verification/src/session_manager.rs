use vstd::prelude::*;

use crate::config::SessionConfig;
use crate::errors::SchedulerError;

verus! {

/// Stores per-query configurations, indexed by the session id it hands out
/// at creation. Sessions are never dropped, so an id stays valid for the
/// manager's whole life.
pub struct SessionManager {
    pub sessions: Vec<SessionConfig>,
}

impl View for SessionManager {
    type V = Seq<Seq<(Seq<char>, Seq<char>)>>;

    open spec fn view(&self) -> Seq<Seq<(Seq<char>, Seq<char>)>> {
        Seq::new(self.sessions@.len(), |i: int| self.sessions@[i]@)
    }
}

pub open spec fn has_session(m: Seq<Seq<(Seq<char>, Seq<char>)>>, id: int) -> bool {
    0 <= id < m.len()
}

impl SessionManager {
    pub fn new() -> (r: Self)
        ensures
            r@.len() == 0,
    {
        let r = SessionManager { sessions: Vec::new() };
        proof {
            assert(r@ =~= Seq::<Seq<(Seq<char>, Seq<char>)>>::empty());
        }
        r
    }

    /// Registers a configuration and returns the fresh session id bound to
    /// it.
    pub fn create_session(&mut self, config: SessionConfig) -> (r: u64)
        requires
            old(self)@.len() < u64::MAX as int,
        ensures
            r as int == old(self)@.len(),
            final(self)@ == old(self)@.push(config@),
    {
        let id = self.sessions.len() as u64;
        self.sessions.push(config);
        proof {
            assert(final(self)@ =~= old(self)@.push(final(self).sessions@.last()@));
        }
        id
    }

    /// Replaces the configuration of an existing session: queries submitted
    /// afterwards see the new settings.
    pub fn update_session(&mut self, session_id: u64, config: SessionConfig) -> (r: Result<
        (),
        SchedulerError,
    >)
        ensures
            match r {
                Ok(()) => has_session(old(self)@, session_id as int) && final(self)@ == old(
                    self,
                )@.update(session_id as int, config@),
                Err(e) => e == SchedulerError::SessionUnknown && !has_session(
                    old(self)@,
                    session_id as int,
                ) && final(self)@ == old(self)@,
            },
    {
        if session_id < self.sessions.len() as u64 {
            let idx = session_id as usize;
            self.sessions[idx] = config;
            proof {
                let updated = final(self).sessions@[session_id as int];
                assert(final(self)@ =~= old(self)@.update(session_id as int, updated@));
            }
            Ok(())
        } else {
            Err(SchedulerError::SessionUnknown)
        }
    }

    /// Looks a session's configuration up by id.
    pub fn get_session(&self, session_id: u64) -> (r: Result<&SessionConfig, SchedulerError>)
        ensures
            match r {
                Ok(c) => has_session(self@, session_id as int) && c@ == self@[session_id as int],
                Err(e) => e == SchedulerError::SessionUnknown && !has_session(
                    self@,
                    session_id as int,
                ),
            },
    {
        if session_id < self.sessions.len() as u64 {
            Ok(&self.sessions[session_id as usize])
        } else {
            Err(SchedulerError::SessionUnknown)
        }
    }
}

} // verus!
