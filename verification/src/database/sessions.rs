//! Sessions: login, token checks, logout.

use super::answer_view;
use super::session_key;
use super::session_val;
use super::Database;
use crate::clock::get_current_unix_time_seconds;
use crate::codec::session_fits;
use crate::error::AndyError;
use crate::laws::lemma_free_serial_below;
use crate::model::expiry_of;
use crate::model::SESSION_TTL_SECONDS;
use crate::records::LoginResponse;
use crate::records::Session;
use crate::records::SessionView;
use crate::table::lemma_rows_absent;
use crate::table::lemma_rows_insert;
use crate::table::lemma_rows_remove;
use crate::table::lemma_rows_row;
use crate::table::lemma_rows_update;
use crate::token::session_token;
use crate::token::token_for;
use vstd::prelude::*;

verus! {

impl Database {
    /// The row of the session that `token` names.
    fn locate_session(&self, token: &String) -> (found: Option<usize>)
        requires
            self.wf(),
        ensures
            match found {
                Some(i) => {
                    &&& i < self.sessions.len()
                    &&& self.sessions[i as int].token@ == token@
                    &&& self@.sessions.dom().contains(token@)
                    &&& self@.sessions[token@] == self.sessions[i as int]@
                },
                None => !self@.sessions.dom().contains(token@),
            },
    {
        let mut i: usize = 0;
        while i < self.sessions.len()
            invariant
                self.wf(),
                i <= self.sessions.len(),
                forall|j: int| 0 <= j < i ==> self.sessions[j].token@ != token@,
            decreases self.sessions.len() - i,
        {
            if self.sessions[i].token == *token {
                proof {
                    lemma_rows_row(self.sessions@, session_key(), session_val(), i as int);
                }
                return Some(i);
            }
            i += 1;
        }
        proof {
            lemma_rows_absent(self.sessions@, session_key(), session_val(), token@);
        }
        None
    }

    /// Files `session` under its token, in place of any session there.
    fn file_session(&mut self, session: Session)
        requires
            old(self).wf(),
        ensures
            final(self).wf(),
            final(self)@ == old(self)@.file_session(session@),
    {
        match self.locate_session(&session.token) {
            Some(j) => {
                proof {
                    lemma_rows_update(
                        self.sessions@,
                        session_key(),
                        session_val(),
                        j as int,
                        session,
                    );
                }
                self.sessions.set(j, session);
            },
            None => {
                proof {
                    let rows = self.sessions@;
                    assert forall|k: int| 0 <= k < rows.len() implies session_key()(
                        #[trigger] rows[k],
                    ) != session_key()(session) by {
                        lemma_rows_row(rows, session_key(), session_val(), k);
                    }
                    lemma_rows_insert(
                        rows,
                        session_key(),
                        session_val(),
                        rows.len() as int,
                        session,
                    );
                    assert(rows.insert(rows.len() as int, session) =~= rows.push(session));
                }
                self.sessions.push(session);
            },
        }
    }

    /// Files the session that `data` encode, as it was stored by an earlier
    /// run; `EncodingCorruption` where `data` encode no session.
    pub fn load_session(&mut self, data: &[u8]) -> (r: Result<(), AndyError>)
        requires
            old(self).wf(),
        ensures
            final(self).wf(),
            (final(self)@, r) == old(self)@.load_session(data@),
    {
        match Session::from_bytes(data) {
            Err(e) => Err(e),
            Ok(session) => {
                self.file_session(session);
                Ok(())
            },
        }
    }

    /// The bytes under which the session of `token` is to be kept; `None`
    /// where there is no such session.
    pub fn stored_session(&self, token: &String) -> (r: Option<Vec<u8>>)
        requires
            self.wf(),
        ensures
            r.is_some() == self@.sessions.dom().contains(token@),
            r matches Some(bytes) ==> self@.stored_session(token@) == Some(bytes@)
                && session_fits(self@.sessions[token@]),
            r is None ==> self@.stored_session(token@) is None,
    {
        match self.locate_session(token) {
            Some(i) => Some(self.sessions[i].as_bytes()),
            None => None,
        }
    }

    /// The first token, in order of serial number, that names no session
    /// yet, for a login of the account in row `at` at time `now`.
    fn free_token(&self, at: usize, now: u64) -> (r: (String, u64))
        requires
            self.wf(),
            at < self.users.len(),
        ensures
            self@.free_serial(self.users[at as int]@, now) == Some(r.1),
            r.0@ == token_for(self.users[at as int]@, now, r.1),
            !self@.sessions.dom().contains(r.0@),
    {
        let ghost user = self.users[at as int]@;
        let ghost view = self@;
        proof {
            self.lemma_sessions_counted();
            lemma_free_serial_below(view.sessions.dom(), user, now, self.sessions.len() as nat);
        }
        let ghost free = choose|serial: u64|
            serial <= self.sessions.len() && !view.sessions.dom().contains(
                #[trigger] token_for(user, now, serial),
            );
        let mut serial: u64 = 0;
        loop
            invariant
                self.wf(),
                at < self.users.len(),
                user == self.users[at as int]@,
                view == self@,
                serial <= free,
                !view.token_taken(user, now, free),
                forall|earlier: u64|
                    earlier < serial ==> #[trigger] view.token_taken(user, now, earlier),
            decreases free - serial,
        {
            let token = session_token(&self.users[at], now, serial);
            match self.locate_session(&token) {
                None => {
                    proof {
                        assert(view.is_first_free(user, now, serial));
                        let chosen = choose|s: u64| view.is_first_free(user, now, s);
                        assert(view.is_first_free(user, now, chosen));
                        if chosen < serial {
                            assert(view.token_taken(user, now, chosen));
                        } else if serial < chosen {
                            assert(view.token_taken(user, now, serial));
                        }
                    }
                    return (token, serial);
                },
                Some(_) => {
                    assert(view.token_taken(user, now, serial));
                    serial = serial + 1;
                },
            }
        }
    }

    /// Logs in at the time `now`.
    ///
    /// Fails with `UserDoesNotExist` where no account has the email, with
    /// `WrongPassword` where the password is not the account's, and stores
    /// no session then. Otherwise it succeeds: it files one more session,
    /// under a token that named no session before, bound to the account,
    /// issued at `now` and valid for `SESSION_TTL_SECONDS`, and hands back
    /// the token with the account's id. No other session is touched.
    pub fn login_at(&mut self, email: String, password: String, now: u64) -> (r: Result<
        LoginResponse,
        AndyError,
    >)
        requires
            old(self).wf(),
        ensures
            final(self).wf(),
            (final(self)@, answer_view(r)) == old(self)@.login(email@, password@, now),
            r is Ok <==> old(self)@.authenticate(email@, password@) is Ok,
            r matches Ok(answer) ==> {
                &&& !old(self)@.sessions.dom().contains(answer.access_token@)
                &&& final(self)@.sessions == old(self)@.sessions.insert(
                    answer.access_token@,
                    (SessionView {
                        token: answer.access_token@,
                        user_id: answer.user_id,
                        issued_at: now,
                        expires_at: expiry_of(now),
                    }),
                )
            },
    {
        match self.authenticate(&email, &password) {
            Err(e) => Err(e),
            Ok(i) => {
                let user_id = self.users[i].user_id;
                let (token, serial) = self.free_token(i, now);
                let expires_at = if now <= u64::MAX - SESSION_TTL_SECONDS {
                    now + SESSION_TTL_SECONDS
                } else {
                    u64::MAX
                };
                let session = Session { token: token.clone(), user_id, issued_at: now, expires_at };
                self.file_session(session);
                Ok(LoginResponse { access_token: token, user_id })
            },
        }
    }

    /// Logs in at the time the clock shows; see `login_at`.
    pub fn login(&mut self, email: String, password: String) -> (r: Result<LoginResponse, AndyError>)
        requires
            old(self).wf(),
        ensures
            final(self).wf(),
            exists|now: u64|
                (final(self)@, answer_view(r)) == #[trigger] old(self)@.login(
                    email@,
                    password@,
                    now,
                ),
            r is Ok <==> old(self)@.authenticate(email@, password@) is Ok,
            r matches Ok(answer) ==> {
                &&& !old(self)@.sessions.dom().contains(answer.access_token@)
                &&& final(self)@.sessions.dom() == old(self)@.sessions.dom().insert(
                    answer.access_token@,
                )
                &&& final(self)@.sessions[answer.access_token@].user_id == answer.user_id
            },
    {
        let now = get_current_unix_time_seconds();
        self.login_at(email, password, now)
    }

    /// Answers as `validate_token_at` does and changes nothing: an expired
    /// session is refused and stays until `validate_token_at` removes it.
    pub fn check_token_at(&self, token: &String, now: u64) -> (r: Result<u64, AndyError>)
        requires
            self.wf(),
        ensures
            r == self@.validate_token(token@, now).1,
    {
        match self.locate_session(token) {
            None => Err(AndyError::BadAccessToken),
            Some(i) => {
                if now >= self.sessions[i].expires_at {
                    Err(AndyError::BadAccessToken)
                } else {
                    Ok(self.sessions[i].user_id)
                }
            },
        }
    }

    /// Checks an access token at the time `now` and names its account.
    ///
    /// Fails with `BadAccessToken` where no session has the token or the
    /// session has expired; an expired session is removed.
    pub fn validate_token_at(&mut self, token: String, now: u64) -> (r: Result<u64, AndyError>)
        requires
            old(self).wf(),
        ensures
            final(self).wf(),
            (final(self)@, r) == old(self)@.validate_token(token@, now),
    {
        match self.locate_session(&token) {
            None => Err(AndyError::BadAccessToken),
            Some(i) => {
                if now >= self.sessions[i].expires_at {
                    proof {
                        lemma_rows_remove(self.sessions@, session_key(), session_val(), i as int);
                    }
                    self.sessions.remove(i);
                    Err(AndyError::BadAccessToken)
                } else {
                    Ok(self.sessions[i].user_id)
                }
            },
        }
    }

    /// Checks an access token at the time the clock shows; see
    /// `validate_token_at`.
    pub fn validate_token(&mut self, token: String) -> (r: Result<u64, AndyError>)
        requires
            old(self).wf(),
        ensures
            final(self).wf(),
            exists|now: u64|
                (final(self)@, r) == #[trigger] old(self)@.validate_token(token@, now),
    {
        let now = get_current_unix_time_seconds();
        self.validate_token_at(token, now)
    }

    /// Ends the session of an access token; `BadAccessToken` where there is
    /// none.
    pub fn logout(&mut self, token: String) -> (r: Result<(), AndyError>)
        requires
            old(self).wf(),
        ensures
            final(self).wf(),
            (final(self)@, r) == old(self)@.logout(token@),
    {
        match self.locate_session(&token) {
            None => Err(AndyError::BadAccessToken),
            Some(i) => {
                proof {
                    lemma_rows_remove(self.sessions@, session_key(), session_val(), i as int);
                }
                self.sessions.remove(i);
                Ok(())
            },
        }
    }
}

} // verus!
