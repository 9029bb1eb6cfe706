use std::path::PathBuf;
use vstd::prelude::*;

verus! {

#[verifier::external_type_specification]
#[verifier::external_body]
pub struct ExPathBuf(PathBuf);

/// A named set of connection settings from the configuration file.
pub struct Session {
    pub host: String,
    pub port: Option<u16>,
    pub tls: Option<bool>,
    pub ca_cert: Option<PathBuf>,
    pub client_cert: Option<PathBuf>,
    pub client_key: Option<PathBuf>,
    pub user: Option<String>,
    pub password: Option<String>,
    pub topics: Option<Vec<String>>,
}

/// The configuration file: sessions by name.
pub struct Config {
    pub sessions: Vec<(String, Session)>,
}

/// The message of the error for a session that is not configured.
pub open spec fn session_not_found(name: Seq<char>) -> Seq<char> {
    "Session '"@ + name + "' not found"@
}

/// The first session named `name`, if any.
pub open spec fn find_session(sessions: Seq<(String, Session)>, name: Seq<char>) -> Option<Session>
    decreases sessions.len(),
{
    if sessions.len() == 0 {
        None
    } else if sessions[0].0@ == name {
        Some(sessions[0].1)
    } else {
        find_session(sessions.drop_first(), name)
    }
}

impl Config {
    /// No two sessions have the same name, as in a TOML table.
    pub open spec fn wf(&self) -> bool {
        forall|i: int, j: int|
            0 <= i < j < self.sessions@.len() ==> (#[trigger] self.sessions@[i]).0@ != (#[trigger] self.sessions@[j]).0@
    }

    /// The session named `name`, or an error that names it.
    pub fn get_sessions(&self, name: &str) -> (r: Result<&Session, String>)
        ensures
            match r {
                Ok(s) => find_session(self.sessions@, name@) == Some(*s),
                Err(e) => find_session(self.sessions@, name@) is None && e@ == session_not_found(name@),
            },
    {
        let wanted = String::from_str(name);
        let mut i: usize = 0;
        assert(self.sessions@.skip(0) =~= self.sessions@);
        while i < self.sessions.len()
            invariant
                wanted@ == name@,
                i <= self.sessions@.len(),
                find_session(self.sessions@, name@) == find_session(self.sessions@.skip(i as int), name@),
            decreases self.sessions.len() - i,
        {
            assert(self.sessions@.skip(i as int)[0] == self.sessions@[i as int]);
            if self.sessions[i].0 == wanted {
                return Ok(&self.sessions[i].1);
            }
            assert(self.sessions@.skip(i as int).drop_first() =~= self.sessions@.skip(i + 1));
            i = i + 1;
        }
        let mut message = String::from_str("Session '");
        message.append(name);
        message.append("' not found");
        Err(message)
    }
}

/// Where no two sessions share a name, the session found for a name is the one with that name.
pub proof fn lemma_find_session_unique(sessions: Seq<(String, Session)>, j: int)
    requires
        0 <= j < sessions.len(),
        forall|a: int, b: int| 0 <= a < b < sessions.len() ==> (#[trigger] sessions[a]).0@ != (#[trigger] sessions[b]).0@,
    ensures
        find_session(sessions, sessions[j].0@) == Some(sessions[j].1),
    decreases j,
{
    if j > 0 {
        let rest = sessions.drop_first();
        assert(sessions[0].0@ != sessions[j].0@);
        assert(rest[j - 1] == sessions[j]);
        assert forall|a: int, b: int| 0 <= a < b < rest.len() implies (#[trigger] rest[a]).0@ != (#[trigger] rest[b]).0@ by {
            assert(rest[a] == sessions[a + 1]);
            assert(rest[b] == sessions[b + 1]);
        }
        lemma_find_session_unique(rest, j - 1);
    }
}

} // verus!
