//! Credentials for the registration site, from environment values or an env file.

use vstd::prelude::*;

use crate::text::{occurs_at, occurs_at_index, split_on, split_by, views};

verus! {

/// A user name and a password.
#[derive(Debug, Clone)]
pub struct Credentials {
    username: String,
    password: String,
}

impl View for Credentials {
    type V = (Seq<char>, Seq<char>);

    closed spec fn view(&self) -> (Seq<char>, Seq<char>) {
        (self.username@, self.password@)
    }
}

/// The value that an env-file line gives `key`: what follows `key=`, without a final
/// carriage return.
pub open spec fn env_line_value(line: Seq<char>, key: Seq<char>) -> Option<Seq<char>> {
    if occurs_at(line, key + seq!['='], 0) {
        let rest = line.skip(key.len() as int + 1);
        if rest.len() > 0 && rest.last() == '\r' {
            Some(rest.drop_last())
        } else {
            Some(rest)
        }
    } else {
        None
    }
}

/// The value of the last line of `lines` that gives `key` one, if any.
pub open spec fn last_env_value(lines: Seq<Seq<char>>, key: Seq<char>) -> Option<Seq<char>>
    decreases lines.len(),
{
    if lines.len() == 0 {
        None
    } else if env_line_value(lines.last(), key) is Some {
        env_line_value(lines.last(), key)
    } else {
        last_env_value(lines.drop_last(), key)
    }
}

pub open spec fn username_key() -> Seq<char> {
    seq!['U', 'D', 'A', '_', 'U', 'S', 'E', 'R', 'N', 'A', 'M', 'E']
}

pub open spec fn password_key() -> Seq<char> {
    seq!['U', 'D', 'A', '_', 'P', 'A', 'S', 'S', 'W', 'O', 'R', 'D']
}

/// The credentials that an env file gives: its last user name and password lines, where both
/// are there and not empty.
pub open spec fn env_file_credentials(content: Seq<char>) -> Option<(Seq<char>, Seq<char>)> {
    let lines = split_on(content, seq!['\n']);
    let u = last_env_value(lines, username_key());
    let p = last_env_value(lines, password_key());
    if u is Some && p is Some && u->0.len() > 0 && p->0.len() > 0 {
        Some((u->0, p->0))
    } else {
        None
    }
}

/// The value that the env-file line `line` gives `key`: what follows `key=`, without a final
/// carriage return.
pub fn retrieve_env_value_from_line(line: &str, key: &str) -> (r: Option<String>)
    ensures
        match r {
            Some(v) => env_line_value(line@, key@) == Some(v@),
            None => env_line_value(line@, key@) is None,
        },
{
    let mut prefix = String::from_str(key);
    proof {
        reveal_strlit("=");
    }
    prefix.append("=");
    assert(prefix@ =~= key@ + seq!['=']);
    if !occurs_at_index(line, prefix.as_str(), 0) {
        return None;
    }
    let n = line.unicode_len();
    let from = key.unicode_len() + 1;
    let mut to = n;
    if to > from && line.get_char(to - 1) == '\r' {
        to = to - 1;
    }
    let value = String::from_str(line.substring_char(from, to));
    assert(line@.skip(from as int) =~= line@.subrange(from as int, n as int));
    assert(value@ =~= env_line_value(line@, key@)->0);
    Some(value)
}

/// The value of the last line of `lines` that gives `key` one.
fn last_value(lines: &Vec<String>, key: &str) -> (r: Option<String>)
    ensures
        match r {
            Some(v) => last_env_value(views(lines@), key@) == Some(v@),
            None => last_env_value(views(lines@), key@) is None,
        },
{
    let ghost all = views(lines@);
    let mut found: Option<String> = None;
    let mut i: usize = 0;
    assert(all.take(0) =~= Seq::<Seq<char>>::empty());
    while i < lines.len()
        invariant
            i <= lines.len(),
            all == views(lines@),
            match found {
                Some(v) => last_env_value(all.take(i as int), key@) == Some(v@),
                None => last_env_value(all.take(i as int), key@) is None,
            },
        decreases lines.len() - i,
    {
        assert(all.take(i + 1).drop_last() =~= all.take(i as int));
        assert(all.take(i + 1).last() == lines@[i as int]@);
        match retrieve_env_value_from_line(lines[i].as_str(), key) {
            Some(v) => {
                found = Some(v);
            },
            None => {},
        }
        i = i + 1;
    }
    assert(all.take(lines.len() as int) =~= all);
    found
}

impl Credentials {
    pub fn new(username: String, password: String) -> (r: Credentials)
        ensures
            r@ == (username@, password@),
    {
        Credentials { username, password }
    }

    pub fn username(&self) -> (r: &String)
        ensures
            r@ == self@.0,
    {
        &self.username
    }

    pub fn password(&self) -> (r: &String)
        ensures
            r@ == self@.1,
    {
        &self.password
    }

    /// The credentials that an env file gives: its last `UDA_USERNAME=` and `UDA_PASSWORD=`
    /// lines, where both are there and not empty.
    pub fn from_env_file(content: &str) -> (r: Option<Credentials>)
        ensures
            match r {
                Some(c) => env_file_credentials(content@) == Some(c@),
                None => env_file_credentials(content@) is None,
            },
    {
        proof {
            reveal_strlit("\n");
            reveal_strlit("UDA_USERNAME");
            reveal_strlit("UDA_PASSWORD");
            assert("\n"@ =~= seq!['\n']);
            assert("UDA_USERNAME"@ =~= username_key());
            assert("UDA_PASSWORD"@ =~= password_key());
        }
        let lines = split_by(content, "\n");
        let username = last_value(&lines, "UDA_USERNAME");
        let password = last_value(&lines, "UDA_PASSWORD");
        match (username, password) {
            (Some(u), Some(p)) => {
                if u.unicode_len() > 0 && p.unicode_len() > 0 {
                    Some(Credentials::new(u, p))
                } else {
                    None
                }
            },
            _ => None,
        }
    }

    /// The credentials to use: those of the environment where it has both values, else those
    /// of the env file, else an error.
    pub fn load_credentials(
        username_var: Option<String>,
        password_var: Option<String>,
        env_file_content: Option<String>,
    ) -> (r: Result<Credentials, String>)
        ensures
            match (username_var, password_var) {
                (Some(u), Some(p)) => r is Ok && r->Ok_0@ == (u@, p@),
                _ => match env_file_content {
                    Some(content) if env_file_credentials(content@) is Some => r is Ok && r->Ok_0@
                        == env_file_credentials(content@)->0,
                    _ => r is Err,
                },
            },
    {
        match (username_var, password_var) {
            (Some(u), Some(p)) => {
                return Ok(Credentials::new(u, p));
            },
            _ => {},
        }
        match env_file_content {
            Some(content) => match Credentials::from_env_file(content.as_str()) {
                Some(c) => Ok(c),
                None => Err(String::from_str("No credentials have been found.")),
            },
            None => Err(String::from_str("No credentials have been found.")),
        }
    }
}

} // verus!
