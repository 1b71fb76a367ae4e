//! Where an SSH session goes: `user@host[:port]`, the key file and the
//! command to run. The connection itself is the application's.

use vstd::prelude::*;
use std::path::PathBuf;
use crate::parse::{copy_range, find_char, first_at, lemma_first_at, parse_int, parse_int_chars, split_once, split_once_chars};
use crate::text::{chars_to_string, str_chars};

verus! {

#[verifier::external_type_specification]
#[verifier::external_body]
pub struct ExPathBuf(PathBuf);

#[derive(Debug)]
pub struct SshTarget {
    pub user: String,
    pub host: String,
    pub port: u16,
    pub key_path: PathBuf,
    /// Command to run instead of a login shell (e.g. `tmux new -A -s kobo`).
    pub command: Option<String>,
}

/// Why a target was refused.
#[derive(Clone, Copy, Debug, PartialEq, Eq, Structural)]
pub enum TargetError {
    /// Not of the form `user@host[:port]`.
    Shape,
    /// The port is not a number from 0 to 65535.
    BadPort,
}

impl TargetError {
    pub fn message(&self) -> (s: &'static str)
        ensures
            s@ == (match self {
                TargetError::Shape => "expected user@host[:port]"@,
                TargetError::BadPort => "bad port"@,
            }),
    {
        match self {
            TargetError::Shape => "expected user@host[:port]",
            TargetError::BadPort => "bad port",
        }
    }
}

/// Index of the last `c` in `s`, or -1.
pub open spec fn last_at(s: Seq<char>, c: char) -> int
    decreases s.len(),
{
    if s.len() == 0 {
        -1
    } else if s.last() == c {
        s.len() - 1
    } else {
        last_at(s.drop_last(), c)
    }
}

/// `str::rsplit_once`: the text before and after the last `c`.
pub open spec fn rsplit_once(s: Seq<char>, c: char) -> Option<(Seq<char>, Seq<char>)> {
    let i = last_at(s, c);
    if i < 0 {
        None
    } else {
        Some((s.take(i), s.skip(i + 1)))
    }
}

/// User, host and port of `user@host[:port]`: the user ends at the first
/// `@`, the port follows the last `:` (22 without one); neither user nor
/// host may be empty.
pub open spec fn target_spec(spec: Seq<char>) -> Result<(Seq<char>, Seq<char>, u16), TargetError> {
    match split_once(spec, '@') {
        None => Err(TargetError::Shape),
        Some((user, rest)) => {
            let hp: Result<(Seq<char>, u16), TargetError> = match rsplit_once(rest, ':') {
                Some((h, p)) => match parse_int(p, 10, false, 0, 65535) {
                    Some(v) => Ok((h, v as u16)),
                    None => Err(TargetError::BadPort),
                },
                None => Ok((rest, 22u16)),
            };
            match hp {
                Err(e) => Err(e),
                Ok((host, port)) => if user.len() == 0 || host.len() == 0 {
                    Err(TargetError::Shape)
                } else {
                    Ok((user, host, port))
                },
            }
        },
    }
}

fn rsplit_once_chars(v: &[char], c: char) -> (r: Option<(Vec<char>, Vec<char>)>)
    ensures
        match r {
            Some((a, b)) => rsplit_once(v@, c) == Some((a@, b@)),
            None => rsplit_once(v@, c) is None,
        },
{
    let mut i = v.len();
    assert(v@.take(v@.len() as int) =~= v@);
    while i > 0
        invariant
            i <= v@.len(),
            last_at(v@, c) == last_at(v@.take(i as int), c),
        decreases i,
    {
        assert(v@.take(i as int).drop_last() =~= v@.take(i - 1));
        if v[i - 1] == c {
            let a = copy_range(v, 0, i - 1);
            let b = copy_range(v, i, v.len());
            assert(a@ =~= v@.take(i - 1));
            assert(b@ =~= v@.skip(i as int));
            return Some((a, b));
        }
        i = i - 1;
    }
    None
}

impl SshTarget {
    /// Parse `user@host[:port]`.
    pub fn parse(spec: &str, key_path: PathBuf, command: Option<String>) -> (r: Result<SshTarget, TargetError>)
        ensures
            match r {
                Ok(t) => target_spec(spec@) == Ok::<(Seq<char>, Seq<char>, u16), TargetError>((t.user@, t.host@, t.port))
                    && t.key_path == key_path && t.command == command,
                Err(e) => target_spec(spec@) == Err::<(Seq<char>, Seq<char>, u16), TargetError>(e),
            },
    {
        let v = str_chars(spec);
        let (user, rest) = match split_once_chars(v.as_slice(), '@') {
            Some(p) => p,
            None => {
                return Err(TargetError::Shape);
            },
        };
        let (host, port): (Vec<char>, u16) = match rsplit_once_chars(rest.as_slice(), ':') {
            Some((h, p)) => match parse_int_chars(p.as_slice(), 10, false, 0, 65535) {
                Some(x) => (h, x as u16),
                None => {
                    return Err(TargetError::BadPort);
                },
            },
            None => (rest, 22),
        };
        if user.len() == 0 || host.len() == 0 {
            return Err(TargetError::Shape);
        }
        Ok(SshTarget { user: chars_to_string(user.as_slice()), host: chars_to_string(host.as_slice()), port, key_path, command })
    }
}

} // verus!
