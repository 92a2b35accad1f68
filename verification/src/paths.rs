//! Where files live, as rules on the bytes of paths.
use crate::error::Error;
use vstd::prelude::*;

verus! {

/// The path separator.
pub const SEPARATOR: u8 = 47;

/// Whether a path starts at the root.
pub open spec fn rooted(p: Seq<u8>) -> bool {
    p.len() > 0 && p[0] == SEPARATOR
}

/// A relative name below a path.
pub open spec fn below(base: Seq<u8>, name: Seq<char>) -> Seq<u8> {
    let tail = vstd::utf8::encode_utf8(name);
    if base.len() > 0 && base.last() != SEPARATOR {
        base + seq![SEPARATOR] + tail
    } else {
        base + tail
    }
}

/// The bytes of an optional path.
pub open spec fn bytes_of(p: Option<Vec<u8>>) -> Option<Seq<u8>> {
    match p {
        Some(p) => Some(p@),
        None => None,
    }
}

fn is_rooted(p: &Vec<u8>) -> (r: bool)
    ensures
        r == rooted(p@),
{
    p.len() > 0 && p[0] == SEPARATOR
}

fn join(base: &Vec<u8>, name: &str) -> (r: Vec<u8>)
    ensures
        r@ == below(base@, name@),
{
    let mut r: Vec<u8> = base.clone();
    assert(r@ =~= base@);
    if base.len() > 0 && base[base.len() - 1] != SEPARATOR {
        r.push(SEPARATOR);
    }
    let ghost start = r@;
    let tail: &[u8] = name.as_bytes();
    let mut i: usize = 0;
    while i < tail.len()
        invariant
            i <= tail@.len(),
            r@ == start + tail@.take(i as int),
        decreases tail.len() - i,
    {
        r.push(tail[i]);
        i = i + 1;
        assert(r@ =~= start + tail@.take(i as int));
    }
    proof {
        assert(tail@.take(i as int) =~= tail@);
        assert(r@ =~= below(base@, name@));
    }
    r
}

/// Where the config file is: below XDG_CONFIG_HOME if that is an absolute
/// path, else below HOME's `.config`; nowhere if neither is set.
pub open spec fn config_file(xdg: Option<Seq<u8>>, home: Option<Seq<u8>>) -> Option<Seq<u8>> {
    if xdg is Some && rooted(xdg->0) {
        Some(below(below(xdg->0, "wayhud"@), "config.toml"@))
    } else {
        match home {
            Some(h) => Some(below(below(below(h, ".config"@), "wayhud"@), "config.toml"@)),
            None => None,
        }
    }
}

/// Resolve from the supplied XDG and HOME values.
pub fn config_path(xdg: &Option<Vec<u8>>, home: &Option<Vec<u8>>) -> (r: Option<Vec<u8>>)
    ensures
        bytes_of(r) == config_file(bytes_of(*xdg), bytes_of(*home)),
{
    if let Some(x) = xdg {
        if is_rooted(x) {
            return Some(join(&join(x, "wayhud"), "config.toml"));
        }
    }
    match home {
        Some(h) => Some(join(&join(&join(h, ".config"), "wayhud"), "config.toml")),
        None => None,
    }
}

/// Where the listener's socket is: below XDG_RUNTIME_DIR, which must be an
/// absolute path. There is deliberately no fallback to a directory that others
/// can write to: anyone who can reach the socket can put text on the screen.
pub open spec fn socket_file(xdg: Option<Seq<u8>>) -> Result<Seq<u8>, Seq<char>> {
    if xdg is Some && rooted(xdg->0) {
        Ok(below(xdg->0, "wayhud.sock"@))
    } else {
        Err(
            "XDG_RUNTIME_DIR is unset or not an absolute path; pass --socket to choose one explicitly"@,
        )
    }
}

/// Resolve the default path of the socket from the supplied variable.
pub fn socket_path(xdg: &Option<Vec<u8>>) -> (r: Result<Vec<u8>, Error>)
    ensures
        match r {
            Ok(p) => socket_file(bytes_of(*xdg)) == Ok::<Seq<u8>, Seq<char>>(p@),
            Err(e) => socket_file(bytes_of(*xdg)) == Err::<Seq<u8>, Seq<char>>(e@),
        },
{
    if let Some(x) = xdg {
        if is_rooted(x) {
            return Ok(join(x, "wayhud.sock"));
        }
    }
    Err(
        Error::new(
            "XDG_RUNTIME_DIR is unset or not an absolute path; pass --socket to choose one explicitly".to_owned(),
        ),
    )
}

} // verus!
