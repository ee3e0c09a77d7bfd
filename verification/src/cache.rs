//! The persisted selection state of `.xcraft/state[.profile].toml`.
use vstd::prelude::*;

use crate::config::StoredBspState;
use crate::text::{chars_of, concat_chars, owned, string_of};

verus! {

/// Persisted state from the last `launch` invocation. `destination` holds the
/// destination as serialized, carried through unchanged.
#[derive(Debug, Clone)]
pub struct CachedState {
    pub workspace: Option<String>,
    pub scheme: Option<String>,
    pub configuration: Option<String>,
    pub destination: Option<String>,
    pub bsp: Option<StoredBspState>,
}

impl CachedState {
    /// The state of a project with nothing cached.
    pub fn empty() -> (out: CachedState)
        ensures
            out.workspace is None,
            out.scheme is None,
            out.configuration is None,
            out.destination is None,
            out.bsp is None,
    {
        CachedState {
            workspace: None,
            scheme: None,
            configuration: None,
            destination: None,
            bsp: None,
        }
    }
}

/// The name of the state file of a profile.
pub open spec fn cache_file_spec(profile: Option<Seq<char>>) -> Seq<char> {
    match profile {
        Some(p) => "state."@ + p + ".toml"@,
        None => "state.toml"@,
    }
}

pub open spec fn opt_view(o: Option<&str>) -> Option<Seq<char>> {
    match o {
        Some(s) => Some(s@),
        None => None,
    }
}

/// The name of the state file: `state.toml`, or `state.PROFILE.toml`.
pub fn cache_file(profile: Option<&str>) -> (out: String)
    ensures
        out@ == cache_file_spec(opt_view(profile)),
{
    match profile {
        Some(p) => {
            let a = chars_of("state.");
            let b = chars_of(p);
            let c = chars_of(".toml");
            let ab = concat_chars(a.as_slice(), b.as_slice());
            let abc = concat_chars(ab.as_slice(), c.as_slice());
            string_of(abc.as_slice())
        },
        None => owned("state.toml"),
    }
}

} // verus!
