//! Configuration values for the watcher: which directories to scan, which
//! extensions to keep, the command to dispatch, where the file list is
//! persisted, and the prefixes used for sort keys.
use vstd::prelude::*;

verus! {

use vstd::string::StrSliceExecFns;
use vstd::string::StringExecFns;
use crate::text::last_segment;
use crate::text::last_segment_of;
use crate::text::remove_all;
use crate::text::remove_all_exec;

/// The full configuration of one watcher instance.
pub struct Settings {
    /// Seconds to wait between cycles.
    pub delay: u64,
    /// Root directories to scan, each recursively.
    pub directories: Vec<String>,
    /// The command line to dispatch: program plus fixed leading arguments,
    /// separated by whitespace.
    pub command: String,
    /// File extensions (without the leading dot) that a scan keeps.
    pub extensions: Vec<String>,
    /// Where the list of known files is persisted.
    pub file_list: String,
    /// Substrings stripped from a path's final segment when computing its
    /// sort key; never used for identity.
    pub prefixes: Vec<String>,
}

/// The delay used when the configuration names none.
pub fn default_delay() -> (r: u64)
    ensures
        r == 5,
{
    5
}

/// The storage location used when the configuration names none.
pub fn default_file_list() -> (r: String)
    ensures
        r@ == "file_list.txt"@,
{
    String::from_str("file_list.txt")
}

/// The prefix list used when the configuration names none: no prefixes.
pub fn default_prefixes() -> (r: Vec<String>)
    ensures
        r@.len() == 0,
{
    Vec::new()
}

/// Values given on the command line, each replacing its configured
/// counterpart: a present option replaces the value outright, and a
/// non-empty list replaces the configured list wholesale. An empty list
/// means the option was not given.
pub struct Overrides {
    /// Replacement for the command template.
    pub command: Option<String>,
    /// Replacement for the delay between cycles.
    pub delay: Option<u64>,
    /// Replacement for the scanned directories.
    pub directories: Vec<String>,
    /// Replacement for the allowed extensions.
    pub extensions: Vec<String>,
    /// Replacement for the storage location.
    pub file_list: Option<String>,
    /// Replacement for the sort-key prefixes.
    pub prefixes: Vec<String>,
}

/// Applies command-line overrides to loaded settings: present values
/// replace, list values replace wholesale rather than merge.
pub fn apply_overrides(settings: Settings, overrides: Overrides) -> (r: Settings)
    ensures
        r.command == match overrides.command {
            Option::Some(c) => c,
            Option::None => settings.command,
        },
        r.delay == match overrides.delay {
            Option::Some(d) => d,
            Option::None => settings.delay,
        },
        r.directories == if overrides.directories@.len() > 0 {
            overrides.directories
        } else {
            settings.directories
        },
        r.extensions == if overrides.extensions@.len() > 0 {
            overrides.extensions
        } else {
            settings.extensions
        },
        r.file_list == match overrides.file_list {
            Option::Some(f) => f,
            Option::None => settings.file_list,
        },
        r.prefixes == if overrides.prefixes@.len() > 0 {
            overrides.prefixes
        } else {
            settings.prefixes
        },
{
    let mut s = settings;
    match overrides.command {
        Option::Some(c) => {
            s.command = c;
        },
        Option::None => {},
    }
    match overrides.delay {
        Option::Some(d) => {
            s.delay = d;
        },
        Option::None => {},
    }
    if overrides.directories.len() > 0 {
        s.directories = overrides.directories;
    }
    if overrides.extensions.len() > 0 {
        s.extensions = overrides.extensions;
    }
    match overrides.file_list {
        Option::Some(f) => {
            s.file_list = f;
        },
        Option::None => {},
    }
    if overrides.prefixes.len() > 0 {
        s.prefixes = overrides.prefixes;
    }
    s
}

/// `seg` with every occurrence of each prefix removed, applying the prefixes
/// in order.
pub open spec fn strip_prefixes(seg: Seq<char>, ps: Seq<Seq<char>>) -> Seq<char>
    decreases ps.len(),
{
    if ps.len() == 0 {
        seg
    } else {
        strip_prefixes(remove_all(seg, ps[0]), ps.skip(1))
    }
}

/// The sort key of a path: its final segment with every occurrence of every
/// configured prefix removed. Used only for ordering, never for identity.
pub open spec fn sort_key(s: Seq<char>, ps: Seq<Seq<char>>) -> Seq<char> {
    strip_prefixes(last_segment(s), ps)
}

/// Computes a path's sort key: the part after the last `/`, with every
/// occurrence of every prefix deleted, wherever in the segment it stands.
pub fn remove_prefix(s: &str, prefixes: &[String]) -> (r: String)
    ensures
        r@ == sort_key(s@, prefixes.deep_view()),
{
    let seg = last_segment_of(s);
    let mut cur = String::from_str(seg);
    let n = prefixes.len();
    let ghost dv = prefixes.deep_view();
    proof {
        assert(dv.skip(0) =~= dv);
        assert(dv.len() == n);
    }
    let mut i: usize = 0;
    while i < n
        invariant
            i <= n,
            n == dv.len(),
            dv == prefixes.deep_view(),
            strip_prefixes(cur@, dv.skip(i as int)) == sort_key(s@, dv),
        decreases n - i,
    {
        proof {
            assert(dv.skip(i as int)[0] == dv[i as int]);
            assert(dv[i as int] == prefixes@[i as int]@);
            assert(dv.skip(i as int).skip(1) =~= dv.skip(i + 1));
        }
        let next = remove_all_exec(cur.as_str(), prefixes[i].as_str());
        cur = next;
        i = i + 1;
    }
    proof {
        assert(dv.skip(n as int) =~= Seq::<Seq<char>>::empty());
    }
    cur
}

} // verus!
