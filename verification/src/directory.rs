//! A directory to watch: its root path and the file extensions a scan keeps.
//! The walk over the real file system lives outside the library; the
//! decision of which files a scan keeps is made here.
use vstd::prelude::*;

verus! {

use vstd::string::StrSliceExecFns;
use crate::text::find_last;
use crate::text::last_index_of;
use crate::text::last_segment;
use crate::text::last_segment_of;
use crate::text::lemma_last_index_of;
use crate::text::contains_str;

/// One configured scan root together with the allowed extensions.
pub struct Directory {
    /// The root path of the tree to scan.
    pub path: String,
    /// File extensions (without the leading dot) that the scan keeps.
    pub extensions: Vec<String>,
}

/// The extension of a file path: what follows the last `.` of the final
/// segment. A segment without a dot has none, and a leading dot alone (a
/// hidden file) opens no extension.
pub open spec fn extension_of(p: Seq<char>) -> Option<Seq<char>> {
    let seg = last_segment(p);
    let j = last_index_of(seg, '.');
    if j <= 0 {
        Option::None
    } else {
        Option::Some(seg.skip(j + 1))
    }
}

/// True when `p` has an extension and it is one of `exts`.
pub open spec fn has_allowed_extension(p: Seq<char>, exts: Seq<Seq<char>>) -> bool {
    match extension_of(p) {
        Option::None => false,
        Option::Some(e) => exts.contains(e),
    }
}

impl Directory {
    /// True when the scan keeps `path`: its extension is one of the allowed
    /// ones.
    pub fn matches_extension(&self, path: &str) -> (r: bool)
        ensures
            r == has_allowed_extension(path@, self.extensions.deep_view()),
    {
        let seg = last_segment_of(path);
        proof {
            lemma_last_index_of(seg@, '.');
        }
        match find_last(seg, '.') {
            Option::None => false,
            Option::Some(j) => {
                if j == 0 {
                    false
                } else {
                    let n = seg.unicode_len();
                    let ext = seg.substring_char(j + 1, n);
                    contains_str(&self.extensions, ext)
                }
            },
        }
    }

    /// Keeps exactly the candidates whose extension is allowed, in order.
    pub fn filter_files(&self, candidates: &Vec<String>) -> (r: Vec<String>)
        ensures
            r.deep_view() == candidates.deep_view().filter(
                |p: Seq<char>| has_allowed_extension(p, self.extensions.deep_view()),
            ),
    {
        let ghost pred = |p: Seq<char>| has_allowed_extension(p, self.extensions.deep_view());
        let n = candidates.len();
        let mut r: Vec<String> = Vec::new();
        proof {
            reveal(Seq::filter);
            assert(candidates.deep_view().take(0) =~= Seq::<Seq<char>>::empty());
            assert(r.deep_view() =~= candidates.deep_view().take(0).filter(pred));
        }
        let mut i: usize = 0;
        while i < n
            invariant
                i <= n,
                n == candidates@.len(),
                candidates.deep_view().len() == n,
                r.deep_view() == candidates.deep_view().take(i as int).filter(pred),
                pred == (|p: Seq<char>| has_allowed_extension(p, self.extensions.deep_view())),
            decreases n - i,
        {
            let ghost old_deep = r.deep_view();
            let ghost dv = candidates.deep_view();
            let keep = self.matches_extension(candidates[i].as_str());
            if keep {
                r.push(candidates[i].clone());
            }
            proof {
                reveal(Seq::filter);
                assert(dv.take(i + 1).drop_last() =~= dv.take(i as int));
                assert(dv.take(i + 1).last() == dv[i as int]);
                assert(dv[i as int] == candidates@[i as int]@);
                if keep {
                    assert(r.deep_view() =~= old_deep.push(dv[i as int]));
                }
            }
            i = i + 1;
        }
        proof {
            assert(candidates.deep_view().take(n as int) =~= candidates.deep_view());
        }
        r
    }
}

} // verus!
