//! The authoritative record of every file path ever observed. Loading reads
//! the persisted line-per-path image as a set, updating classifies scanned
//! candidates as new or known and builds the one dispatch for the batch of
//! new ones, and saving renders the whole set in the deterministic
//! prefix-insensitive order.
use vstd::prelude::*;

verus! {

use vstd::string::StrSliceExecFns;
use vstd::string::StringExecFns;
use crate::processor::Processor;
use crate::processor::split_ws;
use crate::settings::sort_key;
use crate::settings::remove_prefix;
use crate::text::contains_str;
use crate::text::join_lines;
use crate::text::join_lines_exec;
use crate::text::lemma_lex_le_antisym;
use crate::text::lemma_lex_le_total;
use crate::text::lemma_lex_le_trans;
use crate::text::lemma_split_join;
use crate::text::lex_le;
use crate::text::lex_le_exec;
use crate::text::line_safe;
use crate::text::split_lines;
use crate::text::split_lines_exec;
use crate::text::str_eq;
use crate::text::lemma_lex_le_refl;
use vstd::relations::sorted_by;
use vstd::relations::total_ordering;
use vstd::seq_lib::lemma_multiset_commutative;
use vstd::seq_lib::lemma_sorted_unique;

/// The persisted record of observed paths, with where it is stored and the
/// prefixes that shape its saved order.
pub struct FileList {
    /// Every path ever observed, each held once.
    pub files: Vec<String>,
    /// The storage location the list was loaded from and is saved to.
    pub file_name: String,
    /// Prefixes stripped from final segments when computing sort keys.
    pub prefixes: Vec<String>,
}

/// The candidates of one scan that are new against `known`, in scan order,
/// each at most once: a candidate enters the batch only if neither `known`
/// nor an earlier candidate already holds it.
pub open spec fn new_batch(known: Set<Seq<char>>, candidates: Seq<Seq<char>>) -> Seq<Seq<char>>
    decreases candidates.len(),
{
    if candidates.len() == 0 {
        Seq::empty()
    } else if known.contains(candidates[0]) {
        new_batch(known, candidates.skip(1))
    } else {
        seq![candidates[0]] + new_batch(known.insert(candidates[0]), candidates.skip(1))
    }
}

/// Containment in a non-empty sequence: the head, or containment in the
/// rest.
proof fn lemma_contains_skip1(s: Seq<Seq<char>>)
    requires
        s.len() > 0,
    ensures
        forall|y: Seq<char>| #[trigger] s.contains(y) <==> (y == s[0] || s.skip(1).contains(y)),
{
    assert forall|y: Seq<char>| #[trigger] s.contains(y) implies (y == s[0] || s.skip(1).contains(
        y,
    )) by {
        let i = choose|i: int| 0 <= i < s.len() && s[i] == y;
        if i > 0 {
            assert(s.skip(1)[i - 1] == y);
        }
    }
    assert forall|y: Seq<char>| (y == s[0] || s.skip(1).contains(y)) implies #[trigger] s.contains(
        y,
    ) by {
        if y == s[0] {
            assert(s[0] == y);
        } else {
            let i = choose|i: int| 0 <= i < s.skip(1).len() && s.skip(1)[i] == y;
            assert(s[i + 1] == y);
        }
    }
}

/// A scan finds nothing new exactly when every candidate is already known.
pub proof fn lemma_new_batch_empty(known: Set<Seq<char>>, candidates: Seq<Seq<char>>)
    ensures
        new_batch(known, candidates).len() == 0 <==> candidates.to_set().subset_of(known),
    decreases candidates.len(),
{
    if candidates.len() == 0 {
        assert(forall|y: Seq<char>| !candidates.contains(y));
    } else {
        let c0 = candidates[0];
        lemma_contains_skip1(candidates);
        if known.contains(c0) {
            lemma_new_batch_empty(known, candidates.skip(1));
        } else {
            assert(candidates.contains(c0));
            assert(candidates.to_set().contains(c0));
        }
    }
}

/// Updating twice with the same candidates: once they are all recorded, a
/// second update with the same list finds nothing new — it reports no
/// change and dispatches nothing.
pub proof fn lemma_update_idempotent(known: Set<Seq<char>>, candidates: Seq<Seq<char>>)
    ensures
        new_batch(known.union(candidates.to_set()), candidates).len() == 0,
{
    lemma_new_batch_empty(known.union(candidates.to_set()), candidates);
}

/// One dispatch carries a path at most once, however often the candidate
/// list repeats it, and never a path that was already known.
pub proof fn lemma_no_duplicate_dispatch(known: Set<Seq<char>>, candidates: Seq<Seq<char>>)
    ensures
        new_batch(known, candidates).no_duplicates(),
        forall|p: int|
            0 <= p < new_batch(known, candidates).len() ==> !known.contains(
                #[trigger] new_batch(known, candidates)[p],
            ),
    decreases candidates.len(),
{
    if candidates.len() == 0 {
    } else {
        let c0 = candidates[0];
        if known.contains(c0) {
            lemma_no_duplicate_dispatch(known, candidates.skip(1));
        } else {
            lemma_no_duplicate_dispatch(known.insert(c0), candidates.skip(1));
            let b = new_batch(known.insert(c0), candidates.skip(1));
            let r = new_batch(known, candidates);
            assert(r == seq![c0] + b);
            assert(forall|p: int| 0 <= p < b.len() ==> r[p + 1] == #[trigger] b[p]);
            assert(forall|p: int| 0 < p < r.len() ==> r[p] == b[p - 1] && r[p] != c0);
        }
    }
}

/// A path once known is never dispatched again: scans may lose it and later
/// show it anew, the batch still avoids every known path.
pub proof fn lemma_no_redispatch(known: Set<Seq<char>>, candidates: Seq<Seq<char>>, p: Seq<char>)
    requires
        known.contains(p),
    ensures
        !new_batch(known, candidates).contains(p),
{
    lemma_no_duplicate_dispatch(known, candidates);
    if new_batch(known, candidates).contains(p) {
        let i = choose|i: int|
            0 <= i < new_batch(known, candidates).len() && new_batch(known, candidates)[i] == p;
        assert(!known.contains(new_batch(known, candidates)[i]));
    }
}

/// On a first run nothing is known, so any non-empty candidate list makes
/// the first update report a change.
pub proof fn lemma_first_update_changes(candidates: Seq<Seq<char>>)
    requires
        candidates.len() > 0,
    ensures
        new_batch(Set::<Seq<char>>::empty(), candidates).len() > 0,
{
    lemma_new_batch_empty(Set::<Seq<char>>::empty(), candidates);
    assert(candidates.contains(candidates[0])) by {
        assert(0 <= 0 < candidates.len() && candidates[0] == candidates[0]);
    }
    assert(candidates.to_set().contains(candidates[0]));
}

/// The saved order of two paths: by sort key, and between equal keys by the
/// full path, so the saved image is deterministic.
pub open spec fn path_le(a: Seq<char>, b: Seq<char>, ps: Seq<Seq<char>>) -> bool {
    if sort_key(a, ps) == sort_key(b, ps) {
        lex_le(a, b)
    } else {
        lex_le(sort_key(a, ps), sort_key(b, ps))
    }
}

/// `x` placed into an already ordered sequence, before the first element it
/// precedes or ties with.
pub open spec fn insert_sorted(x: Seq<char>, s: Seq<Seq<char>>, ps: Seq<Seq<char>>) -> Seq<
    Seq<char>,
>
    decreases s.len(),
{
    if s.len() == 0 {
        seq![x]
    } else if path_le(x, s[0], ps) {
        seq![x] + s
    } else {
        seq![s[0]] + insert_sorted(x, s.skip(1), ps)
    }
}

/// The paths of `s` arranged in saved order.
pub open spec fn sort_paths(s: Seq<Seq<char>>, ps: Seq<Seq<char>>) -> Seq<Seq<char>>
    decreases s.len(),
{
    if s.len() == 0 {
        s
    } else {
        insert_sorted(s[0], sort_paths(s.skip(1), ps), ps)
    }
}

/// The saved order relates any two paths in at least one direction.
pub proof fn lemma_path_le_total(a: Seq<char>, b: Seq<char>, ps: Seq<Seq<char>>)
    ensures
        path_le(a, b, ps) || path_le(b, a, ps),
{
    if sort_key(a, ps) == sort_key(b, ps) {
        lemma_lex_le_total(a, b);
    } else {
        lemma_lex_le_total(sort_key(a, ps), sort_key(b, ps));
    }
}

/// The saved order carries over a middle path.
pub proof fn lemma_path_le_trans(a: Seq<char>, b: Seq<char>, c: Seq<char>, ps: Seq<Seq<char>>)
    requires
        path_le(a, b, ps),
        path_le(b, c, ps),
    ensures
        path_le(a, c, ps),
{
    let ka = sort_key(a, ps);
    let kb = sort_key(b, ps);
    let kc = sort_key(c, ps);
    if ka == kb && kb == kc {
        lemma_lex_le_trans(a, b, c);
    } else if ka == kb {
        assert(lex_le(kb, kc));
    } else if kb == kc {
        assert(lex_le(ka, kb));
    } else {
        lemma_lex_le_trans(ka, kb, kc);
        if ka == kc {
            lemma_lex_le_antisym(ka, kb);
        }
    }
}

/// Inserting a path adds exactly it to the recorded collection.
proof fn lemma_insert_sorted_multiset(x: Seq<char>, s: Seq<Seq<char>>, ps: Seq<Seq<char>>)
    ensures
        insert_sorted(x, s, ps).to_multiset() == s.to_multiset().insert(x),
    decreases s.len(),
{
    broadcast use vstd::seq_lib::group_to_multiset_ensures;
    broadcast use vstd::multiset::group_multiset_axioms;

    if s.len() == 0 {
        assert(seq![x] =~= Seq::<Seq<char>>::empty().push(x));
        assert(seq![x].to_multiset() =~= s.to_multiset().insert(x));
    } else if path_le(x, s[0], ps) {
        lemma_multiset_commutative(seq![x], s);
        assert(seq![x] =~= Seq::<Seq<char>>::empty().push(x));
        assert((seq![x] + s).to_multiset() =~= s.to_multiset().insert(x));
    } else {
        lemma_insert_sorted_multiset(x, s.skip(1), ps);
        lemma_multiset_commutative(seq![s[0]], insert_sorted(x, s.skip(1), ps));
        lemma_multiset_commutative(seq![s[0]], s.skip(1));
        assert(seq![s[0]] + s.skip(1) =~= s);
        assert(seq![s[0]] =~= Seq::<Seq<char>>::empty().push(s[0]));
        assert((seq![s[0]] + insert_sorted(x, s.skip(1), ps)).to_multiset() =~= s.to_multiset()
            .insert(x));
    }
}

/// Sorting rearranges the recorded paths and loses or invents none.
pub proof fn lemma_sort_paths_multiset(s: Seq<Seq<char>>, ps: Seq<Seq<char>>)
    ensures
        sort_paths(s, ps).to_multiset() == s.to_multiset(),
    decreases s.len(),
{
    broadcast use vstd::seq_lib::group_to_multiset_ensures;
    broadcast use vstd::multiset::group_multiset_axioms;

    if s.len() > 0 {
        lemma_sort_paths_multiset(s.skip(1), ps);
        lemma_insert_sorted_multiset(s[0], sort_paths(s.skip(1), ps), ps);
        lemma_multiset_commutative(seq![s[0]], s.skip(1));
        assert(seq![s[0]] + s.skip(1) =~= s);
        assert(seq![s[0]] =~= Seq::<Seq<char>>::empty().push(s[0]));
        assert(sort_paths(s, ps).to_multiset() =~= s.to_multiset());
    }
}

/// Sorting holds exactly the paths it was given.
pub proof fn lemma_sort_paths_same_set(s: Seq<Seq<char>>, ps: Seq<Seq<char>>)
    ensures
        sort_paths(s, ps).to_set() == s.to_set(),
{
    broadcast use vstd::seq_lib::group_to_multiset_ensures;

    lemma_sort_paths_multiset(s, ps);
    assert forall|y: Seq<char>| #[trigger] sort_paths(s, ps).contains(y) implies s.contains(y) by {
        assert(sort_paths(s, ps).to_multiset().count(y) > 0);
    }
    assert forall|y: Seq<char>| #[trigger] s.contains(y) implies sort_paths(s, ps).contains(y) by {
        assert(s.to_multiset().count(y) > 0);
    }
    assert(sort_paths(s, ps).to_set() =~= s.to_set());
}

/// Insertion keeps the saved order.
proof fn lemma_insert_sorted_sorted(x: Seq<char>, s: Seq<Seq<char>>, ps: Seq<Seq<char>>)
    requires
        sorted_by(s, |a: Seq<char>, b: Seq<char>| path_le(a, b, ps)),
    ensures
        sorted_by(insert_sorted(x, s, ps), |a: Seq<char>, b: Seq<char>| path_le(a, b, ps)),
    decreases s.len(),
{
    broadcast use vstd::seq_lib::group_to_multiset_ensures;

    let le = |a: Seq<char>, b: Seq<char>| path_le(a, b, ps);
    let r = insert_sorted(x, s, ps);
    if s.len() == 0 {
        assert(sorted_by(r, le));
    } else if path_le(x, s[0], ps) {
        assert forall|i: int, j: int| 0 <= i < j < r.len() implies le(r[i], r[j]) by {
            if i == 0 {
                assert(r[j] == s[j - 1]);
                if j == 1 {
                    assert(le(x, s[0]));
                } else {
                    assert(le(s[0], s[j - 1]));
                    lemma_path_le_trans(x, s[0], s[j - 1], ps);
                }
            } else {
                assert(r[i] == s[i - 1] && r[j] == s[j - 1]);
                assert(le(s[i - 1], s[j - 1]));
            }
        }
    } else {
        let t = s.skip(1);
        assert(forall|i: int, j: int|
            0 <= i < j < t.len() ==> le(#[trigger] t[i], #[trigger] t[j])) by {
            assert(forall|i: int| 0 <= i < t.len() ==> #[trigger] t[i] == s[i + 1]);
        }
        lemma_insert_sorted_sorted(x, t, ps);
        let b = insert_sorted(x, t, ps);
        lemma_insert_sorted_multiset(x, t, ps);
        assert(r == seq![s[0]] + b);
        assert forall|i: int, j: int| 0 <= i < j < r.len() implies le(r[i], r[j]) by {
            if i == 0 {
                let y = r[j];
                assert(y == b[j - 1]);
                assert(b.contains(y)) by {
                    assert(b[j - 1] == y);
                }
                assert(b.to_multiset().count(y) > 0);
                if y == x {
                    lemma_path_le_total(x, s[0], ps);
                    assert(le(s[0], y));
                } else {
                    assert(t.to_multiset().insert(x).count(y) > 0);
                    assert(t.to_multiset().count(y) > 0) by {
                        broadcast use vstd::multiset::group_multiset_axioms;

                    }
                    assert(t.contains(y));
                    let k = choose|k: int| 0 <= k < t.len() && t[k] == y;
                    assert(s[k + 1] == y);
                    if k + 1 == 0 {
                    } else {
                        assert(le(s[0], s[k + 1]));
                    }
                }
            } else {
                assert(r[i] == b[i - 1] && r[j] == b[j - 1]);
                assert(le(b[i - 1], b[j - 1]));
            }
        }
    }
}

/// What `save` writes is in saved order: sorted by prefix-stripped final
/// segment, ties broken by the full path.
pub proof fn lemma_sort_paths_sorted(s: Seq<Seq<char>>, ps: Seq<Seq<char>>)
    ensures
        sorted_by(sort_paths(s, ps), |a: Seq<char>, b: Seq<char>| path_le(a, b, ps)),
    decreases s.len(),
{
    if s.len() > 0 {
        lemma_sort_paths_sorted(s.skip(1), ps);
        lemma_insert_sorted_sorted(s[0], sort_paths(s.skip(1), ps), ps);
    }
}

/// The saved order is a total order on paths.
pub proof fn lemma_path_le_total_ordering(ps: Seq<Seq<char>>)
    ensures
        total_ordering(|a: Seq<char>, b: Seq<char>| path_le(a, b, ps)),
{
    let le = |a: Seq<char>, b: Seq<char>| path_le(a, b, ps);
    assert forall|x: Seq<char>| #[trigger] le(x, x) by {
        lemma_lex_le_refl(x);
    }
    assert forall|x: Seq<char>, y: Seq<char>| #[trigger] le(x, y) && #[trigger] le(y, x) implies x
        == y by {
        if sort_key(x, ps) == sort_key(y, ps) {
            lemma_lex_le_antisym(x, y);
        } else {
            lemma_lex_le_antisym(sort_key(x, ps), sort_key(y, ps));
        }
    }
    assert forall|x: Seq<char>, y: Seq<char>, z: Seq<char>|
        #[trigger] le(x, y) && #[trigger] le(y, z) implies le(x, z) by {
        lemma_path_le_trans(x, y, z, ps);
    }
    assert forall|x: Seq<char>, y: Seq<char>| #[trigger] le(x, y) || #[trigger] le(y, x) by {
        lemma_path_le_total(x, y, ps);
    }
}

/// Two well-formed lists recording the same set of paths save the same
/// image: the persisted order owes nothing to the order of discovery.
pub proof fn lemma_save_deterministic(a: FileList, b: FileList)
    requires
        a.wf(),
        b.wf(),
        a.known() == b.known(),
        a.prefixes.deep_view() == b.prefixes.deep_view(),
    ensures
        join_lines(sort_paths(a.files.deep_view(), a.prefixes.deep_view())) == join_lines(
            sort_paths(b.files.deep_view(), b.prefixes.deep_view()),
        ),
{
    broadcast use vstd::seq_lib::group_to_multiset_ensures;
    broadcast use vstd::multiset::group_multiset_axioms;

    let ps = a.prefixes.deep_view();
    let fa = a.files.deep_view();
    let fb = b.files.deep_view();
    let le = |x: Seq<char>, y: Seq<char>| path_le(x, y, ps);
    assert(fa.no_duplicates());
    assert(fb.no_duplicates());
    fa.lemma_multiset_has_no_duplicates();
    fb.lemma_multiset_has_no_duplicates();
    assert forall|y: Seq<char>| true implies #[trigger] fa.to_multiset().count(y)
        == fb.to_multiset().count(y) by {
        if fa.contains(y) {
            assert(fa.to_set().contains(y));
            assert(fb.contains(y));
        } else if fb.contains(y) {
            assert(fb.to_set().contains(y));
            assert(fa.contains(y));
        } else {
            assert(fa.to_multiset().count(y) == 0);
            assert(fb.to_multiset().count(y) == 0);
        }
    }
    assert(fa.to_multiset() =~= fb.to_multiset());
    lemma_sort_paths_multiset(fa, ps);
    lemma_sort_paths_multiset(fb, ps);
    lemma_sort_paths_sorted(fa, ps);
    lemma_sort_paths_sorted(fb, ps);
    lemma_path_le_total_ordering(ps);
    lemma_sorted_unique(sort_paths(fa, ps), sort_paths(fb, ps), le);
}

/// Saving and then loading the saved image gives back exactly the recorded
/// set, independent of the order the paths were recorded in: what `save`
/// writes for a list splits back into lines whose set is the list's own,
/// provided every path is non-empty and free of line terminators.
pub proof fn lemma_save_load_round_trip(fl: FileList)
    requires
        forall|i: int|
            0 <= i < fl.files.deep_view().len() ==> line_safe(#[trigger] fl.files.deep_view()[i]),
    ensures
        split_lines(join_lines(sort_paths(fl.files.deep_view(), fl.prefixes.deep_view()))).to_set()
            == fl.known(),
{
    broadcast use vstd::seq_lib::group_to_multiset_ensures;

    let files = fl.files.deep_view();
    let ps = fl.prefixes.deep_view();
    let sorted = sort_paths(files, ps);
    lemma_sort_paths_multiset(files, ps);
    assert forall|i: int| 0 <= i < sorted.len() implies line_safe(#[trigger] sorted[i]) by {
        assert(sorted.contains(sorted[i])) by {
            assert(sorted[i] == sorted[i]);
        }
        assert(sorted.to_multiset().count(sorted[i]) > 0);
        assert(files.contains(sorted[i]));
        let k = choose|k: int| 0 <= k < files.len() && files[k] == sorted[i];
        assert(line_safe(files[k]));
    }
    lemma_split_join(sorted);
    lemma_sort_paths_same_set(files, ps);
}

/// Where the scan of an ordered sequence stops, the insertion splits it.
proof fn lemma_insert_sorted_split(x: Seq<char>, s: Seq<Seq<char>>, ps: Seq<Seq<char>>, j: int)
    requires
        0 <= j <= s.len(),
        forall|k: int| 0 <= k < j ==> !path_le(x, #[trigger] s[k], ps),
        j < s.len() ==> path_le(x, s[j], ps),
    ensures
        insert_sorted(x, s, ps) == s.take(j) + seq![x] + s.skip(j),
    decreases j,
{
    if j == 0 {
        if s.len() == 0 {
            assert(insert_sorted(x, s, ps) =~= s.take(0) + seq![x] + s.skip(0));
        } else {
            assert(path_le(x, s[0], ps));
            assert(s.take(0) + seq![x] + s.skip(0) =~= seq![x] + s);
        }
    } else {
        assert(!path_le(x, s[0], ps));
        let t = s.skip(1);
        assert(forall|k: int| 0 <= k < j - 1 ==> t[k] == s[k + 1]);
        lemma_insert_sorted_split(x, t, ps, j - 1);
        assert(seq![s[0]] + (t.take(j - 1) + seq![x] + t.skip(j - 1)) =~= s.take(j) + seq![x]
            + s.skip(j));
    }
}

/// Compares two paths in saved order.
pub fn path_le_exec(a: &str, b: &str, prefixes: &[String]) -> (r: bool)
    ensures
        r == path_le(a@, b@, prefixes.deep_view()),
{
    let ka = remove_prefix(a, prefixes);
    let kb = remove_prefix(b, prefixes);
    if str_eq(ka.as_str(), kb.as_str()) {
        lex_le_exec(a, b)
    } else {
        lex_le_exec(ka.as_str(), kb.as_str())
    }
}

/// Places `x` into an already ordered vector.
fn insert_sorted_exec(x: String, v: Vec<String>, prefixes: &[String]) -> (r: Vec<String>)
    ensures
        r.deep_view() == insert_sorted(x@, v.deep_view(), prefixes.deep_view()),
{
    let ghost dv = v.deep_view();
    let ghost ps = prefixes.deep_view();
    let n = v.len();
    let mut j: usize = 0;
    while j < n && !path_le_exec(x.as_str(), v[j].as_str(), prefixes)
        invariant
            j <= n,
            n == v@.len(),
            dv == v.deep_view(),
            ps == prefixes.deep_view(),
            forall|k: int| 0 <= k < j ==> !path_le(x@, #[trigger] dv[k], ps),
        decreases n - j,
    {
        j = j + 1;
    }
    proof {
        lemma_insert_sorted_split(x@, dv, ps, j as int);
    }
    let mut r = v;
    r.insert(j, x);
    proof {
        assert(r.deep_view() =~= dv.take(j as int) + seq![x@] + dv.skip(j as int));
    }
    r
}

/// Arranges paths in saved order.
pub fn sort_paths_exec(v: &Vec<String>, prefixes: &[String]) -> (r: Vec<String>)
    ensures
        r.deep_view() == sort_paths(v.deep_view(), prefixes.deep_view()),
{
    let ghost dv = v.deep_view();
    let ghost ps = prefixes.deep_view();
    let n = v.len();
    let mut r: Vec<String> = Vec::new();
    let mut i: usize = n;
    proof {
        assert(dv.skip(n as int) =~= Seq::<Seq<char>>::empty());
        assert(r.deep_view() =~= sort_paths(dv.skip(n as int), ps));
    }
    while i > 0
        invariant
            i <= n,
            n == v@.len(),
            dv == v.deep_view(),
            ps == prefixes.deep_view(),
            r.deep_view() == sort_paths(dv.skip(i as int), ps),
        decreases i,
    {
        i = i - 1;
        let next = insert_sorted_exec(v[i].clone(), r, prefixes);
        r = next;
        proof {
            assert(dv.skip(i as int)[0] == dv[i as int]);
            assert(dv.skip(i as int).skip(1) =~= dv.skip(i + 1));
            assert(r.deep_view() == insert_sorted(dv[i as int], sort_paths(dv.skip(i + 1), ps), ps));
        }
    }
    proof {
        assert(dv.skip(0) =~= dv);
    }
    r
}

impl FileList {
    /// The set of every recorded path.
    pub open spec fn known(&self) -> Set<Seq<char>> {
        self.files.deep_view().to_set()
    }

    /// No path is recorded twice.
    pub open spec fn wf(&self) -> bool {
        forall|i: int, j: int|
            0 <= i < j < self.files.deep_view().len() ==> self.files.deep_view()[i]
                != self.files.deep_view()[j]
    }

    /// Builds the list from the persisted contents of its storage location:
    /// one path per line, duplicates collapsing into one. An absent location
    /// (`None`) is a first run and gives an empty list, not an error.
    pub fn load(file_name: &str, prefixes: &[String], contents: Option<&str>) -> (r: FileList)
        ensures
            r.wf(),
            r.file_name@ == file_name@,
            r.prefixes.deep_view() == prefixes.deep_view(),
            r.known() == match contents {
                Option::Some(c) => split_lines(c@).to_set(),
                Option::None => Set::<Seq<char>>::empty(),
            },
    {
        let mut files: Vec<String> = Vec::new();
        match contents {
            Option::None => {
                proof {
                    assert(files.deep_view() =~= Seq::<Seq<char>>::empty());
                    assert(files.deep_view().to_set() =~= Set::<Seq<char>>::empty());
                }
            },
            Option::Some(c) => {
                let lines = split_lines_exec(c);
                let ghost lv = lines.deep_view();
                let n = lines.len();
                let mut i: usize = 0;
                proof {
                    assert(files.deep_view() =~= Seq::<Seq<char>>::empty());
                    assert(files.deep_view().to_set() =~= lv.take(0).to_set());
                }
                while i < n
                    invariant
                        i <= n,
                        n == lines@.len(),
                        lv == lines.deep_view(),
                        lv.len() == n,
                        forall|p: int, q: int|
                            0 <= p < q < files.deep_view().len() ==> files.deep_view()[p]
                                != files.deep_view()[q],
                        files.deep_view().to_set() == lv.take(i as int).to_set(),
                    decreases n - i,
                {
                    let ghost old_deep = files.deep_view();
                    let present = contains_str(&files, lines[i].as_str());
                    if !present {
                        files.push(lines[i].clone());
                    }
                    proof {
                        assert(lv[i as int] == lines@[i as int]@);
                        assert(lv.take(i + 1).drop_last() =~= lv.take(i as int));
                        broadcast use vstd::seq::Seq::lemma_push_to_set_commute;

                        assert(lv.take(i + 1) =~= lv.take(i as int).push(lv[i as int]));
                        if present {
                            assert(old_deep.to_set().contains(lv[i as int]));
                            assert(lv.take(i + 1).to_set() =~= lv.take(i as int).to_set().insert(
                                lv[i as int],
                            ));
                            assert(files.deep_view().to_set() =~= lv.take(i + 1).to_set());
                        } else {
                            assert(files.deep_view() =~= old_deep.push(lv[i as int]));
                            assert(files.deep_view().to_set() =~= old_deep.to_set().insert(
                                lv[i as int],
                            ));
                            assert(forall|p: int|
                                0 <= p < old_deep.len() ==> files.deep_view()[p] == old_deep[p]);
                        }
                    }
                    i = i + 1;
                }
                proof {
                    assert(lv.take(n as int) =~= lv);
                }
            },
        }
        let mut owned_prefixes: Vec<String> = Vec::new();
        let np = prefixes.len();
        let mut k: usize = 0;
        proof {
            assert(owned_prefixes.deep_view() =~= prefixes.deep_view().take(0));
        }
        while k < np
            invariant
                k <= np,
                np == prefixes@.len(),
                owned_prefixes.deep_view() == prefixes.deep_view().take(k as int),
            decreases np - k,
        {
            let ghost old_deep = owned_prefixes.deep_view();
            owned_prefixes.push(prefixes[k].clone());
            proof {
                assert(owned_prefixes.deep_view() =~= old_deep.push(prefixes.deep_view()[k as int]));
                assert(prefixes.deep_view().take(k + 1) =~= prefixes.deep_view().take(
                    k as int,
                ).push(prefixes.deep_view()[k as int]));
            }
            k = k + 1;
        }
        proof {
            assert(prefixes.deep_view().take(np as int) =~= prefixes.deep_view());
        }
        FileList { files, file_name: String::from_str(file_name), prefixes: owned_prefixes }
    }

    /// Records every candidate not yet known and builds the one dispatch for
    /// the batch of new ones: the processor's command with the batch appended,
    /// `None` when nothing is new. Returns whether the set grew, so the
    /// caller knows to persist. A candidate appearing twice is recorded and
    /// dispatched once, and nothing is ever removed.
    pub fn update(&mut self, new_files: &Vec<String>, processor: &Processor) -> (r: (
        bool,
        Option<Vec<String>>,
    ))
        requires
            old(self).wf(),
            processor.wf(),
        ensures
            final(self).wf(),
            final(self).file_name == old(self).file_name,
            final(self).prefixes == old(self).prefixes,
            final(self).known() == old(self).known().union(new_files.deep_view().to_set()),
            old(self).known().subset_of(final(self).known()),
            r.0 == (new_batch(old(self).known(), new_files.deep_view()).len() > 0),
            match r.1 {
                Option::Some(argv) => r.0 && argv.deep_view() == split_ws(processor.command@)
                    + new_batch(old(self).known(), new_files.deep_view()),
                Option::None => !r.0,
            },
    {
        let ghost old_known = self.known();
        let ghost cv = new_files.deep_view();
        let mut batch: Vec<String> = Vec::new();
        let n = new_files.len();
        let mut i: usize = 0;
        proof {
            assert(cv.skip(0) =~= cv);
            assert(batch.deep_view() + new_batch(self.known(), cv) =~= new_batch(old_known, cv));
            assert(cv.take(0).to_set() =~= Set::<Seq<char>>::empty());
            assert(self.known() =~= old_known.union(cv.take(0).to_set()));
        }
        while i < n
            invariant
                i <= n,
                n == new_files@.len(),
                cv == new_files.deep_view(),
                cv.len() == n,
                self.wf(),
                self.file_name == old(self).file_name,
                self.prefixes == old(self).prefixes,
                processor.wf(),
                batch.deep_view() + new_batch(self.known(), cv.skip(i as int)) == new_batch(
                    old_known,
                    cv,
                ),
                self.known() == old_known.union(cv.take(i as int).to_set()),
            decreases n - i,
        {
            let ghost cur_known = self.known();
            let ghost rest = cv.skip(i as int);
            let present = contains_str(&self.files, new_files[i].as_str());
            proof {
                assert(rest[0] == cv[i as int]);
                assert(cv[i as int] == new_files@[i as int]@);
                assert(rest.skip(1) =~= cv.skip(i + 1));
                assert(present == cur_known.contains(cv[i as int]));
                broadcast use vstd::seq::Seq::lemma_push_to_set_commute;

                assert(cv.take(i + 1) =~= cv.take(i as int).push(cv[i as int]));
            }
            if !present {
                let ghost old_files_deep = self.files.deep_view();
                let ghost old_batch_deep = batch.deep_view();
                self.files.push(new_files[i].clone());
                batch.push(new_files[i].clone());
                proof {
                    assert(self.files.deep_view() =~= old_files_deep.push(cv[i as int]));
                    assert(batch.deep_view() =~= old_batch_deep.push(cv[i as int]));
                    assert(forall|p: int|
                        0 <= p < old_files_deep.len() ==> self.files.deep_view()[p]
                            == old_files_deep[p]);
                    assert(self.known() =~= cur_known.insert(cv[i as int]));
                    assert(new_batch(cur_known, rest) == seq![rest[0]] + new_batch(
                        cur_known.insert(rest[0]),
                        rest.skip(1),
                    ));
                    assert(batch.deep_view() + new_batch(self.known(), cv.skip(i + 1))
                        =~= old_batch_deep + new_batch(cur_known, rest));
                    assert(self.known() =~= old_known.union(cv.take(i + 1).to_set()));
                }
            } else {
                proof {
                    assert(new_batch(cur_known, rest) == new_batch(cur_known, rest.skip(1)));
                    assert(cur_known.insert(cv[i as int]) =~= cur_known);
                    assert(self.known() =~= old_known.union(cv.take(i + 1).to_set()));
                }
            }
            i = i + 1;
        }
        proof {
            assert(cv.skip(n as int) =~= Seq::<Seq<char>>::empty());
            assert(new_batch(self.known(), cv.skip(n as int)) =~= Seq::<Seq<char>>::empty());
            assert(batch.deep_view() + Seq::<Seq<char>>::empty() =~= batch.deep_view());
            assert(batch.deep_view() == new_batch(old_known, cv));
            assert(cv.take(n as int) =~= cv);
        }
        if batch.len() > 0 {
            let argv = processor.process(&batch);
            (true, Option::Some(argv))
        } else {
            (false, Option::None)
        }
    }

    /// The persisted image of the list: every recorded path, one per line,
    /// in saved order — sorted by prefix-stripped final segment, ties broken
    /// by the full path.
    pub fn save(&self) -> (contents: String)
        ensures
            contents@ == join_lines(
                sort_paths(self.files.deep_view(), self.prefixes.deep_view()),
            ),
    {
        let sorted = sort_paths_exec(&self.files, self.prefixes.as_slice());
        join_lines_exec(&sorted)
    }
}

} // verus!
