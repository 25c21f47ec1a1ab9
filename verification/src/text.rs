//! Character-sequence utilities shared by the whole library: locating
//! separator characters, taking a path's final segment, removing every
//! occurrence of a substring, lexicographic ordering, and the line-oriented
//! format of the persisted file list.
use vstd::prelude::*;

verus! {

use vstd::string::StrSliceExecFns;
use vstd::string::StringExecFns;

/// The index of the last occurrence of `c` in `s`, or -1 if `c` does not
/// occur.
pub open spec fn last_index_of(s: Seq<char>, c: char) -> int
    decreases s.len(),
{
    if s.len() == 0 {
        -1
    } else if s[s.len() - 1] == c {
        s.len() - 1
    } else {
        last_index_of(s.drop_last(), c)
    }
}

/// What `last_index_of` returns: an in-range index of `c` with nothing equal
/// to `c` after it, or -1 when `c` does not occur at all.
pub proof fn lemma_last_index_of(s: Seq<char>, c: char)
    ensures
        -1 <= last_index_of(s, c) < s.len(),
        last_index_of(s, c) >= 0 ==> s[last_index_of(s, c)] == c,
        forall|i: int| last_index_of(s, c) < i < s.len() ==> s[i] != c,
    decreases s.len(),
{
    if s.len() > 0 && s[s.len() - 1] != c {
        lemma_last_index_of(s.drop_last(), c);
        assert(forall|i: int| 0 <= i < s.len() - 1 ==> s[i] == s.drop_last()[i]);
    }
}

/// The index of the first occurrence of `c` in `s`, or -1 if `c` does not
/// occur.
pub open spec fn first_index_of(s: Seq<char>, c: char) -> int
    decreases s.len(),
{
    if s.len() == 0 {
        -1
    } else if s[0] == c {
        0
    } else if first_index_of(s.skip(1), c) == -1 {
        -1
    } else {
        first_index_of(s.skip(1), c) + 1
    }
}

/// What `first_index_of` returns: an in-range index of `c` with nothing equal
/// to `c` before it, or -1 when `c` does not occur at all.
pub proof fn lemma_first_index_of(s: Seq<char>, c: char)
    ensures
        -1 <= first_index_of(s, c) < s.len(),
        first_index_of(s, c) >= 0 ==> s[first_index_of(s, c)] == c,
        forall|i: int| 0 <= i < first_index_of(s, c) ==> s[i] != c,
        first_index_of(s, c) == -1 ==> forall|i: int| 0 <= i < s.len() ==> s[i] != c,
    decreases s.len(),
{
    if s.len() > 0 && s[0] != c {
        lemma_first_index_of(s.skip(1), c);
        assert(forall|i: int| 1 <= i < s.len() ==> s[i] == s.skip(1)[i - 1]);
    }
}

/// The final segment of a path: everything after the last `/`, or the whole
/// string when it holds no `/`.
pub open spec fn last_segment(s: Seq<char>) -> Seq<char> {
    s.subrange(last_index_of(s, '/') + 1, s.len() as int)
}

/// Finds the last occurrence of `c` in `s`, scanning characters from the end.
pub fn find_last(s: &str, c: char) -> (r: Option<usize>)
    ensures
        match r {
            Some(j) => last_index_of(s@, c) == j,
            None => last_index_of(s@, c) == -1,
        },
{
    proof {
        lemma_last_index_of(s@, c);
    }
    let n = s.unicode_len();
    let mut i = n;
    while i > 0
        invariant
            i <= n,
            n == s@.len(),
            forall|j: int| i <= j < n ==> s@[j] != c,
        decreases i,
    {
        i = i - 1;
        if s.get_char(i) == c {
            proof {
                lemma_last_index_of(s@, c);
                let li = last_index_of(s@, c);
                if li > i {
                    assert(s@[li] != c);
                }
            }
            return Some(i);
        }
    }
    None
}

/// Returns the final segment of `s`: everything after the last `/`.
pub fn last_segment_of(s: &str) -> (r: &str)
    ensures
        r@ == last_segment(s@),
{
    proof {
        lemma_last_index_of(s@, '/');
    }
    let n = s.unicode_len();
    match find_last(s, '/') {
        None => {
            let r = s.substring_char(0, n);
            r
        },
        Some(j) => {
            let r = s.substring_char(j + 1, n);
            r
        },
    }
}

/// True when the characters of `s` from `i` on start with `pat`.
pub fn matches_at(s: &str, i: usize, pat: &str) -> (r: bool)
    requires
        i + pat@.len() <= s@.len(),
    ensures
        r == (s@.subrange(i as int, i + pat@.len()) == pat@),
{
    let m = pat.unicode_len();
    let sn = s.unicode_len();
    let mut j: usize = 0;
    while j < m
        invariant
            j <= m,
            m == pat@.len(),
            sn == s@.len(),
            i + m <= sn,
            forall|k: int| 0 <= k < j ==> s@[i + k] == pat@[k],
        decreases m - j,
    {
        if s.get_char(i + j) != pat.get_char(j) {
            assert(s@.subrange(i as int, i + pat@.len())[j as int] != pat@[j as int]);
            return false;
        }
        j = j + 1;
    }
    assert(s@.subrange(i as int, i + pat@.len()) =~= pat@);
    true
}

/// True when `a` and `b` hold the same characters.
pub fn str_eq(a: &str, b: &str) -> (r: bool)
    ensures
        r == (a@ == b@),
{
    let n = a.unicode_len();
    if n != b.unicode_len() {
        return false;
    }
    let mut i: usize = 0;
    while i < n
        invariant
            i <= n,
            n == a@.len(),
            n == b@.len(),
            forall|k: int| 0 <= k < i ==> a@[k] == b@[k],
        decreases n - i,
    {
        if a.get_char(i) != b.get_char(i) {
            return false;
        }
        i = i + 1;
    }
    assert(a@ =~= b@);
    true
}

/// True when some element of `v` holds the characters of `x`.
pub fn contains_str(v: &Vec<String>, x: &str) -> (r: bool)
    ensures
        r == v.deep_view().contains(x@),
{
    let n = v.len();
    let mut i: usize = 0;
    while i < n
        invariant
            i <= n,
            n == v@.len(),
            forall|k: int| 0 <= k < i ==> v.deep_view()[k] != x@,
        decreases n - i,
    {
        if str_eq(v[i].as_str(), x) {
            proof {
                assert(v.deep_view()[i as int] == x@);
            }
            return true;
        }
        i = i + 1;
    }
    false
}

/// `s` with every occurrence of `pat` removed, scanning left to right and
/// never rescanning text that an earlier removal brought together. An empty
/// `pat` removes nothing.
pub open spec fn remove_all(s: Seq<char>, pat: Seq<char>) -> Seq<char>
    decreases s.len(),
{
    if pat.len() == 0 || s.len() < pat.len() {
        s
    } else if s.take(pat.len() as int) == pat {
        remove_all(s.skip(pat.len() as int), pat)
    } else {
        seq![s[0]] + remove_all(s.skip(1), pat)
    }
}

/// Removes every occurrence of `pat` from `s`, left to right.
pub fn remove_all_exec(s: &str, pat: &str) -> (r: String)
    ensures
        r@ == remove_all(s@, pat@),
{
    let n = s.unicode_len();
    let m = pat.unicode_len();
    if m == 0 {
        let r = String::from_str(s);
        return r;
    }
    let mut out = String::new();
    let mut i: usize = 0;
    proof {
        assert(s@.skip(0) =~= s@);
    }
    while i < n
        invariant
            i <= n,
            n == s@.len(),
            m == pat@.len(),
            m >= 1,
            out@ + remove_all(s@.skip(i as int), pat@) == remove_all(s@, pat@),
        decreases n - i,
    {
        let ghost pre = s@.skip(i as int);
        if m <= n - i && matches_at(s, i, pat) {
            proof {
                assert(pre.take(m as int) =~= s@.subrange(i as int, i + m));
                assert(pre.skip(m as int) =~= s@.skip(i + m));
            }
            i = i + m;
        } else {
            let piece = s.substring_char(i, i + 1);
            out.append(piece);
            proof {
                if i + m <= n {
                    assert(pre.take(m as int) =~= s@.subrange(i as int, i + m));
                }
                assert(pre.skip(1) =~= s@.skip(i + 1));
                assert(seq![pre[0]] =~= piece@);
                assert(out@ + remove_all(s@.skip(i + 1), pat@) == remove_all(s@, pat@));
            }
            i = i + 1;
        }
    }
    proof {
        assert(s@.skip(n as int) =~= Seq::<char>::empty());
    }
    out
}

/// Lexicographic order on character sequences, comparing characters by code
/// point: the order Rust gives strings.
pub open spec fn lex_le(a: Seq<char>, b: Seq<char>) -> bool
    decreases a.len(),
{
    if a.len() == 0 {
        true
    } else if b.len() == 0 {
        false
    } else if a[0] == b[0] {
        lex_le(a.skip(1), b.skip(1))
    } else {
        (a[0] as int) < (b[0] as int)
    }
}

/// `lex_le` relates itself: every sequence is at or below itself.
pub proof fn lemma_lex_le_refl(a: Seq<char>)
    ensures
        lex_le(a, a),
    decreases a.len(),
{
    if a.len() > 0 {
        lemma_lex_le_refl(a.skip(1));
    }
}

/// `lex_le` holds in at least one direction between any two sequences.
pub proof fn lemma_lex_le_total(a: Seq<char>, b: Seq<char>)
    ensures
        lex_le(a, b) || lex_le(b, a),
    decreases a.len(),
{
    if a.len() == 0 {
    } else if b.len() == 0 {
    } else if a[0] == b[0] {
        lemma_lex_le_total(a.skip(1), b.skip(1));
    } else {
        let x: char = a[0];
        let y: char = b[0];
        assert(x as int != y as int);
        if (x as int) < (y as int) {
            assert(lex_le(a, b));
        } else {
            assert(lex_le(b, a));
        }
    }
}

/// `lex_le` in both directions forces equality.
pub proof fn lemma_lex_le_antisym(a: Seq<char>, b: Seq<char>)
    requires
        lex_le(a, b),
        lex_le(b, a),
    ensures
        a == b,
    decreases a.len(),
{
    if a.len() > 0 && b.len() > 0 && a[0] == b[0] {
        lemma_lex_le_antisym(a.skip(1), b.skip(1));
        assert(a =~= seq![a[0]] + a.skip(1));
        assert(b =~= seq![b[0]] + b.skip(1));
    } else {
        assert(a.len() == 0 && b.len() == 0);
        assert(a =~= b);
    }
}

/// `lex_le` carries over a middle sequence.
pub proof fn lemma_lex_le_trans(a: Seq<char>, b: Seq<char>, c: Seq<char>)
    requires
        lex_le(a, b),
        lex_le(b, c),
    ensures
        lex_le(a, c),
    decreases a.len(),
{
    if a.len() > 0 && b.len() > 0 && c.len() > 0 {
        if a[0] == b[0] && b[0] == c[0] {
            lemma_lex_le_trans(a.skip(1), b.skip(1), c.skip(1));
        }
    }
}

/// Compares two strings lexicographically by code point.
pub fn lex_le_exec(a: &str, b: &str) -> (r: bool)
    ensures
        r == lex_le(a@, b@),
{
    let na = a.unicode_len();
    let nb = b.unicode_len();
    let mut i: usize = 0;
    proof {
        assert(a@.skip(0) =~= a@);
        assert(b@.skip(0) =~= b@);
    }
    while i < na && i < nb
        invariant
            i <= na,
            i <= nb,
            na == a@.len(),
            nb == b@.len(),
            lex_le(a@, b@) == lex_le(a@.skip(i as int), b@.skip(i as int)),
        decreases na - i,
    {
        let ca = a.get_char(i);
        let cb = b.get_char(i);
        proof {
            assert(a@.skip(i as int).skip(1) =~= a@.skip(i + 1));
            assert(b@.skip(i as int).skip(1) =~= b@.skip(i + 1));
        }
        if ca as u32 != cb as u32 {
            return (ca as u32) < (cb as u32);
        }
        i = i + 1;
    }
    i >= na
}

/// A line as the loader keeps it: a trailing carriage return is dropped, so
/// a list written with CRLF line endings loads as the same paths.
pub open spec fn strip_cr(t: Seq<char>) -> Seq<char> {
    if t.len() > 0 && t[t.len() - 1] == '\r' {
        t.drop_last()
    } else {
        t
    }
}

/// A path that the line-oriented list format can carry faithfully: non-empty
/// and free of line terminators.
pub open spec fn line_safe(p: Seq<char>) -> bool {
    p.len() > 0 && forall|i: int| 0 <= i < p.len() ==> p[i] != '\n' && p[i] != '\r'
}

/// The lines of `s`: chunks between `\n` characters, each with a trailing
/// carriage return dropped. Empty input has no lines, and a final newline
/// ends the last line rather than opening an empty one.
pub open spec fn split_lines(s: Seq<char>) -> Seq<Seq<char>>
    decreases s.len(),
    via split_lines_decreases
{
    if s.len() == 0 {
        Seq::empty()
    } else if first_index_of(s, '\n') == -1 {
        seq![strip_cr(s)]
    } else {
        seq![strip_cr(s.take(first_index_of(s, '\n')))] + split_lines(
            s.skip(first_index_of(s, '\n') + 1),
        )
    }
}

#[via_fn]
proof fn split_lines_decreases(s: Seq<char>) {
    lemma_first_index_of(s, '\n');
}

/// The persisted image of a list of lines: the lines joined by single `\n`
/// characters, with no trailing newline.
pub open spec fn join_lines(ss: Seq<Seq<char>>) -> Seq<char>
    decreases ss.len(),
{
    if ss.len() == 0 {
        Seq::empty()
    } else if ss.len() == 1 {
        ss[0]
    } else {
        ss[0] + seq!['\n'] + join_lines(ss.skip(1))
    }
}

/// Joining lines and splitting the result gives the lines back, provided
/// each is non-empty and free of line terminators.
pub proof fn lemma_split_join(ss: Seq<Seq<char>>)
    requires
        forall|i: int| 0 <= i < ss.len() ==> line_safe(#[trigger] ss[i]),
    ensures
        split_lines(join_lines(ss)) == ss,
    decreases ss.len(),
{
    let s = join_lines(ss);
    lemma_first_index_of(s, '\n');
    if ss.len() == 0 {
        assert(split_lines(s) =~= ss);
    } else if ss.len() == 1 {
        assert(line_safe(ss[0]));
        assert(s == ss[0]);
        assert(first_index_of(s, '\n') == -1) by {
            if first_index_of(s, '\n') >= 0 {
                assert(s[first_index_of(s, '\n')] == '\n');
            }
        }
        assert(strip_cr(s) == s);
        assert(split_lines(s) =~= ss);
    } else {
        let head = ss[0];
        let rest = join_lines(ss.skip(1));
        assert(s == head + seq!['\n'] + rest);
        let j = first_index_of(s, '\n');
        assert(s[head.len() as int] == '\n');
        assert(forall|i: int| 0 <= i < head.len() ==> s[i] == head[i] && s[i] != '\n');
        assert(j == head.len()) by {
            if j > head.len() {
                assert(s[head.len() as int] == '\n');
            }
            if 0 <= j < head.len() {
                assert(s[j] != '\n');
            }
        }
        assert(s.take(j) =~= head);
        assert(strip_cr(head) == head);
        assert(s.skip(j + 1) =~= rest);
        lemma_split_join(ss.skip(1));
        assert(split_lines(s) =~= seq![head] + split_lines(rest));
        assert(seq![head] + ss.skip(1) =~= ss);
    }
}

/// Splits persisted contents into lines.
pub fn split_lines_exec(s: &str) -> (r: Vec<String>)
    ensures
        r.deep_view() == split_lines(s@),
{
    let n = s.unicode_len();
    let mut out: Vec<String> = Vec::new();
    let mut pos: usize = 0;
    proof {
        assert(s@.skip(0) =~= s@);
        assert(out.deep_view() + split_lines(s@) =~= split_lines(s@));
    }
    while pos < n
        invariant
            pos <= n,
            n == s@.len(),
            out.deep_view() + split_lines(s@.skip(pos as int)) == split_lines(s@),
        decreases n - pos,
    {
        let ghost pre = s@.skip(pos as int);
        let mut j: usize = pos;
        while j < n && s.get_char(j) != '\n'
            invariant
                pos <= j <= n,
                n == s@.len(),
                forall|k: int| pos <= k < j ==> s@[k] != '\n',
            decreases n - j,
        {
            j = j + 1;
        }
        proof {
            lemma_first_index_of(pre, '\n');
            assert(forall|k: int| 0 <= k < j - pos ==> pre[k] == s@[pos + k] && pre[k] != '\n');
            if j < n {
                assert(pre[j - pos] == '\n');
                assert(first_index_of(pre, '\n') == j - pos) by {
                    let f = first_index_of(pre, '\n');
                    if f > j - pos {
                        assert(pre[j - pos] == '\n');
                    }
                    if 0 <= f < j - pos {
                        assert(pre[f] != '\n');
                    }
                    if f == -1 {
                        assert(pre[j - pos] == '\n');
                    }
                }
            } else {
                assert(first_index_of(pre, '\n') == -1) by {
                    let f = first_index_of(pre, '\n');
                    if f >= 0 {
                        assert(pre[f] != '\n');
                    }
                }
            }
        }
        let line = if j > pos && s.get_char(j - 1) == '\r' {
            let l = s.substring_char(pos, j - 1);
            proof {
                assert(pre.take(j - pos)[j - pos - 1] == '\r');
                assert(strip_cr(pre.take(j - pos)) =~= s@.subrange(pos as int, j - 1));
            }
            l
        } else {
            let l = s.substring_char(pos, j);
            proof {
                assert(pre.take(j - pos) =~= s@.subrange(pos as int, j as int));
                if j > pos {
                    assert(pre.take(j - pos)[j - pos - 1] == s@[j - 1]);
                }
                assert(strip_cr(pre.take(j - pos)) =~= s@.subrange(pos as int, j as int));
            }
            l
        };
        let ghost old_deep = out.deep_view();
        let owned = String::from_str(line);
        out.push(owned);
        let next_pos = if j < n {
            j + 1
        } else {
            n
        };
        proof {
            assert(out.deep_view() =~= old_deep.push(line@));
            if j < n {
                assert(pre.skip(j - pos + 1) =~= s@.skip(j + 1));
                assert(pre.take(j - pos) =~= pre.take(first_index_of(pre, '\n')));
                assert(split_lines(pre) == seq![strip_cr(pre.take(j - pos))] + split_lines(
                    s@.skip(j + 1),
                ));
            } else {
                assert(pre =~= pre.take(j - pos));
                assert(split_lines(pre) =~= seq![strip_cr(pre.take(j - pos))]);
                assert(s@.skip(n as int) =~= Seq::<char>::empty());
            }
            assert(out.deep_view() + split_lines(s@.skip(next_pos as int)) =~= split_lines(s@));
        }
        pos = next_pos;
    }
    proof {
        assert(s@.skip(n as int) =~= Seq::<char>::empty());
        assert(out.deep_view() + split_lines(Seq::<char>::empty()) =~= out.deep_view());
    }
    out
}

/// Joins lines with single `\n` separators, the persisted image of the list.
pub fn join_lines_exec(v: &Vec<String>) -> (r: String)
    ensures
        r@ == join_lines(v.deep_view()),
{
    let mut out = String::new();
    let n = v.len();
    let mut i: usize = 0;
    proof {
        assert(v.deep_view().take(0) =~= Seq::<Seq<char>>::empty());
    }
    while i < n
        invariant
            i <= n,
            n == v@.len(),
            v.deep_view().len() == n,
            out@ == join_lines(v.deep_view().take(i as int)),
        decreases n - i,
    {
        if i > 0 {
            out.append("\n");
        }
        out.append(v[i].as_str());
        proof {
            reveal_strlit("\n");
            lemma_join_lines_push(v.deep_view().take(i as int), v.deep_view()[i as int]);
            assert(v.deep_view().take(i as int).push(v.deep_view()[i as int]) =~= v.deep_view()
                .take(i + 1));
            assert(v@[i as int]@ == v.deep_view()[i as int]);
        }
        i = i + 1;
    }
    proof {
        assert(v.deep_view().take(n as int) =~= v.deep_view());
    }
    out
}

/// Appending one line extends the joined image by a separator and the line,
/// except at the front, where it is the image alone.
pub proof fn lemma_join_lines_push(ss: Seq<Seq<char>>, x: Seq<char>)
    ensures
        ss.len() == 0 ==> join_lines(ss.push(x)) == x,
        ss.len() > 0 ==> join_lines(ss.push(x)) == join_lines(ss) + seq!['\n'] + x,
    decreases ss.len(),
{
    let p = ss.push(x);
    if ss.len() == 0 {
        assert(p.len() == 1);
        assert(join_lines(p) == p[0]);
        assert(p[0] == x);
    } else {
        lemma_join_lines_push(ss.skip(1), x);
        assert(p.skip(1) =~= ss.skip(1).push(x));
        assert(p[0] == ss[0]);
        if ss.len() == 1 {
            assert(ss.skip(1).len() == 0);
            assert(join_lines(p) == p[0] + seq!['\n'] + join_lines(p.skip(1)));
            assert(join_lines(p.skip(1)) == x);
            assert(join_lines(ss) == ss[0]);
        } else {
            assert(join_lines(p) == p[0] + seq!['\n'] + join_lines(p.skip(1)));
            assert(join_lines(ss) == ss[0] + seq!['\n'] + join_lines(ss.skip(1)));
            assert(ss[0] + seq!['\n'] + (join_lines(ss.skip(1)) + seq!['\n'] + x) =~= (ss[0]
                + seq!['\n'] + join_lines(ss.skip(1))) + seq!['\n'] + x);
        }
    }
}

} // verus!
