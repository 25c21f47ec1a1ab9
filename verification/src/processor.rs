//! The dispatch side of the watcher: the configured command template, split
//! on whitespace into a program name and fixed arguments, and the argument
//! vector built for one batch of newly discovered files. Launching the child
//! process itself is outside work; the library fixes exactly what is run.
use vstd::prelude::*;

verus! {

use vstd::string::StrSliceExecFns;
use vstd::string::StringExecFns;

/// White space as the command template is split on: the Unicode white-space
/// characters.
pub open spec fn is_ws(c: char) -> bool {
    ||| c as int == 0x09
    ||| c as int == 0x0A
    ||| c as int == 0x0B
    ||| c as int == 0x0C
    ||| c as int == 0x0D
    ||| c as int == 0x20
    ||| c as int == 0x85
    ||| c as int == 0xA0
    ||| c as int == 0x1680
    ||| 0x2000 <= c as int <= 0x200A
    ||| c as int == 0x2028
    ||| c as int == 0x2029
    ||| c as int == 0x202F
    ||| c as int == 0x205F
    ||| c as int == 0x3000
}

/// Decides `is_ws` for one character.
pub fn is_ws_char(c: char) -> (r: bool)
    ensures
        r == is_ws(c),
{
    let u = c as u32;
    u == 0x09 || u == 0x0A || u == 0x0B || u == 0x0C || u == 0x0D || u == 0x20 || u == 0x85 || u
        == 0xA0 || u == 0x1680 || (0x2000 <= u && u <= 0x200A) || u == 0x2028 || u == 0x2029 || u
        == 0x202F || u == 0x205F || u == 0x3000
}

/// True when `s` holds at least one non-white-space character, so that
/// splitting it yields a program name.
pub open spec fn has_token(s: Seq<char>) -> bool {
    exists|i: int| 0 <= i < s.len() && !is_ws(s[i])
}

/// The length of the maximal non-white-space run at the front of `s`.
pub open spec fn token_len(s: Seq<char>) -> int
    decreases s.len(),
{
    if s.len() == 0 || is_ws(s[0]) {
        0
    } else {
        1 + token_len(s.skip(1))
    }
}

/// What `token_len` returns: the first `token_len(s)` characters are not
/// white space, and the next one, if any, is.
pub proof fn lemma_token_len(s: Seq<char>)
    ensures
        0 <= token_len(s) <= s.len(),
        forall|k: int| 0 <= k < token_len(s) ==> !is_ws(s[k]),
        token_len(s) < s.len() ==> is_ws(s[token_len(s)]),
    decreases s.len(),
{
    if s.len() > 0 && !is_ws(s[0]) {
        lemma_token_len(s.skip(1));
        assert(forall|k: int| 1 <= k < s.len() ==> s[k] == s.skip(1)[k - 1]);
    }
}

/// The white-space-separated tokens of `s`, in order: the program name first,
/// then the fixed arguments.
pub open spec fn split_ws(s: Seq<char>) -> Seq<Seq<char>>
    decreases s.len(),
    via split_ws_decreases
{
    if s.len() == 0 {
        Seq::empty()
    } else if is_ws(s[0]) {
        split_ws(s.skip(1))
    } else {
        seq![s.take(token_len(s))] + split_ws(s.skip(token_len(s)))
    }
}

#[via_fn]
proof fn split_ws_decreases(s: Seq<char>) {
    if s.len() > 0 && !is_ws(s[0]) {
        lemma_token_len(s);
    }
}

/// Splitting yields a token exactly when some character is not white space.
pub proof fn lemma_split_ws_has_token(s: Seq<char>)
    ensures
        split_ws(s).len() > 0 <==> has_token(s),
    decreases s.len(),
{
    if s.len() == 0 {
    } else if is_ws(s[0]) {
        lemma_split_ws_has_token(s.skip(1));
        assert(forall|k: int| 1 <= k < s.len() ==> s[k] == s.skip(1)[k - 1]);
        if has_token(s) {
            let i = choose|i: int| 0 <= i < s.len() && !is_ws(s[i]);
            assert(s.skip(1)[i - 1] == s[i]);
            assert(has_token(s.skip(1)));
        }
        if has_token(s.skip(1)) {
            let i = choose|i: int| 0 <= i < s.skip(1).len() && !is_ws(s.skip(1)[i]);
            assert(s[i + 1] == s.skip(1)[i]);
        }
    } else {
        assert(!is_ws(s[0]));
    }
}

/// Splits `s` on white space into its tokens.
fn tokenize(s: &str) -> (r: Vec<String>)
    ensures
        r.deep_view() == split_ws(s@),
{
    let n = s.unicode_len();
    let mut out: Vec<String> = Vec::new();
    let mut i: usize = 0;
    proof {
        assert(s@.skip(0) =~= s@);
        assert(out.deep_view() + split_ws(s@) =~= split_ws(s@));
    }
    while i < n
        invariant
            i <= n,
            n == s@.len(),
            out.deep_view() + split_ws(s@.skip(i as int)) == split_ws(s@),
        decreases n - i,
    {
        let ghost pre = s@.skip(i as int);
        let c = s.get_char(i);
        if is_ws_char(c) {
            proof {
                assert(pre.skip(1) =~= s@.skip(i + 1));
            }
            i = i + 1;
        } else {
            let mut j = i + 1;
            while j < n && !is_ws_char(s.get_char(j))
                invariant
                    i < j <= n,
                    n == s@.len(),
                    forall|k: int| i <= k < j ==> !is_ws(s@[k]),
                decreases n - j,
            {
                j = j + 1;
            }
            proof {
                lemma_token_len(pre);
                assert(forall|k: int| 0 <= k < j - i ==> pre[k] == s@[i + k] && !is_ws(pre[k]));
                let t = token_len(pre);
                if j < n {
                    assert(pre[j - i] == s@[j as int]);
                    assert(is_ws(pre[j - i]));
                }
                assert(t == j - i) by {
                    if t < j - i {
                        assert(is_ws(pre[t]));
                        assert(!is_ws(pre[t]));
                    }
                    if t > j - i {
                        assert(!is_ws(pre[j - i]));
                    }
                }
                assert(pre.take(j - i) =~= s@.subrange(i as int, j as int));
                assert(pre.skip(j - i) =~= s@.skip(j as int));
            }
            let tok = s.substring_char(i, j);
            let ghost old_deep = out.deep_view();
            let owned = String::from_str(tok);
            out.push(owned);
            proof {
                assert(out.deep_view() =~= old_deep.push(tok@));
                assert(out.deep_view() + split_ws(s@.skip(j as int)) =~= split_ws(s@));
            }
            i = j;
        }
    }
    proof {
        assert(s@.skip(n as int) =~= Seq::<char>::empty());
        assert(out.deep_view() + split_ws(Seq::<char>::empty()) =~= out.deep_view());
    }
    out
}

/// The configured external command: a program name plus fixed leading
/// arguments in one whitespace-separated template.
pub struct Processor {
    /// The command template, split on white space at dispatch time.
    pub command: String,
}

impl Processor {
    /// A usable template holds at least a program name.
    pub open spec fn wf(&self) -> bool {
        has_token(self.command@)
    }

    /// The command template split into program name and fixed arguments.
    pub fn prepare_command(&self) -> (r: Vec<String>)
        requires
            self.wf(),
        ensures
            r.deep_view() == split_ws(self.command@),
            r@.len() >= 1,
    {
        proof {
            lemma_split_ws_has_token(self.command@);
        }
        tokenize(self.command.as_str())
    }

    /// The full argument vector for one dispatch: the split command template
    /// with every file of the batch appended, in order, as one trailing
    /// argument each.
    pub fn process(&self, files: &Vec<String>) -> (argv: Vec<String>)
        requires
            self.wf(),
        ensures
            argv.deep_view() == split_ws(self.command@) + files.deep_view(),
            argv@.len() >= 1,
    {
        let mut argv = self.prepare_command();
        let n = files.len();
        let mut i: usize = 0;
        proof {
            assert(files.deep_view().take(0) =~= Seq::<Seq<char>>::empty());
            assert(argv.deep_view() =~= split_ws(self.command@) + files.deep_view().take(0));
        }
        while i < n
            invariant
                i <= n,
                n == files@.len(),
                files.deep_view().len() == n,
                argv.deep_view() == split_ws(self.command@) + files.deep_view().take(i as int),
                argv@.len() >= 1,
            decreases n - i,
        {
            let ghost old_deep = argv.deep_view();
            argv.push(files[i].clone());
            proof {
                assert(argv.deep_view() =~= old_deep.push(files.deep_view()[i as int]));
                assert(files.deep_view().take(i + 1) =~= files.deep_view().take(i as int).push(
                    files.deep_view()[i as int],
                ));
                assert(argv.deep_view() =~= split_ws(self.command@) + files.deep_view().take(i + 1));
            }
            i = i + 1;
        }
        proof {
            assert(files.deep_view().take(n as int) =~= files.deep_view());
        }
        argv
    }
}

} // verus!
