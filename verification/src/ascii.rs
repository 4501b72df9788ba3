use vstd::prelude::*;
use vstd::string::StrSliceExecFns;
use vstd::string::StringExecFns;

verus! {

/// The characters that separate words: NUL, tab, line feed, form feed, carriage return
/// and space.
pub open spec fn is_separator(c: char) -> bool {
    c == '\0' || c == '\t' || c == '\n' || c == '\x0C' || c == '\r' || c == ' '
}

/// The words of `s`: its maximal runs of characters other than separators, in order.
pub open spec fn words(s: Seq<char>) -> Seq<Seq<char>>
    decreases s.len(),
{
    if s.len() == 0 {
        Seq::empty()
    } else if is_separator(s.last()) {
        words(s.drop_last())
    } else if s.len() >= 2 && !is_separator(s[s.len() - 2]) {
        let w = words(s.drop_last());
        w.update(w.len() - 1, w.last().push(s.last()))
    } else {
        words(s.drop_last()).push(seq![s.last()])
    }
}

/// Splits text into its words at ASCII whitespace and NUL.
pub struct StaticAsciiSplit;

/// The views of a list of strings.
pub open spec fn string_views(v: Seq<String>) -> Seq<Seq<char>> {
    v.map_values(|x: String| x@)
}

/// The words so far, with the pending run from `start` to `i` closed.
pub open spec fn words_upto(done: Seq<String>, s: Seq<char>, start: int, i: int) -> Seq<Seq<char>> {
    if start < i {
        string_views(done).push(s.subrange(start, i))
    } else {
        string_views(done)
    }
}

fn separator(c: char) -> (r: bool)
    ensures
        r == is_separator(c),
{
    c == '\0' || c == '\t' || c == '\n' || c == '\x0C' || c == '\r' || c == ' '
}

impl StaticAsciiSplit {
    /// The words of `x`, each as a string of its own.
    pub fn static_map(x: &str) -> (r: Vec<String>)
        ensures
            string_views(r@) == words(x@),
    {
        let n = x.unicode_len();
        let ghost s = x@;
        let mut out: Vec<String> = Vec::new();
        let mut start: usize = 0;
        let mut i: usize = 0;
        proof {
            assert(s.take(0) =~= Seq::<char>::empty());
            assert(string_views(out@) =~= Seq::<Seq<char>>::empty());
        }
        while i < n
            invariant
                n == s.len(),
                s == x@,
                start <= i <= n,
                forall|j: int| start <= j < i ==> !is_separator(#[trigger] s[j]),
                start == 0 || is_separator(s[start - 1]),
                words_upto(out@, s, start as int, i as int) == words(s.take(i as int)),
            decreases n - i,
        {
            let c = x.get_char(i);
            let ghost t = s.take(i + 1);
            proof {
                assert(t.drop_last() =~= s.take(i as int));
                assert(t.last() == c);
                if i >= 1 {
                    assert(t[t.len() - 2] == s[i - 1]);
                }
            }
            if separator(c) {
                if start < i {
                    let ghost before = out@;
                    let piece = x.substring_char(start, i);
                    out.push(String::from_str(piece));
                    proof {
                        assert(string_views(out@) =~= string_views(before).push(s.subrange(start as int, i as int)));
                    }
                }
                start = i + 1;
                proof {
                    assert(words_upto(out@, s, start as int, (i + 1) as int) == words(t));
                }
            } else {
                proof {
                    if start < i {
                        assert(s.subrange(start as int, i + 1) =~= s.subrange(start as int, i as int).push(c));
                        assert(!is_separator(s[i - 1]));
                    } else {
                        assert(s.subrange(i as int, i + 1) =~= seq![c]);
                        if i >= 1 {
                            assert(is_separator(s[i - 1]));
                        }
                    }
                }
            }
            i = i + 1;
        }
        if start < n {
            let ghost before = out@;
            let piece = x.substring_char(start, n);
            out.push(String::from_str(piece));
            proof {
                assert(string_views(out@) =~= string_views(before).push(s.subrange(start as int, n as int)));
            }
        }
        proof {
            assert(s.take(n as int) =~= s);
            assert(string_views(out@) =~= words(s));
        }
        out
    }
}

} // verus!
