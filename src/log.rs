use vstd::prelude::*;

use crate::package::{opt_view, strings_view};
use crate::text::{contains_str, has_infix};

verus! {

/// The characters that `char::is_whitespace` accepts (Unicode White_Space).
pub open spec fn is_space(c: char) -> bool {
    ('\u{9}' <= c && c <= '\u{d}') || c == ' ' || c == '\u{85}' || c == '\u{a0}' || c
        == '\u{1680}' || ('\u{2000}' <= c && c <= '\u{200a}') || c == '\u{2028}' || c
        == '\u{2029}' || c == '\u{202f}' || c == '\u{205f}' || c == '\u{3000}'
}

/// The maximal runs of non-space characters of `s`, in order.
pub open spec fn words(s: Seq<char>) -> Seq<Seq<char>>
    decreases s.len(),
{
    if s.len() == 0 {
        Seq::<Seq<char>>::empty()
    } else {
        let w = words(s.drop_last());
        let c = s.last();
        if is_space(c) {
            w
        } else if s.len() >= 2 && !is_space(s[s.len() - 2]) {
            w.update(w.len() - 1, w.last().push(c))
        } else {
            w.push(seq![c])
        }
    }
}

/// The part of `s` before its first `c`; all of `s` when it holds none.
pub open spec fn before_first(s: Seq<char>, c: char) -> Seq<char>
    decreases s.len(),
{
    if s.len() == 0 {
        s
    } else if s[0] == c {
        Seq::<char>::empty()
    } else {
        seq![s[0]] + before_first(s.drop_first(), c)
    }
}

/// The text that marks an install event in the package manager's log.
pub open spec fn install_marker() -> Seq<char> {
    seq!['[', 'A', 'L', 'P', 'M', ']', ' ', 'i', 'n', 's', 't', 'a', 'l', 'l', 'e', 'd']
}

/// The package that a log line reports as installed: the fourth word of a
/// line that holds the install marker, without a parenthesised version.
pub open spec fn log_event(line: Seq<char>) -> Option<Seq<char>> {
    if has_infix(line, install_marker()) && words(line).len() >= 4 {
        Some(before_first(words(line)[3], '('))
    } else {
        None
    }
}

/// Whether `c` is whitespace.
pub fn is_space_char(c: char) -> (r: bool)
    ensures
        r == is_space(c),
{
    ('\u{9}' <= c && c <= '\u{d}') || c == ' ' || c == '\u{85}' || c == '\u{a0}' || c
        == '\u{1680}' || ('\u{2000}' <= c && c <= '\u{200a}') || c == '\u{2028}' || c
        == '\u{2029}' || c == '\u{202f}' || c == '\u{205f}' || c == '\u{3000}'
}

/// The whitespace-separated words of `s`.
pub fn split_words(s: &str) -> (r: Vec<String>)
    ensures
        strings_view(r@) == words(s@),
{
    let n = s.unicode_len();
    let mut out: Vec<String> = Vec::new();
    let mut start: usize = 0;
    let mut in_word = false;
    let mut i: usize = 0;
    proof {
        assert(s@.subrange(0, 0) =~= Seq::<char>::empty());
        assert(strings_view(out@) =~= Seq::<Seq<char>>::empty());
    }
    while i < n
        invariant
            n == s@.len(),
            i <= n,
            in_word ==> start < i && !is_space(s@[i - 1]) && strings_view(out@).push(
                s@.subrange(start as int, i as int),
            ) == words(s@.subrange(0, i as int)),
            !in_word ==> (i == 0 || is_space(s@[i - 1])) && strings_view(out@) == words(
                s@.subrange(0, i as int),
            ),
        decreases n - i,
    {
        let c = s.get_char(i);
        let ghost pre = s@.subrange(0, i as int);
        let ghost post = s@.subrange(0, i + 1);
        proof {
            assert(post.drop_last() =~= pre);
            assert(post.last() == c);
            if i >= 1 {
                assert(post[i - 1] == s@[i - 1]);
            }
        }
        if is_space_char(c) {
            if in_word {
                let w = String::from_str(s.substring_char(start, i));
                let ghost prev = out@;
                out.push(w);
                proof {
                    assert(strings_view(out@) =~= strings_view(prev).push(w@));
                }
            }
            in_word = false;
        } else if in_word {
            proof {
                assert(s@.subrange(start as int, i + 1) =~= s@.subrange(start as int, i as int).push(
                    c,
                ));
            }
        } else {
            start = i;
            in_word = true;
            proof {
                assert(s@.subrange(start as int, i + 1) =~= seq![c]);
            }
        }
        i = i + 1;
    }
    if in_word {
        let w = String::from_str(s.substring_char(start, n));
        let ghost prev = out@;
        out.push(w);
        proof {
            assert(strings_view(out@) =~= strings_view(prev).push(w@));
        }
    }
    proof {
        assert(s@.subrange(0, n as int) =~= s@);
    }
    out
}

/// `before_first` is the prefix up to the first `c`.
pub proof fn lemma_before_first(s: Seq<char>, c: char, j: int)
    requires
        0 <= j <= s.len(),
        forall|k: int| 0 <= k < j ==> s[k] != c,
        j < s.len() ==> s[j] == c,
    ensures
        before_first(s, c) == s.subrange(0, j),
    decreases s.len(),
{
    if s.len() > 0 && j > 0 {
        lemma_before_first(s.drop_first(), c, j - 1);
        assert(seq![s[0]] + s.drop_first().subrange(0, j - 1) =~= s.subrange(0, j));
    } else if s.len() == 0 {
        assert(s.subrange(0, j) =~= s);
    } else {
        assert(s.subrange(0, j) =~= Seq::<char>::empty());
    }
}

/// The part of `s` before its first `c`.
pub fn prefix_before(s: &str, c: char) -> (r: String)
    ensures
        r@ == before_first(s@, c),
{
    let n = s.unicode_len();
    let mut j: usize = 0;
    while j < n && s.get_char(j) != c
        invariant
            n == s@.len(),
            j <= n,
            forall|k: int| 0 <= k < j ==> s@[k] != c,
        decreases n - j,
    {
        j = j + 1;
    }
    proof {
        lemma_before_first(s@, c, j as int);
    }
    String::from_str(s.substring_char(0, j))
}

/// The package that a log line reports as installed, if it reports one.
pub fn log_installed_name(line: &str) -> (r: Option<String>)
    ensures
        opt_view(r) == log_event(line@),
{
    let marker = "[ALPM] installed";
    proof {
        reveal_strlit("[ALPM] installed");
        assert(marker@ =~= install_marker());
    }
    if !contains_str(line, marker) {
        return None;
    }
    let parts = split_words(line);
    if parts.len() < 4 {
        return None;
    }
    proof {
        assert(parts@[3]@ == words(line@)[3]);
    }
    Some(prefix_before(parts[3].as_str(), '('))
}

} // verus!
