//! Character-level groundwork shared by both parsers: the white-space
//! predicate, the trimming model, and small helpers that move between
//! `&str`, `Vec<char>` and `String`.

use vstd::prelude::*;
use vstd::std_specs::iter::IteratorSpec;

verus! {

broadcast use vstd::string::axiom_spec_iter, vstd::string::next_postcondition;

/// The characters with the Unicode `White_Space` property, the set that
/// `char::is_whitespace` in std accepts.
pub open spec fn is_space(c: char) -> bool {
    ||| c == ' '
    ||| c == '\t'
    ||| c == '\n'
    ||| c == '\r'
    ||| c == '\u{b}'
    ||| c == '\u{c}'
    ||| c == '\u{85}'
    ||| c == '\u{a0}'
    ||| c == '\u{1680}'
    ||| (0x2000 <= c as u32 && c as u32 <= 0x200a)
    ||| c == '\u{2028}'
    ||| c == '\u{2029}'
    ||| c == '\u{202f}'
    ||| c == '\u{205f}'
    ||| c == '\u{3000}'
}

/// Decides `is_space` for one character.
pub fn is_space_char(c: char) -> (r: bool)
    ensures
        r == is_space(c),
{
    c == ' ' || c == '\t' || c == '\n' || c == '\r' || c == '\u{b}' || c == '\u{c}' || c
        == '\u{85}' || c == '\u{a0}' || c == '\u{1680}' || (0x2000 <= c as u32 && c as u32
        <= 0x200a) || c == '\u{2028}' || c == '\u{2029}' || c == '\u{202f}' || c == '\u{205f}' || c
        == '\u{3000}'
}

/// Index of the first character that is not white space; the length when
/// every character is.
pub open spec fn first_non_space(s: Seq<char>) -> int
    decreases s.len(),
{
    if s.len() == 0 {
        0
    } else if !is_space(s[0]) {
        0
    } else {
        1 + first_non_space(s.skip(1))
    }
}

/// One past the index of the last character that is not white space; zero
/// when every character is.
pub open spec fn end_non_space(s: Seq<char>) -> int
    decreases s.len(),
{
    if s.len() == 0 {
        0
    } else if !is_space(s[s.len() - 1]) {
        s.len() as int
    } else {
        end_non_space(s.take(s.len() - 1))
    }
}

/// `s` with leading and trailing white space removed; empty when `s` is
/// all white space.
pub open spec fn trim_spec(s: Seq<char>) -> Seq<char> {
    if first_non_space(s) < end_non_space(s) {
        s.subrange(first_non_space(s), end_non_space(s))
    } else {
        Seq::empty()
    }
}

pub proof fn lemma_first_non_space(s: Seq<char>)
    ensures
        0 <= first_non_space(s) <= s.len(),
        forall|j: int| 0 <= j < first_non_space(s) ==> is_space(s[j]),
        first_non_space(s) < s.len() ==> !is_space(s[first_non_space(s)]),
    decreases s.len(),
{
    if s.len() == 0 {
    } else if !is_space(s[0]) {
    } else {
        lemma_first_non_space(s.skip(1));
        assert forall|j: int| 0 <= j < first_non_space(s) implies is_space(s[j]) by {
            if j > 0 {
                assert(s.skip(1)[j - 1] == s[j]);
            }
        }
        if first_non_space(s) < s.len() {
            assert(s.skip(1)[first_non_space(s) - 1] == s[first_non_space(s)]);
        }
    }
}

pub proof fn lemma_first_non_space_is(s: Seq<char>, i: int)
    requires
        0 <= i <= s.len(),
        forall|j: int| 0 <= j < i ==> is_space(s[j]),
        i < s.len() ==> !is_space(s[i]),
    ensures
        i == first_non_space(s),
    decreases s.len(),
{
    if s.len() == 0 {
    } else if i == 0 {
        if first_non_space(s) != 0 {
            lemma_first_non_space(s);
        }
    } else {
        assert(is_space(s[0]));
        assert forall|j: int| 0 <= j < i - 1 implies is_space(s.skip(1)[j]) by {
            assert(s.skip(1)[j] == s[j + 1]);
        }
        assert(i - 1 < s.skip(1).len() ==> !is_space(s.skip(1)[i - 1]));
        lemma_first_non_space_is(s.skip(1), i - 1);
    }
}

pub proof fn lemma_end_non_space(s: Seq<char>)
    ensures
        0 <= end_non_space(s) <= s.len(),
        forall|j: int| end_non_space(s) <= j < s.len() ==> is_space(s[j]),
        end_non_space(s) > 0 ==> !is_space(s[end_non_space(s) - 1]),
    decreases s.len(),
{
    if s.len() == 0 {
    } else if !is_space(s[s.len() - 1]) {
    } else {
        lemma_end_non_space(s.take(s.len() - 1));
        assert forall|j: int| end_non_space(s) <= j < s.len() implies is_space(s[j]) by {
            if j < s.len() - 1 {
                assert(s.take(s.len() - 1)[j] == s[j]);
            }
        }
        if end_non_space(s) > 0 {
            assert(s.take(s.len() - 1)[end_non_space(s) - 1] == s[end_non_space(s) - 1]);
        }
    }
}

pub proof fn lemma_end_non_space_is(s: Seq<char>, i: int)
    requires
        0 <= i <= s.len(),
        forall|j: int| i <= j < s.len() ==> is_space(s[j]),
        i > 0 ==> !is_space(s[i - 1]),
    ensures
        i == end_non_space(s),
    decreases s.len(),
{
    if s.len() == 0 {
    } else if i == s.len() {
        assert(!is_space(s[s.len() - 1]));
    } else {
        assert(is_space(s[s.len() - 1]));
        assert forall|j: int| i <= j < s.len() - 1 implies is_space(#[trigger] s.take(
            s.len() - 1,
        )[j]) by {
            assert(s.take(s.len() - 1)[j] == s[j]);
        }
        if i > 0 {
            assert(s.take(s.len() - 1)[i - 1] == s[i - 1]);
        }
        lemma_end_non_space_is(s.take(s.len() - 1), i);
    }
}

/// The first position at or after `i` holding a newline; the input length
/// when there is none.
pub open spec fn find_newline(s: Seq<char>, i: int) -> int
    decreases s.len() - i,
{
    if i >= s.len() {
        s.len() as int
    } else if s[i] == '\n' {
        i
    } else {
        find_newline(s, i + 1)
    }
}

pub proof fn lemma_find_newline_is(s: Seq<char>, from: int, i: int)
    requires
        0 <= from <= i <= s.len(),
        forall|j: int| from <= j < i ==> s[j] != '\n',
        i < s.len() ==> s[i] == '\n',
    ensures
        find_newline(s, from) == i,
    decreases i - from,
{
    if from < i {
        lemma_find_newline_is(s, from + 1, i);
    }
}

/// The first position at or after `i` holding a white-space character; the
/// input length when there is none.
pub open spec fn find_space(s: Seq<char>, i: int) -> int
    decreases s.len() - i,
{
    if i >= s.len() {
        s.len() as int
    } else if is_space(s[i]) {
        i
    } else {
        find_space(s, i + 1)
    }
}

pub proof fn lemma_find_space_is(s: Seq<char>, from: int, i: int)
    requires
        0 <= from <= i <= s.len(),
        forall|j: int| from <= j < i ==> !is_space(s[j]),
        i < s.len() ==> is_space(s[i]),
    ensures
        find_space(s, from) == i,
    decreases i - from,
{
    if from < i {
        lemma_find_space_is(s, from + 1, i);
    }
}

/// A non-empty sequence that trimming leaves unchanged neither starts
/// nor ends with white space.
pub proof fn lemma_trimmed_ends(t: Seq<char>)
    requires
        trim_spec(t) == t,
        t.len() > 0,
    ensures
        !is_space(t[0]),
        !is_space(t[t.len() - 1]),
{
    lemma_first_non_space(t);
    lemma_end_non_space(t);
    if first_non_space(t) < end_non_space(t) {
        assert(t.subrange(first_non_space(t), end_non_space(t)).len() == t.len());
        assert(first_non_space(t) == 0 && end_non_space(t) == t.len());
        if is_space(t[0]) {
            lemma_first_non_space(t.skip(1));
            assert(first_non_space(t) == 1 + first_non_space(t.skip(1)));
        }
        if is_space(t[t.len() - 1]) {
            lemma_end_non_space(t.take(t.len() - 1));
            assert(end_non_space(t) == end_non_space(t.take(t.len() - 1)));
        }
    } else {
        assert(trim_spec(t).len() == 0);
    }
}

/// A sequence of white space alone trims to nothing.
pub proof fn lemma_all_space_trims_empty(u: Seq<char>)
    requires
        forall|j: int| 0 <= j < u.len() ==> is_space(u[j]),
    ensures
        trim_spec(u).len() == 0,
{
    lemma_first_non_space_is(u, u.len() as int);
    lemma_end_non_space_is(u, 0);
}

/// A sequence that trims to nothing is white space alone.
pub proof fn lemma_trim_empty_all_space(u: Seq<char>)
    requires
        trim_spec(u).len() == 0,
    ensures
        forall|j: int| 0 <= j < u.len() ==> is_space(u[j]),
{
    lemma_first_non_space(u);
    lemma_end_non_space(u);
    if first_non_space(u) < end_non_space(u) {
        assert(trim_spec(u).len() == end_non_space(u) - first_non_space(u));
    }
    assert forall|j: int| 0 <= j < u.len() implies is_space(u[j]) by {
        if j >= first_non_space(u) {
            assert(end_non_space(u) <= j);
        }
    }
}

/// White space added in front of a sequence does not change its trim.
pub proof fn lemma_trim_space_prefix(w: Seq<char>, x: Seq<char>)
    requires
        forall|j: int| 0 <= j < w.len() ==> is_space(w[j]),
    ensures
        trim_spec(w + x) == trim_spec(x),
{
    let t = trim_spec(x);
    if t.len() == 0 {
        lemma_trim_empty_all_space(x);
        assert forall|j: int| 0 <= j < (w + x).len() implies is_space((w + x)[j]) by {
            if j < w.len() {
                assert((w + x)[j] == w[j]);
            } else {
                assert((w + x)[j] == x[j - w.len()]);
            }
        }
        lemma_all_space_trims_empty(w + x);
        assert(trim_spec(w + x) =~= t);
    } else {
        lemma_first_non_space(x);
        lemma_end_non_space(x);
        let f = first_non_space(x);
        let e = end_non_space(x);
        assert(x =~= x.subrange(0, f) + t + x.subrange(e, x.len() as int));
        lemma_trim_idempotent(x);
        assert forall|j: int|
            0 <= j < (w + x.subrange(0, f)).len() implies is_space((w + x.subrange(0, f))[j]) by {
            if j < w.len() {
                assert((w + x.subrange(0, f))[j] == w[j]);
            } else {
                assert((w + x.subrange(0, f))[j] == x[j - w.len()]);
            }
        }
        lemma_trim_padded(w + x.subrange(0, f), t, x.subrange(e, x.len() as int));
        assert(w + x =~= (w + x.subrange(0, f)) + t + x.subrange(e, x.len() as int));
    }
}

/// Trimming is idempotent: a trimmed sequence trims to itself.
pub proof fn lemma_trim_idempotent(s: Seq<char>)
    ensures
        trim_spec(trim_spec(s)) == trim_spec(s),
{
    let t = trim_spec(s);
    if t.len() == 0 {
        assert(trim_spec(t) =~= t);
    } else {
        lemma_first_non_space(s);
        lemma_end_non_space(s);
        assert(t[0] == s[first_non_space(s)]);
        assert(t[t.len() - 1] == s[end_non_space(s) - 1]);
        lemma_first_non_space_is(t, 0);
        lemma_end_non_space_is(t, t.len() as int);
        assert(t.subrange(0, t.len() as int) =~= t);
    }
}

/// White space added before and after a trimmed sequence trims back to
/// that sequence.
pub proof fn lemma_trim_padded(u: Seq<char>, t: Seq<char>, w: Seq<char>)
    requires
        forall|j: int| 0 <= j < u.len() ==> is_space(u[j]),
        forall|j: int| 0 <= j < w.len() ==> is_space(w[j]),
        trim_spec(t) == t,
    ensures
        trim_spec(u + t + w) == t,
{
    let s = u + t + w;
    if t.len() == 0 {
        assert forall|j: int| 0 <= j < s.len() implies is_space(s[j]) by {
            if j < u.len() {
                assert(s[j] == u[j]);
            } else {
                assert(s[j] == w[j - u.len()]);
            }
        }
        lemma_first_non_space_is(s, s.len() as int);
        lemma_end_non_space_is(s, 0);
        assert(trim_spec(s) =~= t);
    } else {
        lemma_trimmed_ends(t);
        assert forall|j: int| 0 <= j < u.len() implies is_space(s[j]) by {
            assert(s[j] == u[j]);
        }
        assert(s[u.len() as int] == t[0]);
        lemma_first_non_space_is(s, u.len() as int);
        assert forall|j: int| u.len() + t.len() <= j < s.len() implies is_space(s[j]) by {
            assert(s[j] == w[j - u.len() - t.len()]);
        }
        assert(s[u.len() + t.len() - 1] == t[t.len() - 1]);
        lemma_end_non_space_is(s, u.len() + t.len() as int);
        assert(s.subrange(u.len() as int, u.len() + t.len() as int) =~= t);
    }
}

/// The Unicode upper-case mapping of one character: the sequence that
/// `char::to_uppercase` yields, possibly several characters long.
pub uninterp spec fn upper_of(c: char) -> Seq<char>;

/// Relies on `char::to_uppercase` from std: the full Unicode upper-case
/// mapping of the one character, which depends on the character alone.
#[verifier::external_body]
pub fn to_uppercase_chars(c: char) -> (r: String)
    ensures
        r@ == upper_of(c),
{
    c.to_uppercase().collect()
}

/// Relies on `String::push` from std: it appends the one character to the
/// end of the string.
#[verifier::external_body]
pub fn push_char(s: &mut String, c: char)
    ensures
        final(s)@ == old(s)@.push(c),
{
    s.push(c);
}

/// The characters of `s`, in order.
pub fn chars_of(s: &str) -> (v: Vec<char>)
    ensures
        v@ == s@,
{
    let mut v: Vec<char> = Vec::new();
    let mut it = s.chars();
    loop
        invariant
            v@ + it.remaining() == s@,
            it.decrease() is Some,
        ensures
            v@ == s@,
        decreases it.decrease()->0,
    {
        match it.next() {
            Some(c) => {
                v.push(c);
            },
            None => {
                proof {
                    assert(v@ + it.remaining() =~= v@);
                }
                break ;
            },
        }
    }
    v
}

/// The characters `cs[lo..hi]`, collected into a `String`.
pub fn string_of_range(cs: &[char], lo: usize, hi: usize) -> (r: String)
    requires
        lo <= hi <= cs@.len(),
    ensures
        r@ == cs@.subrange(lo as int, hi as int),
{
    let mut r = String::new();
    let mut i: usize = lo;
    while i < hi
        invariant
            lo <= i <= hi <= cs@.len(),
            r@ == cs@.subrange(lo as int, i as int),
        decreases hi - i,
    {
        push_char(&mut r, cs[i]);
        proof {
            assert(cs@.subrange(lo as int, i as int).push(cs@[i as int]) =~= cs@.subrange(
                lo as int,
                i + 1,
            ));
        }
        i = i + 1;
    }
    r
}

/// The characters of `cs`, collected into a `String`.
pub fn string_of(cs: &[char]) -> (r: String)
    ensures
        r@ == cs@,
{
    let r = string_of_range(cs, 0, cs.len());
    proof {
        assert(cs@.subrange(0, cs@.len() as int) =~= cs@);
    }
    r
}

} // verus!
