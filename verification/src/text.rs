//! Small verified helpers on strings: prefix/suffix tests, splitting on a
//! separator, joining lines, and appending single characters.
use vstd::prelude::*;

verus! {

/// Relies on std's `String::push`: appends the character to the end of the
/// string, as its documentation states.
#[verifier::external_body]
pub fn push_char(s: &mut String, c: char)
    ensures
        final(s)@ == old(s)@.push(c),
{
    s.push(c);
}

/// Number of characters in `s`, as an executable operation.
pub fn str_char_len(s: &str) -> (n: usize)
    ensures
        n == s@.len(),
{
    s.unicode_len()
}

/// True exactly when `pre` is a character-wise prefix of `s`.
pub fn starts_with(s: &str, pre: &str) -> (r: bool)
    ensures
        r == pre@.is_prefix_of(s@),
{
    let n = s.unicode_len();
    let p = pre.unicode_len();
    if p > n {
        assert(!pre@.is_prefix_of(s@));
        return false;
    }
    let mut i: usize = 0;
    while i < p
        invariant
            0 <= i <= p <= n,
            n == s@.len(),
            p == pre@.len(),
            forall|j: int| 0 <= j < i ==> s@[j] == pre@[j],
        decreases p - i,
    {
        if s.get_char(i) != pre.get_char(i) {
            assert(!pre@.is_prefix_of(s@));
            return false;
        }
        i = i + 1;
    }
    assert(pre@ =~= s@.subrange(0, p as int));
    true
}

/// True exactly when `suf` is a character-wise suffix of `s`.
pub fn ends_with(s: &str, suf: &str) -> (r: bool)
    ensures
        r == suf@.is_suffix_of(s@),
{
    let n = s.unicode_len();
    let p = suf.unicode_len();
    if p > n {
        assert(!suf@.is_suffix_of(s@));
        return false;
    }
    let start = n - p;
    let mut i: usize = 0;
    while i < p
        invariant
            0 <= i <= p <= n,
            n == s@.len(),
            p == suf@.len(),
            start == n - p,
            forall|j: int| 0 <= j < i ==> s@[start + j] == suf@[j],
        decreases p - i,
    {
        if s.get_char(start + i) != suf.get_char(i) {
            assert(!suf@.is_suffix_of(s@));
            return false;
        }
        i = i + 1;
    }
    assert(suf@ =~= s@.subrange(n - p, n as int));
    true
}

/// The pieces of `s` between occurrences of `sep`; always at least one piece.
pub open spec fn split_chars(s: Seq<char>, sep: char) -> Seq<Seq<char>>
    decreases s.len(),
{
    if s.len() == 0 {
        seq![Seq::<char>::empty()]
    } else if s.last() == sep {
        split_chars(s.drop_last(), sep).push(Seq::<char>::empty())
    } else {
        let rest = split_chars(s.drop_last(), sep);
        rest.update(rest.len() - 1, rest.last().push(s.last()))
    }
}

pub proof fn lemma_split_chars_len(s: Seq<char>, sep: char)
    ensures
        split_chars(s, sep).len() >= 1,
    decreases s.len(),
{
    if s.len() > 0 {
        lemma_split_chars_len(s.drop_last(), sep);
    }
}

/// Splits `s` at every occurrence of `sep`.
pub fn split(s: &str, sep: char) -> (r: Vec<String>)
    ensures
        r@.map_values(|p: String| p@) == split_chars(s@, sep),
        r@.len() >= 1,
{
    let n = s.unicode_len();
    let mut out: Vec<String> = Vec::new();
    let mut cur: String = String::new();
    let mut i: usize = 0;
    while i < n
        invariant
            0 <= i <= n,
            n == s@.len(),
            out@.map_values(|p: String| p@).push(cur@) == split_chars(
                s@.subrange(0, i as int),
                sep,
            ),
        decreases n - i,
    {
        let c = s.get_char(i);
        let ghost prefix = s@.subrange(0, i as int);
        let ghost prefix1 = s@.subrange(0, i + 1);
        assert(prefix1.drop_last() =~= prefix);
        if c == sep {
            out.push(cur);
            cur = String::new();
            assert(out@.map_values(|p: String| p@).push(cur@) =~= split_chars(prefix1, sep));
        } else {
            push_char(&mut cur, c);
            proof {
                lemma_split_chars_len(prefix, sep);
                assert(out@.map_values(|p: String| p@).push(cur@) =~= split_chars(prefix1, sep));
            }
        }
        i = i + 1;
    }
    assert(s@.subrange(0, n as int) =~= s@);
    proof {
        lemma_split_chars_len(s@, sep);
    }
    let ghost final_pieces = split_chars(s@, sep);
    out.push(cur);
    assert(out@.map_values(|p: String| p@) =~= final_pieces);
    out
}

/// The lines joined back with a newline between consecutive pieces.
pub open spec fn join_lines(ls: Seq<Seq<char>>) -> Seq<char>
    decreases ls.len(),
{
    if ls.len() == 0 {
        Seq::<char>::empty()
    } else if ls.len() == 1 {
        ls[0]
    } else {
        join_lines(ls.drop_last()) + seq!['\n'] + ls.last()
    }
}

/// True exactly when `v` holds a string whose characters equal `s`'s.
pub fn vec_contains_str(v: &Vec<String>, s: &String) -> (r: bool)
    ensures
        r == v@.map_values(|p: String| p@).contains(s@),
{
    let n = v.len();
    let mut i: usize = 0;
    while i < n
        invariant
            0 <= i <= n,
            n == v@.len(),
            forall|j: int| 0 <= j < i ==> (#[trigger] v@[j])@ != s@,
        decreases n - i,
    {
        if v[i].eq(s) {
            assert(v@.map_values(|p: String| p@)[i as int] == s@);
            return true;
        }
        i = i + 1;
    }
    false
}

} // verus!
