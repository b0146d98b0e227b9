//! Verified text helpers for the document scanner.
//!
//! The scanner works on whole cell texts: it trims surrounding whitespace,
//! upper-cases answer keys, splits comma-separated key lists and strips the
//! question-number prefix.  Case folding is modeled over the ASCII letters,
//! which is what the row markers and option labels use.

use vstd::prelude::*;

verus! {

/// Whitespace as recognized when trimming cell text.
pub open spec fn is_space(c: char) -> bool {
    c == ' ' || c == '\t' || c == '\n' || c == '\r'
}

/// Upper-case image of a character; letters outside ASCII are kept as-is.
pub open spec fn upper_char(c: char) -> char {
    match c {
        'a' => 'A',
        'b' => 'B',
        'c' => 'C',
        'd' => 'D',
        'e' => 'E',
        'f' => 'F',
        'g' => 'G',
        'h' => 'H',
        'i' => 'I',
        'j' => 'J',
        'k' => 'K',
        'l' => 'L',
        'm' => 'M',
        'n' => 'N',
        'o' => 'O',
        'p' => 'P',
        'q' => 'Q',
        'r' => 'R',
        's' => 'S',
        't' => 'T',
        'u' => 'U',
        'v' => 'V',
        'w' => 'W',
        'x' => 'X',
        'y' => 'Y',
        'z' => 'Z',
        _ => c,
    }
}

/// Upper-case image of a character sequence.
pub open spec fn upper_seq(s: Seq<char>) -> Seq<char> {
    s.map_values(|c: char| upper_char(c))
}

/// The sequence with leading and trailing whitespace removed.
pub open spec fn trim_seq(s: Seq<char>) -> Seq<char>
    decreases s.len(),
{
    if s.len() == 0 {
        s
    } else if is_space(s.first()) {
        trim_seq(s.drop_first())
    } else if is_space(s.last()) {
        trim_seq(s.drop_last())
    } else {
        s
    }
}

/// Index of the first comma in `s`, or `s.len()` when there is none.
pub open spec fn find_comma(s: Seq<char>) -> int
    decreases s.len(),
{
    if s.len() == 0 {
        0
    } else if s.first() == ',' {
        0
    } else {
        1 + find_comma(s.drop_first())
    }
}

/// The comma-separated tokens of `s`, in order, empty tokens kept.
pub open spec fn split_commas(s: Seq<char>) -> Seq<Seq<char>>
    decreases s.len(),
{
    let i = find_comma(s);
    if 0 <= i < s.len() {
        seq![s.take(i)] + split_commas(s.skip(i + 1))
    } else {
        seq![s]
    }
}

/// `p` is a prefix of `s`.
pub open spec fn has_prefix(s: Seq<char>, p: Seq<char>) -> bool {
    p.len() <= s.len() && s.take(p.len() as int) == p
}

/// A comma at `k`, with none before it, pins `find_comma` to `k`.
pub proof fn lemma_find_comma_at(s: Seq<char>, k: int)
    requires
        0 <= k < s.len(),
        s[k] == ',',
        forall|j: int| 0 <= j < k ==> s[j] != ',',
    ensures
        find_comma(s) == k,
    decreases s.len(),
{
    if k > 0 {
        lemma_find_comma_at(s.drop_first(), k - 1);
    }
}

/// Without a comma, `find_comma` reaches the end.
pub proof fn lemma_find_comma_none(s: Seq<char>)
    requires
        forall|j: int| 0 <= j < s.len() ==> s[j] != ',',
    ensures
        find_comma(s) == s.len(),
    decreases s.len(),
{
    if s.len() != 0 {
        lemma_find_comma_none(s.drop_first());
    }
}

/// Whether `c` counts as whitespace for trimming.
fn is_space_char(c: char) -> (r: bool)
    ensures
        r == is_space(c),
{
    c == ' ' || c == '\t' || c == '\n' || c == '\r'
}

/// The slice of `s` with leading and trailing whitespace removed.
pub fn trim<'a>(s: &'a str) -> (r: &'a str)
    ensures
        r@ == trim_seq(s@),
{
    let n = s.unicode_len();
    let mut lo: usize = 0;
    let mut hi: usize = n;
    proof {
        assert(s@.subrange(0, n as int) =~= s@);
    }
    while lo < hi && is_space_char(s.get_char(lo))
        invariant
            0 <= lo <= hi <= n,
            n == s@.len(),
            trim_seq(s@.subrange(lo as int, hi as int)) == trim_seq(s@),
        decreases hi - lo,
    {
        proof {
            assert(s@.subrange(lo as int, hi as int).drop_first() =~= s@.subrange(
                lo as int + 1,
                hi as int,
            ));
        }
        lo = lo + 1;
    }
    while lo < hi && is_space_char(s.get_char(hi - 1))
        invariant
            0 <= lo <= hi <= n,
            n == s@.len(),
            trim_seq(s@.subrange(lo as int, hi as int)) == trim_seq(s@),
            lo < hi ==> !is_space(s@[lo as int]),
        decreases hi,
    {
        proof {
            assert(s@.subrange(lo as int, hi as int).drop_last() =~= s@.subrange(
                lo as int,
                hi as int - 1,
            ));
        }
        hi = hi - 1;
    }
    let r = s.substring_char(lo, hi);
    proof {
        let sub = s@.subrange(lo as int, hi as int);
        if lo == hi {
            assert(sub =~= Seq::<char>::empty());
        } else {
            assert(!is_space(sub.first()));
            assert(!is_space(sub.last()));
        }
        assert(r@ == trim_seq(s@));
    }
    r
}

/// Appends the upper-cased character at index `i` of `s` to `out`.
fn append_upper_at(out: &mut String, s: &str, i: usize)
    requires
        i < s@.len(),
    ensures
        final(out)@ == old(out)@.push(upper_char(s@[i as int])),
{
    let c = s.get_char(i);
    match c {
        'a' => out.append("A"),
        'b' => out.append("B"),
        'c' => out.append("C"),
        'd' => out.append("D"),
        'e' => out.append("E"),
        'f' => out.append("F"),
        'g' => out.append("G"),
        'h' => out.append("H"),
        'i' => out.append("I"),
        'j' => out.append("J"),
        'k' => out.append("K"),
        'l' => out.append("L"),
        'm' => out.append("M"),
        'n' => out.append("N"),
        'o' => out.append("O"),
        'p' => out.append("P"),
        'q' => out.append("Q"),
        'r' => out.append("R"),
        's' => out.append("S"),
        't' => out.append("T"),
        'u' => out.append("U"),
        'v' => out.append("V"),
        'w' => out.append("W"),
        'x' => out.append("X"),
        'y' => out.append("Y"),
        'z' => out.append("Z"),
        _ => {
            let n = s.unicode_len();
            let piece = s.substring_char(i, i + 1);
            proof {
                assert(piece@ =~= seq![s@[i as int]]);
            }
            out.append(piece);
        },
    }
    proof {
        reveal_strlit("A");
        reveal_strlit("B");
        reveal_strlit("C");
        reveal_strlit("D");
        reveal_strlit("E");
        reveal_strlit("F");
        reveal_strlit("G");
        reveal_strlit("H");
        reveal_strlit("I");
        reveal_strlit("J");
        reveal_strlit("K");
        reveal_strlit("L");
        reveal_strlit("M");
        reveal_strlit("N");
        reveal_strlit("O");
        reveal_strlit("P");
        reveal_strlit("Q");
        reveal_strlit("R");
        reveal_strlit("S");
        reveal_strlit("T");
        reveal_strlit("U");
        reveal_strlit("V");
        reveal_strlit("W");
        reveal_strlit("X");
        reveal_strlit("Y");
        reveal_strlit("Z");
        assert(out@ =~= old(out)@.push(upper_char(s@[i as int])));
    }
}

/// The upper-cased copy of `s`.
pub fn to_upper(s: &str) -> (r: String)
    ensures
        r@ == upper_seq(s@),
{
    let n = s.unicode_len();
    let mut out = String::new();
    let mut i: usize = 0;
    proof {
        assert(upper_seq(s@.take(0)) =~= Seq::<char>::empty());
    }
    while i < n
        invariant
            i <= n,
            n == s@.len(),
            out@ == upper_seq(s@.take(i as int)),
        decreases n - i,
    {
        append_upper_at(&mut out, s, i);
        proof {
            assert(upper_seq(s@.take(i + 1)) =~= upper_seq(s@.take(i as int)).push(
                upper_char(s@[i as int]),
            ));
        }
        i = i + 1;
    }
    proof {
        assert(s@.take(n as int) =~= s@);
    }
    out
}

/// Whether the two slices hold the same characters.
pub fn str_eq(a: &str, b: &str) -> (r: bool)
    ensures
        r == (a@ == b@),
{
    let na = a.unicode_len();
    let nb = b.unicode_len();
    if na != nb {
        proof {
            assert(a@ != b@);
        }
        return false;
    }
    let mut i: usize = 0;
    while i < na
        invariant
            i <= na,
            na == a@.len(),
            na == b@.len(),
            forall|j: int| 0 <= j < i ==> a@[j] == b@[j],
        decreases na - i,
    {
        if a.get_char(i) != b.get_char(i) {
            return false;
        }
        i = i + 1;
    }
    proof {
        assert(a@ =~= b@);
    }
    true
}

/// The rest of `s` after the prefix `p`, when `p` is a prefix of `s`.
pub fn strip_prefix_str<'a>(s: &'a str, p: &str) -> (r: Option<&'a str>)
    ensures
        match r {
            Some(t) => has_prefix(s@, p@) && t@ == s@.skip(p@.len() as int),
            None => !has_prefix(s@, p@),
        },
{
    let n = s.unicode_len();
    let m = p.unicode_len();
    if m > n {
        return None;
    }
    let mut i: usize = 0;
    while i < m
        invariant
            i <= m <= n,
            n == s@.len(),
            m == p@.len(),
            forall|j: int| 0 <= j < i ==> s@[j] == p@[j],
        decreases m - i,
    {
        if s.get_char(i) != p.get_char(i) {
            proof {
                assert(s@.take(m as int)[i as int] != p@[i as int]);
            }
            return None;
        }
        i = i + 1;
    }
    let t = s.substring_char(m, n);
    proof {
        assert(s@.take(m as int) =~= p@);
        assert(t@ =~= s@.skip(m as int));
    }
    Some(t)
}

/// The comma-separated tokens of `s`, in order, empty tokens kept.
pub fn split_commas_str(s: &str) -> (r: Vec<String>)
    ensures
        r.deep_view() == split_commas(s@),
{
    let n = s.unicode_len();
    let mut out: Vec<String> = Vec::new();
    let mut start: usize = 0;
    let mut i: usize = 0;
    proof {
        assert(s@.skip(0) =~= s@);
        assert(out.deep_view() + split_commas(s@) =~= split_commas(s@));
    }
    while i < n
        invariant
            start <= i <= n,
            n == s@.len(),
            out.deep_view() + split_commas(s@.skip(start as int)) =~= split_commas(s@),
            forall|j: int| start <= j < i ==> s@[j] != ',',
        decreases n - i,
    {
        if s.get_char(i) == ',' {
            let tok = String::from_str(s.substring_char(start, i));
            let ghost prev = out.deep_view();
            proof {
                let suf = s@.skip(start as int);
                let k = i as int - start as int;
                assert forall|j: int| 0 <= j < k implies suf[j] != ',' by {
                    assert(suf[j] == s@[start + j]);
                }
                assert(suf[k] == ',');
                lemma_find_comma_at(suf, k);
                assert(suf.take(k) =~= tok@);
                assert(suf.skip(k + 1) =~= s@.skip(i + 1));
                assert(split_commas(suf) == seq![tok@] + split_commas(s@.skip(i + 1)));
            }
            out.push(tok);
            proof {
                assert(out.deep_view() =~= prev.push(tok@));
                assert(prev.push(tok@) + split_commas(s@.skip(i + 1)) =~= prev + split_commas(
                    s@.skip(start as int),
                ));
            }
            start = i + 1;
        }
        i = i + 1;
    }
    let tok = String::from_str(s.substring_char(start, n));
    let ghost prev = out.deep_view();
    proof {
        let suf = s@.skip(start as int);
        assert forall|j: int| 0 <= j < suf.len() implies suf[j] != ',' by {
            assert(suf[j] == s@[start + j]);
        }
        lemma_find_comma_none(suf);
        assert(tok@ =~= suf);
        assert(split_commas(suf) == seq![tok@]);
    }
    out.push(tok);
    proof {
        assert(out.deep_view() =~= prev.push(tok@));
        assert(prev.push(tok@) =~= prev + split_commas(s@.skip(start as int)));
    }
    out
}

/// The elements of `parts` joined by single spaces.
pub open spec fn join_spaced(parts: Seq<Seq<char>>) -> Seq<char>
    decreases parts.len(),
{
    if parts.len() == 0 {
        Seq::empty()
    } else if parts.len() == 1 {
        parts[0]
    } else {
        join_spaced(parts.drop_last()) + seq![' '] + parts.last()
    }
}

/// Joins the strings of `parts` with single spaces.
pub fn join_with_spaces(parts: &Vec<String>) -> (r: String)
    ensures
        r@ == join_spaced(parts.deep_view()),
{
    let mut out = String::new();
    let mut i: usize = 0;
    proof {
        reveal_strlit(" ");
    }
    while i < parts.len()
        invariant
            i <= parts.len(),
            out@ == join_spaced(parts.deep_view().take(i as int)),
        decreases parts.len() - i,
    {
        if i > 0 {
            out.append(" ");
            proof {
                reveal_strlit(" ");
                assert(out@ =~= join_spaced(parts.deep_view().take(i as int)) + seq![' ']);
            }
        }
        out.append(parts[i].as_str());
        proof {
            let pv = parts.deep_view();
            assert(pv.take(i + 1).drop_last() =~= pv.take(i as int));
            assert(pv.take(i + 1).last() == pv[i as int]);
            if i == 0 {
                assert(out@ =~= join_spaced(pv.take(1)));
            } else {
                assert(out@ =~= join_spaced(pv.take(i + 1)));
            }
        }
        i = i + 1;
    }
    proof {
        assert(parts.deep_view().take(parts.len() as int) =~= parts.deep_view());
    }
    out
}

} // verus!
