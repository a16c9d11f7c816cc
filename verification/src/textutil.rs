use vstd::prelude::*;

verus! {

/// The characters the parser treats as whitespace.
pub open spec fn is_space_char(c: char) -> bool {
    c == ' ' || c == '\t' || c == '\r' || c == '\n'
}

pub fn char_is_space(c: char) -> (r: bool)
    ensures
        r == is_space_char(c),
{
    c == ' ' || c == '\t' || c == '\r' || c == '\n'
}

/// Index of the first character that is not whitespace; the length if all are.
pub open spec fn first_non_space(s: Seq<char>) -> int
    decreases s.len(),
{
    if s.len() == 0 {
        0
    } else if is_space_char(s[0]) {
        1 + first_non_space(s.drop_first())
    } else {
        0
    }
}

/// One past the index of the last character that is not whitespace; 0 if all are.
pub open spec fn last_non_space_end(s: Seq<char>) -> int
    decreases s.len(),
{
    if s.len() == 0 {
        0
    } else if is_space_char(s.last()) {
        last_non_space_end(s.drop_last())
    } else {
        s.len() as int
    }
}

/// The sequence with leading and trailing whitespace removed.
pub open spec fn spec_trim(s: Seq<char>) -> Seq<char> {
    if first_non_space(s) >= last_non_space_end(s) {
        Seq::empty()
    } else {
        s.subrange(first_non_space(s), last_non_space_end(s))
    }
}

pub proof fn lemma_first_non_space(s: Seq<char>)
    ensures
        0 <= first_non_space(s) <= s.len(),
        forall|i: int| 0 <= i < first_non_space(s) ==> is_space_char(s[i]),
        first_non_space(s) < s.len() ==> !is_space_char(s[first_non_space(s)]),
    decreases s.len(),
{
    if s.len() > 0 && is_space_char(s[0]) {
        lemma_first_non_space(s.drop_first());
        assert forall|i: int| 0 <= i < first_non_space(s) implies is_space_char(s[i]) by {
            if i > 0 {
                assert(s.drop_first()[i - 1] == s[i]);
            }
        }
        if first_non_space(s) < s.len() {
            assert(s.drop_first()[first_non_space(s) - 1] == s[first_non_space(s)]);
        }
    }
}

pub proof fn lemma_last_non_space_end(s: Seq<char>)
    ensures
        0 <= last_non_space_end(s) <= s.len(),
        forall|i: int| last_non_space_end(s) <= i < s.len() ==> is_space_char(s[i]),
        last_non_space_end(s) > 0 ==> !is_space_char(s[last_non_space_end(s) - 1]),
    decreases s.len(),
{
    if s.len() > 0 && is_space_char(s.last()) {
        lemma_last_non_space_end(s.drop_last());
        assert forall|i: int| last_non_space_end(s) <= i < s.len() implies is_space_char(s[i]) by {
            if i < s.len() - 1 {
                assert(s.drop_last()[i] == s[i]);
            }
        }
        if last_non_space_end(s) > 0 {
            assert(s.drop_last()[last_non_space_end(s) - 1] == s[last_non_space_end(s) - 1]);
        }
    }
}

/// The bounds computed by an explicit whitespace scan name exactly the
/// `first_non_space` / `last_non_space_end` indices.
pub proof fn lemma_trim_bounds(s: Seq<char>, a: int, b: int)
    requires
        0 <= a <= s.len(),
        0 <= b <= s.len(),
        forall|i: int| 0 <= i < a ==> is_space_char(s[i]),
        a < s.len() ==> !is_space_char(s[a]),
        forall|i: int| b <= i < s.len() ==> is_space_char(s[i]),
        b > 0 ==> !is_space_char(s[b - 1]),
        a == s.len() ==> b == 0,
        b == 0 ==> a == s.len(),
    ensures
        a == first_non_space(s),
        b == last_non_space_end(s),
        a < b ==> spec_trim(s) == s.subrange(a, b),
        a >= b ==> spec_trim(s) == Seq::<char>::empty(),
{
    lemma_first_non_space(s);
    lemma_last_non_space_end(s);
    let f = first_non_space(s);
    let l = last_non_space_end(s);
    if a < f {
        assert(is_space_char(s[a]));
    }
    if f < a {
        assert(is_space_char(s[f]));
        assert(f < s.len());
    }
    if b < l {
        assert(is_space_char(s[l - 1]));
        assert(b <= l - 1 < s.len());
    }
    if l < b {
        assert(is_space_char(s[b - 1]));
        assert(l <= b - 1 < s.len());
    }
}

/// A decimal digit.
pub open spec fn is_digit_char(c: char) -> bool {
    '0' <= c && c <= '9'
}

/// Numeric value of a decimal digit.
pub open spec fn digit_val(c: char) -> int {
    if c == '0' {
        0
    } else if c == '1' {
        1
    } else if c == '2' {
        2
    } else if c == '3' {
        3
    } else if c == '4' {
        4
    } else if c == '5' {
        5
    } else if c == '6' {
        6
    } else if c == '7' {
        7
    } else if c == '8' {
        8
    } else {
        9
    }
}

pub fn char_is_digit(c: char) -> (r: bool)
    ensures
        r == is_digit_char(c),
{
    '0' <= c && c <= '9'
}

pub fn char_digit_val(c: char) -> (r: u32)
    requires
        is_digit_char(c),
    ensures
        r == digit_val(c),
        r <= 9,
{
    match c {
        '0' => 0,
        '1' => 1,
        '2' => 2,
        '3' => 3,
        '4' => 4,
        '5' => 5,
        '6' => 6,
        '7' => 7,
        '8' => 8,
        _ => 9,
    }
}

/// Strict lexicographic order on character sequences, by code point.
pub open spec fn lex_lt(a: Seq<char>, b: Seq<char>) -> bool
    decreases a.len(),
{
    if b.len() == 0 {
        false
    } else if a.len() == 0 {
        true
    } else if a[0] != b[0] {
        a[0] < b[0]
    } else {
        lex_lt(a.drop_first(), b.drop_first())
    }
}

/// Exactly one of `lex_lt(a, b)`, `lex_lt(b, a)` and `a == b` holds.
pub proof fn lemma_lex_trichotomy(a: Seq<char>, b: Seq<char>)
    ensures
        lex_lt(a, b) || lex_lt(b, a) || a == b,
        lex_lt(a, b) ==> !lex_lt(b, a) && a != b,
        lex_lt(b, a) ==> !lex_lt(a, b) && a != b,
    decreases a.len(),
{
    if a.len() > 0 && b.len() > 0 && a[0] == b[0] {
        lemma_lex_trichotomy(a.drop_first(), b.drop_first());
        if a.drop_first() =~= b.drop_first() {
            assert forall|i: int| 0 <= i < a.len() implies a[i] == b[i] by {
                if i > 0 {
                    assert(a.drop_first()[i - 1] == a[i]);
                    assert(b.drop_first()[i - 1] == b[i]);
                }
            }
            assert(a =~= b);
        }
        if a == b {
            assert(a.drop_first() =~= b.drop_first());
        }
    } else if a.len() > 0 && b.len() > 0 {
        if a == b {
            assert(a[0] == b[0]);
        }
    } else if a.len() == 0 && b.len() == 0 {
        assert(a =~= b);
    } else if a == b {
        assert(a.len() == b.len());
    }
}

pub proof fn lemma_lex_transitive(a: Seq<char>, b: Seq<char>, c: Seq<char>)
    requires
        lex_lt(a, b),
        lex_lt(b, c),
    ensures
        lex_lt(a, c),
    decreases a.len(),
{
    if a.len() > 0 && b.len() > 0 && c.len() > 0 {
        if a[0] == b[0] && b[0] == c[0] {
            lemma_lex_transitive(a.drop_first(), b.drop_first(), c.drop_first());
        }
    }
}

/// Compare two strings in the `lex_lt` order.
pub fn str_lex_lt(a: &str, b: &str) -> (r: bool)
    ensures
        r == lex_lt(a@, b@),
{
    let an = a.unicode_len();
    let bn = b.unicode_len();
    let mut i: usize = 0;
    proof {
        assert(a@.skip(0) =~= a@);
        assert(b@.skip(0) =~= b@);
    }
    loop
        invariant
            i <= an,
            i <= bn,
            an == a@.len(),
            bn == b@.len(),
            lex_lt(a@, b@) == lex_lt(a@.skip(i as int), b@.skip(i as int)),
        decreases an - i,
    {
        if i == bn {
            proof {
                assert(b@.skip(i as int).len() == 0);
            }
            return false;
        }
        if i == an {
            proof {
                assert(a@.skip(i as int).len() == 0);
                assert(b@.skip(i as int).len() > 0);
            }
            return true;
        }
        let ca = a.get_char(i);
        let cb = b.get_char(i);
        if ca != cb {
            proof {
                let sa = a@.skip(i as int);
                let sb = b@.skip(i as int);
                assert(sa[0] == a@[i as int]);
                assert(sb[0] == b@[i as int]);
            }
            return ca < cb;
        }
        proof {
            let sa = a@.skip(i as int);
            let sb = b@.skip(i as int);
            assert(sa[0] == a@[i as int]);
            assert(sb[0] == b@[i as int]);
            assert(sa.drop_first() =~= a@.skip(i + 1));
            assert(sb.drop_first() =~= b@.skip(i + 1));
        }
        i = i + 1;
    }
}

/// `needle` occurs as a contiguous subsequence of `hay`.
pub open spec fn contains_seq(hay: Seq<char>, needle: Seq<char>) -> bool {
    exists|i: int|
        0 <= i <= hay.len() - needle.len() && #[trigger] hay.subrange(i, i + needle.len())
            == needle
}

/// Case-sensitive substring search.
pub fn str_contains(hay: &str, needle: &str) -> (r: bool)
    ensures
        r == contains_seq(hay@, needle@),
{
    let hn = hay.unicode_len();
    let nn = needle.unicode_len();
    if nn > hn {
        return false;
    }
    let mut i: usize = 0;
    loop
        invariant
            nn <= hn,
            hn == hay@.len(),
            nn == needle@.len(),
            i <= hn - nn,
            forall|k: int|
                0 <= k < i ==> #[trigger] hay@.subrange(k, k + needle@.len()) != needle@,
        decreases hn - nn - i,
    {
        let mut j: usize = 0;
        let mut mismatch = false;
        while j < nn
            invariant
                nn <= hn,
                hn == hay@.len(),
                nn == needle@.len(),
                i <= hn - nn,
                j <= nn,
                !mismatch ==> forall|t: int| 0 <= t < j ==> hay@[i + t] == needle@[t],
                mismatch ==> hay@.subrange(i as int, i + needle@.len()) != needle@,
            decreases nn - j,
        {
            if !mismatch {
                let ch = hay.get_char(i + j);
                let cn = needle.get_char(j);
                if ch != cn {
                    proof {
                        let sub = hay@.subrange(i as int, i + needle@.len());
                        assert(sub[j as int] == hay@[i + j]);
                        assert(sub != needle@);
                    }
                    mismatch = true;
                }
            }
            j = j + 1;
        }
        if !mismatch {
            proof {
                let sub = hay@.subrange(i as int, i + needle@.len());
                assert forall|t: int| 0 <= t < needle@.len() implies sub[t] == needle@[t] by {
                    assert(hay@[i + t] == needle@[t]);
                }
                assert(sub =~= needle@);
            }
            return true;
        }
        if i == hn - nn {
            proof {
                assert forall|k: int|
                    0 <= k <= hay@.len() - needle@.len() implies #[trigger] hay@.subrange(
                    k,
                    k + needle@.len(),
                ) != needle@ by {
                    if k < i {
                    } else {
                        assert(k == i);
                    }
                }
            }
            return false;
        }
        i = i + 1;
    }
}

} // verus!
