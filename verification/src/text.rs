//! Small helpers shared by the whole crate: turning strings into
//! character vectors and back, and copying plain vectors exactly.

use vstd::prelude::*;

verus! {

/// Collects the characters of a string slice into a vector.
pub fn chars_of(s: &str) -> (r: Vec<char>)
    ensures
        r@ == s@,
{
    let n = s.unicode_len();
    let mut r: Vec<char> = Vec::new();
    let mut i: usize = 0;
    while i < n
        invariant
            n == s@.len(),
            i <= n,
            r@ == s@.take(i as int),
        decreases n - i,
    {
        r.push(s.get_char(i));
        proof {
            assert(r@ =~= s@.take(i + 1));
        }
        i = i + 1;
    }
    proof {
        assert(s@.take(n as int) =~= s@);
    }
    r
}

/// Relies on `String::push`: appends one character to the string.
#[verifier::external_body]
fn push_char(s: &mut String, c: char)
    ensures
        final(s)@ == old(s)@.push(c),
{
    s.push(c);
}

/// Builds a string out of a vector of characters.
pub fn string_of_chars(v: &Vec<char>) -> (r: String)
    ensures
        r@ == v@,
{
    let mut r = String::new();
    let mut i: usize = 0;
    while i < v.len()
        invariant
            i <= v@.len(),
            r@ == v@.take(i as int),
        decreases v@.len() - i,
    {
        push_char(&mut r, v[i]);
        proof {
            assert(r@ =~= v@.take(i + 1));
        }
        i = i + 1;
    }
    proof {
        assert(v@.take(v@.len() as int) =~= v@);
    }
    r
}

/// Copies a vector of characters.
pub fn copy_chars(v: &Vec<char>) -> (r: Vec<char>)
    ensures
        r@ == v@,
{
    let mut r: Vec<char> = Vec::new();
    let mut i: usize = 0;
    while i < v.len()
        invariant
            i <= v@.len(),
            r@ == v@.take(i as int),
        decreases v@.len() - i,
    {
        r.push(v[i]);
        proof {
            assert(r@ =~= v@.take(i + 1));
        }
        i = i + 1;
    }
    proof {
        assert(v@.take(v@.len() as int) =~= v@);
    }
    r
}

} // verus!

verus! {

/// The position of the first `sep` in `s`, or its length when absent.
pub open spec fn find_char(s: Seq<char>, sep: char) -> int
    decreases s.len(),
{
    if s.len() == 0 {
        0
    } else if s[0] == sep {
        0
    } else {
        1 + find_char(s.drop_first(), sep)
    }
}

/// The first-occurrence position never passes the end, and nothing
/// before it is the separator; at the end, the separator is absent.
pub proof fn lemma_find_char(s: Seq<char>, sep: char)
    ensures
        0 <= find_char(s, sep) <= s.len(),
        find_char(s, sep) < s.len() ==> s[find_char(s, sep)] == sep,
        forall|j: int| 0 <= j < find_char(s, sep) ==> s[j] != sep,
    decreases s.len(),
{
    if s.len() > 0 && s[0] != sep {
        lemma_find_char(s.drop_first(), sep);
        assert forall|j: int| 0 <= j < find_char(s, sep) implies s[j] != sep by {
            if j > 0 {
                assert(s.drop_first()[j - 1] == s[j]);
            }
        }
    }
}

/// Finds the first `sep` in a character vector, or the length.
pub fn index_of(v: &Vec<char>, sep: char) -> (r: usize)
    ensures
        r as int == find_char(v@, sep),
{
    let mut m: usize = 0;
    proof {
        assert(v@.skip(0) =~= v@);
    }
    while m < v.len()
        invariant
            m <= v@.len(),
            find_char(v@, sep) == m + find_char(v@.skip(m as int), sep),
        decreases v@.len() - m,
    {
        if v[m] == sep {
            assert(v@.skip(m as int)[0] == v@[m as int]);
            return m;
        }
        proof {
            assert(v@.skip(m as int)[0] == v@[m as int]);
            assert(v@.skip(m as int).drop_first() =~= v@.skip(m as int + 1));
        }
        m = m + 1;
    }
    proof {
        assert(v@.skip(v@.len() as int) =~= Seq::<char>::empty());
    }
    m
}

/// A white-space code unit, as `str::trim` understands them: the
/// characters with the Unicode white-space property.
pub open spec fn is_ws(c: char) -> bool {
    ||| c == '\u{0009}'
    ||| c == '\u{000A}'
    ||| c == '\u{000B}'
    ||| c == '\u{000C}'
    ||| c == '\u{000D}'
    ||| c == '\u{0020}'
    ||| c == '\u{0085}'
    ||| c == '\u{00A0}'
    ||| c == '\u{1680}'
    ||| c == '\u{2000}'
    ||| c == '\u{2001}'
    ||| c == '\u{2002}'
    ||| c == '\u{2003}'
    ||| c == '\u{2004}'
    ||| c == '\u{2005}'
    ||| c == '\u{2006}'
    ||| c == '\u{2007}'
    ||| c == '\u{2008}'
    ||| c == '\u{2009}'
    ||| c == '\u{200A}'
    ||| c == '\u{2028}'
    ||| c == '\u{2029}'
    ||| c == '\u{202F}'
    ||| c == '\u{205F}'
    ||| c == '\u{3000}'
}

/// `s` without leading whitespace.
pub open spec fn trim_front(s: Seq<char>) -> Seq<char>
    decreases s.len(),
{
    if s.len() > 0 && is_ws(s[0]) {
        trim_front(s.drop_first())
    } else {
        s
    }
}

/// `s` without trailing whitespace.
pub open spec fn trim_back(s: Seq<char>) -> Seq<char>
    decreases s.len(),
{
    if s.len() > 0 && is_ws(s.last()) {
        trim_back(s.drop_last())
    } else {
        s
    }
}

/// `s` without leading and trailing whitespace.
pub open spec fn trim_spec(s: Seq<char>) -> Seq<char> {
    trim_back(trim_front(s))
}

/// An executable whitespace test.
fn is_ws_exec(c: char) -> (r: bool)
    ensures
        r == is_ws(c),
{
    match c {
        '\u{0009}' | '\u{000A}' | '\u{000B}' | '\u{000C}' | '\u{000D}' | '\u{0020}' | '\u{0085}' | '\u{00A0}' | '\u{1680}' | '\u{2000}' | '\u{2001}' | '\u{2002}' | '\u{2003}' | '\u{2004}' | '\u{2005}' | '\u{2006}' | '\u{2007}' | '\u{2008}' | '\u{2009}' | '\u{200A}' | '\u{2028}' | '\u{2029}' | '\u{202F}' | '\u{205F}' | '\u{3000}' => true,
        _ => false,
    }
}

/// Strips leading and trailing whitespace from a character vector.
pub fn trim_chars(v: &Vec<char>) -> (r: Vec<char>)
    ensures
        r@ == trim_spec(v@),
{
    let mut start: usize = 0;
    proof {
        assert(v@.skip(0) =~= v@);
    }
    while start < v.len() && is_ws_exec(v[start])
        invariant
            start <= v@.len(),
            trim_front(v@) == trim_front(v@.skip(start as int)),
        decreases v@.len() - start,
    {
        proof {
            assert(v@.skip(start as int)[0] == v@[start as int]);
            assert(v@.skip(start as int).drop_first() =~= v@.skip(start as int + 1));
        }
        start = start + 1;
    }
    proof {
        if start < v@.len() {
            assert(v@.skip(start as int)[0] == v@[start as int]);
        } else {
            assert(v@.skip(start as int) =~= Seq::<char>::empty());
        }
        assert(trim_front(v@) == v@.skip(start as int));
    }
    let mut end: usize = v.len();
    proof {
        assert(v@.subrange(start as int, end as int) =~= v@.skip(start as int));
    }
    while end > start && is_ws_exec(v[end - 1])
        invariant
            start <= end <= v@.len(),
            trim_back(v@.skip(start as int)) == trim_back(
                v@.subrange(start as int, end as int),
            ),
        decreases end,
    {
        proof {
            let sub = v@.subrange(start as int, end as int);
            assert(sub.last() == v@[end - 1]);
            assert(sub.drop_last() =~= v@.subrange(start as int, end as int - 1));
        }
        end = end - 1;
    }
    proof {
        let sub = v@.subrange(start as int, end as int);
        if end > start {
            assert(sub.last() == v@[end - 1]);
        }
        assert(trim_back(sub) == sub);
    }
    let mut r: Vec<char> = Vec::new();
    let mut m: usize = start;
    while m < end
        invariant
            start <= m <= end <= v@.len(),
            r@ == v@.subrange(start as int, m as int),
        decreases end - m,
    {
        r.push(v[m]);
        proof {
            assert(r@ =~= v@.subrange(start as int, m as int + 1));
        }
        m = m + 1;
    }
    proof {
        assert(r@ == trim_spec(v@));
    }
    r
}

/// Copies `v[from..to]` into a fresh vector.
pub fn slice_chars(v: &Vec<char>, from: usize, to: usize) -> (r: Vec<char>)
    requires
        from <= to <= v@.len(),
    ensures
        r@ == v@.subrange(from as int, to as int),
{
    let mut r: Vec<char> = Vec::new();
    let mut m: usize = from;
    while m < to
        invariant
            from <= m <= to <= v@.len(),
            r@ == v@.subrange(from as int, m as int),
        decreases to - m,
    {
        r.push(v[m]);
        proof {
            assert(r@ =~= v@.subrange(from as int, m as int + 1));
        }
        m = m + 1;
    }
    r
}

} // verus!

verus! {

/// The views of a list of character vectors.
pub open spec fn seg_views(segs: Seq<Vec<char>>) -> Seq<Seq<char>> {
    segs.map_values(|v: Vec<char>| v@)
}

/// The segments of `s` between occurrences of `sep`: always one more
/// segment than separators, empty segments included.
pub open spec fn split_spec(s: Seq<char>, sep: char) -> Seq<Seq<char>>
    decreases s.len(),
    via split_spec_decreases
{
    let i = find_char(s, sep);
    if i == s.len() {
        seq![s]
    } else {
        seq![s.take(i)] + split_spec(s.skip(i + 1), sep)
    }
}

#[via_fn]
proof fn split_spec_decreases(s: Seq<char>, sep: char) {
    lemma_find_char(s, sep);
}

/// Splits a character vector on a separator.
pub fn split_chars(v: &Vec<char>, sep: char) -> (r: Vec<Vec<char>>)
    ensures
        seg_views(r@) == split_spec(v@, sep),
        r@.len() >= 1,
{
    let mut r: Vec<Vec<char>> = Vec::new();
    let mut rest = copy_chars(v);
    proof {
        assert(seg_views(r@) =~= Seq::<Seq<char>>::empty());
        assert(seg_views(r@) + split_spec(rest@, sep) =~= split_spec(v@, sep));
    }
    loop
        invariant
            seg_views(r@) + split_spec(rest@, sep) == split_spec(v@, sep),
        decreases rest@.len(),
    {
        let i = index_of(&rest, sep);
        proof {
            lemma_find_char(rest@, sep);
        }
        if i == rest.len() {
            let ghost pre = r@;
            r.push(rest);
            proof {
                assert(split_spec(v@, sep) =~= seg_views(pre) + seq![r@[r@.len() - 1]@]);
                assert(seg_views(r@) =~= seg_views(pre).push(r@[r@.len() - 1]@));
                assert(seg_views(r@) =~= split_spec(v@, sep));
            }
            return r;
        }
        let part = slice_chars(&rest, 0, i);
        let tail = slice_chars(&rest, i + 1, rest.len());
        proof {
            assert(part@ =~= rest@.take(i as int));
            assert(tail@ =~= rest@.skip(i as int + 1));
        }
        let ghost pre = r@;
        let ghost prest = rest@;
        r.push(part);
        rest = tail;
        proof {
            assert(seg_views(r@) =~= seg_views(pre).push(prest.take(i as int)));
            assert(seg_views(r@) + split_spec(rest@, sep) =~= seg_views(pre) + split_spec(
                prest,
                sep,
            ));
        }
    }
}

} // verus!

verus! {

/// A prefix one longer holds `c` exactly when the shorter prefix did or
/// the new element is `c`.
pub proof fn lemma_contains_take_succ(s: Seq<char>, m: int, c: char)
    requires
        0 <= m < s.len(),
    ensures
        s.take(m + 1).contains(c) <==> (s.take(m).contains(c) || s[m] == c),
{
    if s.take(m + 1).contains(c) {
        let w = choose|w: int| 0 <= w < s.take(m + 1).len() && #[trigger] s.take(m + 1)[w] == c;
        if w < m {
            assert(s.take(m)[w] == c);
        }
    }
    if s.take(m).contains(c) {
        let w = choose|w: int| 0 <= w < s.take(m).len() && #[trigger] s.take(m)[w] == c;
        assert(s.take(m + 1)[w] == c);
    }
    if s[m] == c {
        assert(s.take(m + 1)[m] == c);
    }
}

} // verus!
