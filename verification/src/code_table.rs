//! The code-table engine: a dictionary of code-sequence/text entries
//! loaded once into a persistent trie, and the factory for input
//! sessions over it.
//!
//! Each dictionary line is `text TAB codes [TAB priority]`; a line that
//! does not fit that shape aborts the build, since no partial table
//! should ever be served.

use vstd::prelude::*;
use crate::engine::Configuration;
use crate::input_context::{CodeTableContext, ResultText};
use crate::persistent_trie::PersistentTrie;
use crate::text::{chars_of, find_char, lemma_find_char, lemma_contains_take_succ, index_of, slice_chars, string_of_chars, trim_chars, trim_spec};

verus! {

/// An ASCII decimal digit.
pub open spec fn is_ascii_digit(c: char) -> bool {
    48 <= c as int <= 57
}

/// The number a digit string denotes, most significant digit first.
pub open spec fn digits_val(s: Seq<char>) -> int
    decreases s.len(),
{
    if s.len() == 0 {
        0
    } else {
        digits_val(s.drop_last()) * 10 + (s.last() as int - 48)
    }
}

/// A digit string's value only grows as digits are appended, and never
/// drops below any prefix's value.
proof fn lemma_digits_val_monotone(s: Seq<char>, k: int)
    requires
        all_digits(s),
        0 <= k <= s.len(),
    ensures
        0 <= digits_val(s.take(k)) <= digits_val(s),
    decreases s.len() - k,
{
    if k == s.len() {
        assert(s.take(k) =~= s);
        lemma_digits_val_nonneg(s);
    } else {
        lemma_digits_val_monotone(s, k + 1);
        assert(s.take(k + 1).drop_last() =~= s.take(k));
        assert(s.take(k + 1).last() == s[k]);
        assert(all_digits(s.take(k))) by {
            assert forall|j: int| 0 <= j < s.take(k).len() implies is_ascii_digit(
                #[trigger] s.take(k)[j],
            ) by {
                assert(s.take(k)[j] == s[j]);
            }
        }
        lemma_digits_val_nonneg(s.take(k));
    }
}

/// A digit string's value is never negative.
proof fn lemma_digits_val_nonneg(s: Seq<char>)
    requires
        all_digits(s),
    ensures
        digits_val(s) >= 0,
    decreases s.len(),
{
    if s.len() > 0 {
        assert(all_digits(s.drop_last())) by {
            assert forall|j: int| 0 <= j < s.drop_last().len() implies is_ascii_digit(
                #[trigger] s.drop_last()[j],
            ) by {
                assert(s.drop_last()[j] == s[j]);
            }
        }
        lemma_digits_val_nonneg(s.drop_last());
    }
}

/// A priority field with its optional leading plus sign removed.
pub open spec fn digits_part(s: Seq<char>) -> Seq<char> {
    if s.len() > 0 && s[0] == '+' {
        s.drop_first()
    } else {
        s
    }
}

/// Every code unit of `d` is a decimal digit.
pub open spec fn all_digits(d: Seq<char>) -> bool {
    forall|j: int| 0 <= j < d.len() ==> is_ascii_digit(#[trigger] d[j])
}

/// What a decimal priority field denotes: an optional leading plus sign,
/// then at least one digit, denoting a value that fits in 32 bits.
pub open spec fn parse_u32_spec(s: Seq<char>) -> Option<u32> {
    let d = digits_part(s);
    if d.len() > 0 && all_digits(d) && digits_val(d) <= u32::MAX {
        Some(digits_val(d) as u32)
    } else {
        None
    }
}

/// The numeric value of a decimal digit, or nothing.
fn digit_of(c: char) -> (r: Option<u32>)
    ensures
        r == (if is_ascii_digit(c) {
            Some((c as int - 48) as u32)
        } else {
            None::<u32>
        }),
{
    match c {
        '0' => Some(0),
        '1' => Some(1),
        '2' => Some(2),
        '3' => Some(3),
        '4' => Some(4),
        '5' => Some(5),
        '6' => Some(6),
        '7' => Some(7),
        '8' => Some(8),
        '9' => Some(9),
        _ => None,
    }
}

/// Parses a decimal priority field.
pub fn parse_u32(v: &Vec<char>) -> (r: Option<u32>)
    ensures
        r == parse_u32_spec(v@),
{
    let start: usize = if v.len() > 0 && v[0] == '+' {
        1
    } else {
        0
    };
    let ghost d = digits_part(v@);
    proof {
        assert(d =~= v@.subrange(start as int, v@.len() as int));
    }
    if v.len() == start {
        return None;
    }
    let mut acc: u32 = 0;
    let mut m: usize = start;
    proof {
        assert(d.take(0) =~= Seq::<char>::empty());
    }
    while m < v.len()
        invariant
            start <= m <= v@.len(),
            d == digits_part(v@),
            d == v@.subrange(start as int, v@.len() as int),
            acc as int == digits_val(d.take(m - start)),
            forall|j: int| 0 <= j < m - start ==> is_ascii_digit(#[trigger] d[j]),
        decreases v@.len() - m,
    {
        let c = v[m];
        let dig_opt = digit_of(c);
        if dig_opt.is_none() {
            proof {
                assert(d[m - start] == v@[m as int]);
                assert(!is_ascii_digit(d[m - start]));
                if parse_u32_spec(v@) is Some {
                    assert(all_digits(d));
                    assert(is_ascii_digit(d[m - start]));
                }
            }
            return None;
        }
        let dig = dig_opt.unwrap();
        if acc > (u32::MAX - dig) / 10 {
            proof {
                assert(d[m - start] == v@[m as int]);
                assert(d.take(m - start + 1).drop_last() =~= d.take(m - start));
                assert(d.take(m - start + 1).last() == d[m - start]);
                assert(digits_val(d.take(m - start + 1)) == acc * 10 + dig) by (nonlinear_arith)
                    requires
                        acc as int == digits_val(d.take(m - start)),
                        digits_val(d.take(m - start + 1)) == digits_val(d.take(m - start)) * 10 + (
                        d.take(m - start + 1).last() as int - 48),
                        d.take(m - start + 1).last() as int - 48 == dig as int,
                ;
                assert(acc * 10 + dig > u32::MAX) by (nonlinear_arith)
                    requires
                        acc > (u32::MAX - dig) / 10,
                        0 <= dig <= 9,
                ;
                if parse_u32_spec(v@) is Some {
                    assert(all_digits(d));
                    lemma_digits_val_monotone(d, m - start + 1);
                    assert(digits_val(d.take(m - start + 1)) <= digits_val(d));
                }
            }
            return None;
        }
        proof {
            assert(acc * 10 + dig <= u32::MAX) by (nonlinear_arith)
                requires
                    acc <= (u32::MAX - dig) / 10,
                    0 <= dig <= 9,
            ;
        }
        acc = acc * 10 + dig;
        proof {
            assert(d[m - start] == v@[m as int]);
            assert(d.take(m - start + 1).drop_last() =~= d.take(m - start));
            assert(d.take(m - start + 1).last() == d[m - start]);
        }
        m = m + 1;
    }
    proof {
        assert(d.take(d.len() as int) =~= d);
        assert(all_digits(d));
    }
    Some(acc)
}

/// What a dictionary line denotes after trimming: the entry text, its
/// code sequence, and its priority — 100 when the line has exactly two
/// tab-separated fields, the third field's number otherwise.  A line
/// with no tab, or with an unreadable priority, denotes nothing.
pub open spec fn parse_line_spec(s: Seq<char>) -> Option<(Seq<char>, Seq<char>, u32)> {
    let t = trim_spec(s);
    let i1 = find_char(t, '\t');
    if i1 == t.len() {
        None
    } else {
        let text = t.take(i1);
        let rest1 = t.skip(i1 + 1);
        let i2 = find_char(rest1, '\t');
        if i2 == rest1.len() {
            Some((text, rest1, 100u32))
        } else {
            let code = rest1.take(i2);
            let rest2 = rest1.skip(i2 + 1);
            let i3 = find_char(rest2, '\t');
            match parse_u32_spec(rest2.take(i3)) {
                Some(p) => Some((text, code, p)),
                None => None,
            }
        }
    }
}

/// Parses one dictionary line into text, code sequence and priority.
pub fn parse_line(line: &str) -> (r: Option<(String, Vec<char>, u32)>)
    ensures
        r is Some <==> parse_line_spec(line@) is Some,
        r is Some ==> {
            let e = parse_line_spec(line@)->Some_0;
            &&& r->Some_0.0@ == e.0
            &&& r->Some_0.1@ == e.1
            &&& r->Some_0.2 == e.2
        },
{
    let raw = chars_of(line);
    let t = trim_chars(&raw);
    let i1 = index_of(&t, '\t');
    proof {
        lemma_find_char(t@, '\t');
    }
    if i1 == t.len() {
        return None;
    }
    let text_chars = slice_chars(&t, 0, i1);
    let text = string_of_chars(&text_chars);
    let rest1 = slice_chars(&t, i1 + 1, t.len());
    proof {
        assert(t@.subrange(0, i1 as int) =~= t@.take(i1 as int));
        assert(t@.subrange(i1 as int + 1, t@.len() as int) =~= t@.skip(i1 as int + 1));
    }
    let i2 = index_of(&rest1, '\t');
    proof {
        lemma_find_char(rest1@, '\t');
    }
    if i2 == rest1.len() {
        return Some((text, rest1, 100));
    }
    let code = slice_chars(&rest1, 0, i2);
    let rest2 = slice_chars(&rest1, i2 + 1, rest1.len());
    proof {
        assert(rest1@.subrange(0, i2 as int) =~= rest1@.take(i2 as int));
        assert(rest1@.subrange(i2 as int + 1, rest1@.len() as int) =~= rest1@.skip(i2 as int + 1));
    }
    let i3 = index_of(&rest2, '\t');
    proof {
        lemma_find_char(rest2@, '\t');
    }
    let pr_chars = slice_chars(&rest2, 0, i3);
    proof {
        assert(rest2@.subrange(0, i3 as int) =~= rest2@.take(i3 as int));
    }
    match parse_u32(&pr_chars) {
        Some(p) => Some((text, code, p)),
        None => None,
    }
}

} // verus!

verus! {

/// The views of a value list: text and priority pairs.
pub open spec fn value_views(s: Seq<ResultText>) -> Seq<(Seq<char>, u32)> {
    s.map_values(|v: ResultText| v@)
}

/// The views of the dictionary lines.
pub open spec fn line_views(lines: Seq<String>) -> Seq<Seq<char>> {
    lines.map_values(|l: String| l@)
}

/// Every line denotes an entry.
pub open spec fn all_lines_ok(ls: Seq<Seq<char>>) -> bool {
    forall|i: int| 0 <= i < ls.len() ==> parse_line_spec(#[trigger] ls[i]) is Some
}

/// What the finished table maps a code sequence to: the text and
/// priority of every line whose code sequence is exactly `q`, in line
/// order.
pub open spec fn table_values_model(ls: Seq<Seq<char>>, q: Seq<char>) -> Seq<(Seq<char>, u32)>
    decreases ls.len(),
{
    if ls.len() == 0 {
        Seq::empty()
    } else {
        let prev = table_values_model(ls.drop_last(), q);
        match parse_line_spec(ls.last()) {
            Some(e) => if e.1 == q {
                prev.push((e.0, e.2))
            } else {
                prev
            },
            None => prev,
        }
    }
}

/// Whether some line's code sequence uses the code unit `c`.
pub open spec fn keycode_in_lines(ls: Seq<Seq<char>>, c: char) -> bool
    decreases ls.len(),
{
    if ls.len() == 0 {
        false
    } else {
        keycode_in_lines(ls.drop_last(), c) || (match parse_line_spec(ls.last()) {
            Some(e) => e.1.contains(c),
            None => false,
        })
    }
}

/// Whether a character vector holds `c`.
pub fn contains_char(v: &Vec<char>, c: char) -> (r: bool)
    ensures
        r == v@.contains(c),
{
    let mut m: usize = 0;
    while m < v.len()
        invariant
            m <= v@.len(),
            forall|j: int| 0 <= j < m ==> v@[j] != c,
        decreases v@.len() - m,
    {
        if v[m] == c {
            return true;
        }
        m = m + 1;
    }
    false
}

/// The code-table engine: the finished trie, the set of code units the
/// dictionary uses, and whether only perfect matches are to be shown.
#[derive(Debug)]
pub struct CodeTable {
    pub table: PersistentTrie,
    pub keycodes: Vec<char>,
    pub perfect_only: bool,
}

impl CodeTable {
    /// The trie is finalized and the keycode list holds no duplicates.
    pub open spec fn wf(&self) -> bool {
        &&& self.table.wf()
        &&& self.table.maintained()
        &&& forall|a: int, b: int|
            0 <= a < b < self.keycodes@.len() ==> self.keycodes@[a] != self.keycodes@[b]
    }

    /// Builds the table from the dictionary lines named by a code-table
    /// configuration.  Succeeds exactly when the configuration selects
    /// this engine and every line is well formed; the finished table
    /// then maps each code sequence to exactly its lines' entries, in
    /// line order, and knows exactly the code units the lines use.
    pub fn new(config: Configuration, lines: &Vec<String>) -> (r: Option<CodeTable>)
        ensures
            r is Some <==> (config is CodeTable && all_lines_ok(line_views(lines@))),
            r is Some ==> {
                let ct = r->Some_0;
                &&& ct.wf()
                &&& ct.perfect_only == config->CodeTable_perfect_only
                &&& forall|q: Seq<char>|
                    value_views(#[trigger] ct.table.spec_values_at(q)) == table_values_model(
                        line_views(lines@),
                        q,
                    )
                &&& forall|c: char|
                    #[trigger] ct.keycodes@.contains(c) <==> keycode_in_lines(
                        line_views(lines@),
                        c,
                    )
            },
    {
        let perfect_only = match &config {
            Configuration::CodeTable { perfect_only, .. } => *perfect_only,
            _ => {
                return None;
            },
        };
        let ghost ls = line_views(lines@);
        let mut table = PersistentTrie::new();
        let mut keycodes: Vec<char> = Vec::new();
        let mut i: usize = 0;
        proof {
            assert(ls.take(0) =~= Seq::<Seq<char>>::empty());
            assert forall|q: Seq<char>|
                value_views(#[trigger] table.spec_values_at(q)) == table_values_model(
                    ls.take(0),
                    q,
                ) by {
                assert(value_views(Seq::<ResultText>::empty()) =~= Seq::<(Seq<char>, u32)>::empty());
            }
        }
        while i < lines.len()
            invariant
                i <= lines@.len(),
                ls == line_views(lines@),
                table.wf(),
                forall|j: int| 0 <= j < i ==> parse_line_spec(#[trigger] ls[j]) is Some,
                forall|q: Seq<char>|
                    value_views(#[trigger] table.spec_values_at(q)) == table_values_model(
                        ls.take(i as int),
                        q,
                    ),
                forall|c: char|
                    #[trigger] keycodes@.contains(c) <==> keycode_in_lines(ls.take(i as int), c),
                forall|a: int, b: int|
                    0 <= a < b < keycodes@.len() ==> keycodes@[a] != keycodes@[b],
            decreases lines@.len() - i,
        {
            let parsed = parse_line(lines[i].as_str());
            let (text, codes, priority) = match parsed {
                Some(t) => t,
                None => {
                    proof {
                        assert(ls[i as int] == lines@[i as int]@);
                        if all_lines_ok(ls) {
                            assert(parse_line_spec(ls[i as int]) is Some);
                        }
                    }
                    return None;
                },
            };
            proof {
                assert(ls[i as int] == lines@[i as int]@);
            }
            let ghost prev_table = table;
            table.insert(&codes, ResultText { text, priority });
            proof {
                let e = parse_line_spec(ls[i as int])->Some_0;
                assert(ls.take(i + 1).drop_last() =~= ls.take(i as int));
                assert(ls.take(i + 1).last() == ls[i as int]);
                assert forall|q: Seq<char>|
                    value_views(#[trigger] table.spec_values_at(q)) == table_values_model(
                        ls.take(i + 1),
                        q,
                    ) by {
                    if q == codes@ {
                        let oldvals = prev_table.spec_values_at(q);
                        let newvals = table.spec_values_at(q);
                        assert(value_views(newvals) =~= value_views(oldvals).push((e.0, e.2))) by {
                            assert forall|w: int| 0 <= w < value_views(newvals).len() implies
                                value_views(newvals)[w] == value_views(oldvals).push(
                                (e.0, e.2),
                            )[w] by {
                                if w < oldvals.len() {
                                    assert(newvals[w] == oldvals[w]);
                                } else {
                                    assert(newvals[w]@ == (e.0, e.2));
                                }
                            }
                        }
                    }
                }
            }
            let mut m: usize = 0;
            proof {
                assert(codes@.take(0) =~= Seq::<char>::empty());
                assert forall|c: char|
                    #[trigger] keycodes@.contains(c) <==> (keycode_in_lines(ls.take(i as int), c)
                        || codes@.take(0).contains(c)) by {
                    if codes@.take(0).contains(c) {
                        let w = choose|w: int|
                            0 <= w < codes@.take(0).len() && #[trigger] codes@.take(0)[w] == c;
                    }
                }
            }
            while m < codes.len()
                invariant
                    m <= codes@.len(),
                    forall|c: char|
                        #[trigger] keycodes@.contains(c) <==> (keycode_in_lines(
                            ls.take(i as int),
                            c,
                        ) || codes@.take(m as int).contains(c)),
                    forall|a: int, b: int|
                        0 <= a < b < keycodes@.len() ==> keycodes@[a] != keycodes@[b],
                decreases codes@.len() - m,
            {
                let ch = codes[m];
                let already = contains_char(&keycodes, ch);
                let ghost prevk = keycodes@;
                if !already {
                    keycodes.push(ch);
                }
                proof {
                    lemma_contains_take_succ(codes@, m as int, ch);
                    assert forall|c: char|
                        #[trigger] keycodes@.contains(c) <==> (keycode_in_lines(
                            ls.take(i as int),
                            c,
                        ) || codes@.take(m + 1).contains(c)) by {
                        if c != ch {
                            assert(keycodes@.contains(c) <==> prevk.contains(c)) by {
                                if prevk.contains(c) {
                                    let w = choose|w: int|
                                        0 <= w < prevk.len() && #[trigger] prevk[w] == c;
                                    assert(keycodes@[w] == c);
                                }
                                if keycodes@.contains(c) {
                                    let w = choose|w: int|
                                        0 <= w < keycodes@.len() && #[trigger] keycodes@[w] == c;
                                    if w < prevk.len() {
                                        assert(prevk[w] == c);
                                    }
                                }
                            }
                            if codes@.take(m + 1).contains(c) {
                                lemma_contains_take_succ(codes@, m as int, c);
                            }
                            if codes@.take(m as int).contains(c) {
                                lemma_contains_take_succ(codes@, m as int, c);
                            }
                        } else {
                            assert(keycodes@.contains(ch)) by {
                                if already {
                                    let w = choose|w: int|
                                        0 <= w < prevk.len() && #[trigger] prevk[w] == ch;
                                    assert(keycodes@[w] == ch);
                                } else {
                                    assert(keycodes@.last() == ch);
                                }
                            }
                            assert(codes@.take(m + 1).contains(ch)) by {
                                assert(codes@.take(m + 1)[m as int] == ch);
                            }
                        }
                    }
                    assert forall|a: int, b: int|
                        0 <= a < b < keycodes@.len() implies keycodes@[a] != keycodes@[b] by {
                        if b == keycodes@.len() - 1 && !already {
                            if keycodes@[a] == ch {
                                assert(prevk[a] == ch);
                                assert(prevk.contains(ch));
                            }
                        } else {
                            assert(keycodes@[a] == prevk[a] && keycodes@[b] == prevk[b]);
                        }
                    }
                }
                m = m + 1;
            }
            proof {
                assert(codes@.take(codes@.len() as int) =~= codes@);
                let e = parse_line_spec(ls[i as int])->Some_0;
                assert(ls.take(i + 1).drop_last() =~= ls.take(i as int));
                assert(ls.take(i + 1).last() == ls[i as int]);
                assert forall|c: char|
                    #[trigger] keycodes@.contains(c) <==> keycode_in_lines(ls.take(i + 1), c) by {}
            }
            i = i + 1;
        }
        proof {
            assert(ls.take(ls.len() as int) =~= ls);
        }
        let ghost prevt = table;
        table.maintain();
        proof {
            assert forall|q: Seq<char>|
                value_views(#[trigger] table.spec_values_at(q)) == table_values_model(ls, q) by {
                assert(table.spec_values_at(q) == prevt.spec_values_at(q));
                assert(value_views(prevt.spec_values_at(q)) == table_values_model(
                    ls.take(ls.len() as int),
                    q,
                ));
            }
        }
        Some(CodeTable { table, keycodes, perfect_only })
    }

    /// Starts one input session at the table's root, under the given
    /// registry-assigned identifier.
    pub fn start_context(&self, id: u32) -> (r: CodeTableContext)
        requires
            self.wf(),
        ensures
            r.wf(&self.table),
            r@.input.len() == 0,
            r@.overflow == 0,
            r@.id == id,
            r@.cur == self.table.root,
    {
        let r = CodeTableContext::new(self.table.root(), id);
        proof {
            assert(r@.input.take(0) =~= Seq::<char>::empty());
            assert(crate::persistent_trie::node_at(
                self.table.nodes@,
                self.table.root as int,
                Seq::<char>::empty(),
            ) == Some(self.table.root as int));
        }
        r
    }

    /// The set of code units the dictionary uses, as a fresh vector.
    pub fn keycodes(&self) -> (r: Vec<char>)
        ensures
            r@ == self.keycodes@,
    {
        crate::text::copy_chars(&self.keycodes)
    }
}

} // verus!
