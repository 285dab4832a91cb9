//! The pinyin code alphabet and the scheme (keymap) tables built over
//! it, together with the assist-code dictionary.  These back the
//! phonetic engine; the scheme and dictionary files themselves are read
//! and decoded by the host process.

use vstd::prelude::*;
use crate::input_context::ResultText;
use crate::persistent_trie::PersistentTrie;
use crate::text::{chars_of, lemma_contains_take_succ, seg_views, split_chars, split_spec, trim_chars, trim_spec};
use crate::code_table::{contains_char, value_views};

verus! {

/// A pinyin initial.
#[derive(Debug, Clone, Copy, PartialEq, Eq, Structural)]
pub enum PinyinInitials {
    B,
    P,
    M,
    F,
    D,
    T,
    N,
    L,
    G,
    K,
    H,
    J,
    Q,
    X,
    ZH,
    CH,
    SH,
    R,
    C,
    S,
    Y,
    W,
}

/// A pinyin final.
#[derive(Debug, Clone, Copy, PartialEq, Eq, Structural)]
pub enum PinyinFinals {
    A,
    O,
    E,
    I,
    U,
    V,
    AI,
    EI,
    UI,
    AO,
    OU,
    IU,
    IE,
    VE,
    ER,
    AN,
    EN,
    IN,
    UN,
    VN,
    ANG,
    ENG,
    ING,
    ONG,
}

/// One pinyin code: an initial or a final.
#[derive(Debug, Clone, Copy, PartialEq, Eq, Structural)]
pub enum PinyinCode {
    Initials(PinyinInitials),
    Finals(PinyinFinals),
}

/// An ASCII letter lowered; anything else unchanged.
pub open spec fn lower_char(c: char) -> char {
    if c == 'A' {
        'a'
    } else
    if c == 'B' {
        'b'
    } else
    if c == 'C' {
        'c'
    } else
    if c == 'D' {
        'd'
    } else
    if c == 'E' {
        'e'
    } else
    if c == 'F' {
        'f'
    } else
    if c == 'G' {
        'g'
    } else
    if c == 'H' {
        'h'
    } else
    if c == 'I' {
        'i'
    } else
    if c == 'J' {
        'j'
    } else
    if c == 'K' {
        'k'
    } else
    if c == 'L' {
        'l'
    } else
    if c == 'M' {
        'm'
    } else
    if c == 'N' {
        'n'
    } else
    if c == 'O' {
        'o'
    } else
    if c == 'P' {
        'p'
    } else
    if c == 'Q' {
        'q'
    } else
    if c == 'R' {
        'r'
    } else
    if c == 'S' {
        's'
    } else
    if c == 'T' {
        't'
    } else
    if c == 'U' {
        'u'
    } else
    if c == 'V' {
        'v'
    } else
    if c == 'W' {
        'w'
    } else
    if c == 'X' {
        'x'
    } else
    if c == 'Y' {
        'y'
    } else
    if c == 'Z' {
        'z'
    } else {
        c
    }
}

/// The views of a lowered character sequence.
pub open spec fn lower_chars(s: Seq<char>) -> Seq<char> {
    s.map_values(|c: char| lower_char(c))
}

/// The single-letter pinyin codes.
pub open spec fn pinyin1(a: char) -> Option<PinyinCode> {
    if a == 'b' {
        Some(PinyinCode::Initials(PinyinInitials::B))
    } else
    if a == 'p' {
        Some(PinyinCode::Initials(PinyinInitials::P))
    } else
    if a == 'm' {
        Some(PinyinCode::Initials(PinyinInitials::M))
    } else
    if a == 'f' {
        Some(PinyinCode::Initials(PinyinInitials::F))
    } else
    if a == 'd' {
        Some(PinyinCode::Initials(PinyinInitials::D))
    } else
    if a == 't' {
        Some(PinyinCode::Initials(PinyinInitials::T))
    } else
    if a == 'n' {
        Some(PinyinCode::Initials(PinyinInitials::N))
    } else
    if a == 'l' {
        Some(PinyinCode::Initials(PinyinInitials::L))
    } else
    if a == 'g' {
        Some(PinyinCode::Initials(PinyinInitials::G))
    } else
    if a == 'k' {
        Some(PinyinCode::Initials(PinyinInitials::K))
    } else
    if a == 'h' {
        Some(PinyinCode::Initials(PinyinInitials::H))
    } else
    if a == 'j' {
        Some(PinyinCode::Initials(PinyinInitials::J))
    } else
    if a == 'q' {
        Some(PinyinCode::Initials(PinyinInitials::Q))
    } else
    if a == 'x' {
        Some(PinyinCode::Initials(PinyinInitials::X))
    } else
    if a == 'r' {
        Some(PinyinCode::Initials(PinyinInitials::R))
    } else
    if a == 'c' {
        Some(PinyinCode::Initials(PinyinInitials::C))
    } else
    if a == 's' {
        Some(PinyinCode::Initials(PinyinInitials::S))
    } else
    if a == 'y' {
        Some(PinyinCode::Initials(PinyinInitials::Y))
    } else
    if a == 'w' {
        Some(PinyinCode::Initials(PinyinInitials::W))
    } else
    if a == 'a' {
        Some(PinyinCode::Finals(PinyinFinals::A))
    } else
    if a == 'o' {
        Some(PinyinCode::Finals(PinyinFinals::O))
    } else
    if a == 'e' {
        Some(PinyinCode::Finals(PinyinFinals::E))
    } else
    if a == 'i' {
        Some(PinyinCode::Finals(PinyinFinals::I))
    } else
    if a == 'u' {
        Some(PinyinCode::Finals(PinyinFinals::U))
    } else
    if a == 'v' {
        Some(PinyinCode::Finals(PinyinFinals::V))
    } else {
        None
    }
}

/// The two-letter pinyin codes.
pub open spec fn pinyin2(a: char, b: char) -> Option<PinyinCode> {
    if a == 'z' && b == 'h' {
        Some(PinyinCode::Initials(PinyinInitials::ZH))
    } else
    if a == 'c' && b == 'h' {
        Some(PinyinCode::Initials(PinyinInitials::CH))
    } else
    if a == 's' && b == 'h' {
        Some(PinyinCode::Initials(PinyinInitials::SH))
    } else
    if a == 'a' && b == 'i' {
        Some(PinyinCode::Finals(PinyinFinals::AI))
    } else
    if a == 'e' && b == 'i' {
        Some(PinyinCode::Finals(PinyinFinals::EI))
    } else
    if a == 'u' && b == 'i' {
        Some(PinyinCode::Finals(PinyinFinals::UI))
    } else
    if a == 'a' && b == 'o' {
        Some(PinyinCode::Finals(PinyinFinals::AO))
    } else
    if a == 'o' && b == 'u' {
        Some(PinyinCode::Finals(PinyinFinals::OU))
    } else
    if a == 'i' && b == 'u' {
        Some(PinyinCode::Finals(PinyinFinals::IU))
    } else
    if a == 'i' && b == 'e' {
        Some(PinyinCode::Finals(PinyinFinals::IE))
    } else
    if a == 'v' && b == 'e' {
        Some(PinyinCode::Finals(PinyinFinals::VE))
    } else
    if a == 'e' && b == 'r' {
        Some(PinyinCode::Finals(PinyinFinals::ER))
    } else
    if a == 'a' && b == 'n' {
        Some(PinyinCode::Finals(PinyinFinals::AN))
    } else
    if a == 'e' && b == 'n' {
        Some(PinyinCode::Finals(PinyinFinals::EN))
    } else
    if a == 'i' && b == 'n' {
        Some(PinyinCode::Finals(PinyinFinals::IN))
    } else
    if a == 'u' && b == 'n' {
        Some(PinyinCode::Finals(PinyinFinals::UN))
    } else
    if a == 'v' && b == 'n' {
        Some(PinyinCode::Finals(PinyinFinals::VN))
    } else {
        None
    }
}

/// The three-letter pinyin codes.
pub open spec fn pinyin3(a: char, b: char, c: char) -> Option<PinyinCode> {
    if a == 'a' && b == 'n' && c == 'g' {
        Some(PinyinCode::Finals(PinyinFinals::ANG))
    } else
    if a == 'e' && b == 'n' && c == 'g' {
        Some(PinyinCode::Finals(PinyinFinals::ENG))
    } else
    if a == 'i' && b == 'n' && c == 'g' {
        Some(PinyinCode::Finals(PinyinFinals::ING))
    } else
    if a == 'o' && b == 'n' && c == 'g' {
        Some(PinyinCode::Finals(PinyinFinals::ONG))
    } else {
        None
    }
}

/// The pinyin code a lowered spelling names, if any.
pub open spec fn pinyin_code_of(s: Seq<char>) -> Option<PinyinCode> {
    if s.len() == 1 {
        pinyin1(s[0])
    } else if s.len() == 2 {
        pinyin2(s[0], s[1])
    } else if s.len() == 3 {
        pinyin3(s[0], s[1], s[2])
    } else {
        None
    }
}

/// Lowers one ASCII letter.
fn lower_char_exec(c: char) -> (r: char)
    ensures
        r == lower_char(c),
{
    match c {
        'A' => 'a',
        'B' => 'b',
        'C' => 'c',
        'D' => 'd',
        'E' => 'e',
        'F' => 'f',
        'G' => 'g',
        'H' => 'h',
        'I' => 'i',
        'J' => 'j',
        'K' => 'k',
        'L' => 'l',
        'M' => 'm',
        'N' => 'n',
        'O' => 'o',
        'P' => 'p',
        'Q' => 'q',
        'R' => 'r',
        'S' => 's',
        'T' => 't',
        'U' => 'u',
        'V' => 'v',
        'W' => 'w',
        'X' => 'x',
        'Y' => 'y',
        'Z' => 'z',
        _ => c,
    }
}

/// Lowers a spelling.
fn lower_part(v: &Vec<char>) -> (r: Vec<char>)
    ensures
        r@ == lower_chars(v@),
{
    let mut r: Vec<char> = Vec::new();
    let mut m: usize = 0;
    while m < v.len()
        invariant
            m <= v@.len(),
            r@.len() == m,
            forall|j: int| 0 <= j < m ==> r@[j] == lower_char(#[trigger] v@[j]),
        decreases v@.len() - m,
    {
        r.push(lower_char_exec(v[m]));
        m = m + 1;
    }
    proof {
        assert(r@ =~= lower_chars(v@));
    }
    r
}

/// Looks one lowered spelling up in the code tables.
fn pinyin_table(v: &Vec<char>) -> (r: Option<PinyinCode>)
    ensures
        r == pinyin_code_of(v@),
{
    if v.len() == 1 {
        pinyin_table1(v[0])
    } else if v.len() == 2 {
        pinyin_table2(v[0], v[1])
    } else if v.len() == 3 {
        pinyin_table3(v[0], v[1], v[2])
    } else {
        None
    }
}

fn pinyin_table1(a: char) -> (r: Option<PinyinCode>)
    ensures
        r == pinyin1(a),
{
    if a == 'b' {
        Some(PinyinCode::Initials(PinyinInitials::B))
    } else
    if a == 'p' {
        Some(PinyinCode::Initials(PinyinInitials::P))
    } else
    if a == 'm' {
        Some(PinyinCode::Initials(PinyinInitials::M))
    } else
    if a == 'f' {
        Some(PinyinCode::Initials(PinyinInitials::F))
    } else
    if a == 'd' {
        Some(PinyinCode::Initials(PinyinInitials::D))
    } else
    if a == 't' {
        Some(PinyinCode::Initials(PinyinInitials::T))
    } else
    if a == 'n' {
        Some(PinyinCode::Initials(PinyinInitials::N))
    } else
    if a == 'l' {
        Some(PinyinCode::Initials(PinyinInitials::L))
    } else
    if a == 'g' {
        Some(PinyinCode::Initials(PinyinInitials::G))
    } else
    if a == 'k' {
        Some(PinyinCode::Initials(PinyinInitials::K))
    } else
    if a == 'h' {
        Some(PinyinCode::Initials(PinyinInitials::H))
    } else
    if a == 'j' {
        Some(PinyinCode::Initials(PinyinInitials::J))
    } else
    if a == 'q' {
        Some(PinyinCode::Initials(PinyinInitials::Q))
    } else
    if a == 'x' {
        Some(PinyinCode::Initials(PinyinInitials::X))
    } else
    if a == 'r' {
        Some(PinyinCode::Initials(PinyinInitials::R))
    } else
    if a == 'c' {
        Some(PinyinCode::Initials(PinyinInitials::C))
    } else
    if a == 's' {
        Some(PinyinCode::Initials(PinyinInitials::S))
    } else
    if a == 'y' {
        Some(PinyinCode::Initials(PinyinInitials::Y))
    } else
    if a == 'w' {
        Some(PinyinCode::Initials(PinyinInitials::W))
    } else
    if a == 'a' {
        Some(PinyinCode::Finals(PinyinFinals::A))
    } else
    if a == 'o' {
        Some(PinyinCode::Finals(PinyinFinals::O))
    } else
    if a == 'e' {
        Some(PinyinCode::Finals(PinyinFinals::E))
    } else
    if a == 'i' {
        Some(PinyinCode::Finals(PinyinFinals::I))
    } else
    if a == 'u' {
        Some(PinyinCode::Finals(PinyinFinals::U))
    } else
    if a == 'v' {
        Some(PinyinCode::Finals(PinyinFinals::V))
    } else {
        None
    }
}

fn pinyin_table2(a: char, b: char) -> (r: Option<PinyinCode>)
    ensures
        r == pinyin2(a, b),
{
    if a == 'z' && b == 'h' {
        Some(PinyinCode::Initials(PinyinInitials::ZH))
    } else
    if a == 'c' && b == 'h' {
        Some(PinyinCode::Initials(PinyinInitials::CH))
    } else
    if a == 's' && b == 'h' {
        Some(PinyinCode::Initials(PinyinInitials::SH))
    } else
    if a == 'a' && b == 'i' {
        Some(PinyinCode::Finals(PinyinFinals::AI))
    } else
    if a == 'e' && b == 'i' {
        Some(PinyinCode::Finals(PinyinFinals::EI))
    } else
    if a == 'u' && b == 'i' {
        Some(PinyinCode::Finals(PinyinFinals::UI))
    } else
    if a == 'a' && b == 'o' {
        Some(PinyinCode::Finals(PinyinFinals::AO))
    } else
    if a == 'o' && b == 'u' {
        Some(PinyinCode::Finals(PinyinFinals::OU))
    } else
    if a == 'i' && b == 'u' {
        Some(PinyinCode::Finals(PinyinFinals::IU))
    } else
    if a == 'i' && b == 'e' {
        Some(PinyinCode::Finals(PinyinFinals::IE))
    } else
    if a == 'v' && b == 'e' {
        Some(PinyinCode::Finals(PinyinFinals::VE))
    } else
    if a == 'e' && b == 'r' {
        Some(PinyinCode::Finals(PinyinFinals::ER))
    } else
    if a == 'a' && b == 'n' {
        Some(PinyinCode::Finals(PinyinFinals::AN))
    } else
    if a == 'e' && b == 'n' {
        Some(PinyinCode::Finals(PinyinFinals::EN))
    } else
    if a == 'i' && b == 'n' {
        Some(PinyinCode::Finals(PinyinFinals::IN))
    } else
    if a == 'u' && b == 'n' {
        Some(PinyinCode::Finals(PinyinFinals::UN))
    } else
    if a == 'v' && b == 'n' {
        Some(PinyinCode::Finals(PinyinFinals::VN))
    } else {
        None
    }
}

fn pinyin_table3(a: char, b: char, c: char) -> (r: Option<PinyinCode>)
    ensures
        r == pinyin3(a, b, c),
{
    if a == 'a' && b == 'n' && c == 'g' {
        Some(PinyinCode::Finals(PinyinFinals::ANG))
    } else
    if a == 'e' && b == 'n' && c == 'g' {
        Some(PinyinCode::Finals(PinyinFinals::ENG))
    } else
    if a == 'i' && b == 'n' && c == 'g' {
        Some(PinyinCode::Finals(PinyinFinals::ING))
    } else
    if a == 'o' && b == 'n' && c == 'g' {
        Some(PinyinCode::Finals(PinyinFinals::ONG))
    } else {
        None
    }
}

/// Every `|`-separated spelling of `s` names a code.
pub open spec fn all_parts_ok(parts: Seq<Seq<char>>) -> bool {
    forall|j: int| 0 <= j < parts.len() ==> pinyin_code_of(lower_chars(#[trigger] parts[j])) is Some
}

/// What a `|`-separated spelling list denotes: the named codes in
/// order, or nothing when any spelling is unknown.
pub open spec fn parse_codes_spec(s: Seq<char>) -> Option<Seq<PinyinCode>> {
    let parts = split_spec(s, '|');
    if all_parts_ok(parts) {
        Some(
            Seq::new(
                parts.len(),
                |j: int| pinyin_code_of(lower_chars(parts[j]))->Some_0,
            ),
        )
    } else {
        None
    }
}

} // verus!

verus! {

/// Parses one `|`-separated spelling list into codes.
pub fn parse_pinyin_codes(code: &str) -> (r: Option<Vec<PinyinCode>>)
    ensures
        r is Some <==> parse_codes_spec(code@) is Some,
        r is Some ==> r->Some_0@ == parse_codes_spec(code@)->Some_0,
{
    let raw = chars_of(code);
    let parts = split_chars(&raw, '|');
    let mut out: Vec<PinyinCode> = Vec::new();
    let mut m: usize = 0;
    while m < parts.len()
        invariant
            m <= parts@.len(),
            out@.len() == m,
            raw@ == code@,
            seg_views(parts@) == split_spec(code@, '|'),
            forall|j: int|
                0 <= j < m ==> pinyin_code_of(lower_chars(#[trigger] seg_views(parts@)[j]))
                    == Some(out@[j]),
        decreases parts@.len() - m,
    {
        let lowered = lower_part(&parts[m]);
        let c = pinyin_table(&lowered);
        match c {
            Some(code) => {
                out.push(code);
            },
            None => {
                proof {
                    assert(lowered@ == lower_chars(seg_views(parts@)[m as int]));
                    if all_parts_ok(split_spec(code@, '|')) {
                        assert(pinyin_code_of(
                            lower_chars(seg_views(parts@)[m as int]),
                        ) is Some);
                    }
                }
                return None;
            },
        }
        m = m + 1;
    }
    proof {
        assert(all_parts_ok(seg_views(parts@)));
        assert(out@ =~= Seq::new(
            seg_views(parts@).len(),
            |j: int| pinyin_code_of(lower_chars(seg_views(parts@)[j]))->Some_0,
        ));
    }
    Some(out)
}

/// Pairs of codes the user wants folded together.
#[derive(Debug)]
pub struct FuzzySyllables(pub Vec<(PinyinCode, PinyinCode)>);

impl FuzzySyllables {
    /// Parses the configured fuzzy-syllable pairs; any unknown spelling
    /// rejects the whole list.
    pub fn new(v: &Vec<(String, String)>) -> (r: Option<FuzzySyllables>)
        ensures
            r is Some <==> forall|j: int|
                0 <= j < v@.len() ==> parse_codes_spec((#[trigger] v@[j]).0@) is Some
                    && parse_codes_spec(v@[j].0@)->Some_0.len() == 1 && parse_codes_spec(
                    v@[j].1@,
                ) is Some && parse_codes_spec(v@[j].1@)->Some_0.len() == 1,
            r is Some ==> {
                let fs = r->Some_0;
                &&& fs.0@.len() == v@.len()
                &&& forall|j: int|
                    0 <= j < v@.len() ==> #[trigger] fs.0@[j] == (
                    parse_codes_spec(v@[j].0@)->Some_0[0],
                    parse_codes_spec(v@[j].1@)->Some_0[0],
                    )
            },
    {
        let mut out: Vec<(PinyinCode, PinyinCode)> = Vec::new();
        let mut m: usize = 0;
        while m < v.len()
            invariant
                m <= v@.len(),
                out@.len() == m,
                forall|j: int|
                    0 <= j < m ==> parse_codes_spec((#[trigger] v@[j]).0@) is Some
                        && parse_codes_spec(v@[j].0@)->Some_0.len() == 1 && parse_codes_spec(
                        v@[j].1@,
                    ) is Some && parse_codes_spec(v@[j].1@)->Some_0.len() == 1,
                forall|j: int|
                    0 <= j < m ==> #[trigger] out@[j] == (
                    parse_codes_spec(v@[j].0@)->Some_0[0],
                    parse_codes_spec(v@[j].1@)->Some_0[0],
                    ),
            decreases v@.len() - m,
        {
            let a = parse_pinyin_codes(v[m].0.as_str());
            let b = parse_pinyin_codes(v[m].1.as_str());
            match (a, b) {
                (Some(ca), Some(cb)) => {
                    if ca.len() == 1 && cb.len() == 1 {
                        out.push((ca[0], cb[0]));
                    } else {
                        return None;
                    }
                },
                _ => {
                    return None;
                },
            }
            m = m + 1;
        }
        Some(FuzzySyllables(out))
    }
}

/// The initials named under each keycode whose spelling list parses and
/// names at least one initial, in input order.
pub open spec fn initials_filter(codes: Seq<PinyinCode>) -> Seq<PinyinInitials>
    decreases codes.len(),
{
    if codes.len() == 0 {
        Seq::empty()
    } else {
        let p = initials_filter(codes.drop_last());
        match codes.last() {
            PinyinCode::Initials(i) => p.push(i),
            PinyinCode::Finals(_) => p,
        }
    }
}

/// The finals named in a code list, in order.
pub open spec fn finals_filter(codes: Seq<PinyinCode>) -> Seq<PinyinFinals>
    decreases codes.len(),
{
    if codes.len() == 0 {
        Seq::empty()
    } else {
        let p = finals_filter(codes.drop_last());
        match codes.last() {
            PinyinCode::Finals(f) => p.push(f),
            PinyinCode::Initials(_) => p,
        }
    }
}

/// The views of keymap input pairs.
pub open spec fn pair_views(ps: Seq<(String, String)>) -> Seq<(Seq<char>, Seq<char>)> {
    ps.map_values(|p: (String, String)| (p.0@, p.1@))
}

/// The initial table the keymap pairs denote: one entry per pair whose
/// value parses and names at least one initial.
pub open spec fn initials_model(ps: Seq<(Seq<char>, Seq<char>)>) -> Seq<
    (Seq<char>, Seq<PinyinInitials>),
>
    decreases ps.len(),
{
    if ps.len() == 0 {
        Seq::empty()
    } else {
        let prev = initials_model(ps.drop_last());
        match parse_codes_spec(ps.last().1) {
            Some(codes) => {
                let ini = initials_filter(codes);
                if ini.len() > 0 {
                    prev.push((ps.last().0, ini))
                } else {
                    prev
                }
            },
            None => prev,
        }
    }
}

/// The final table the keymap pairs denote.
pub open spec fn finals_model(ps: Seq<(Seq<char>, Seq<char>)>) -> Seq<
    (Seq<char>, Seq<PinyinFinals>),
>
    decreases ps.len(),
{
    if ps.len() == 0 {
        Seq::empty()
    } else {
        let prev = finals_model(ps.drop_last());
        match parse_codes_spec(ps.last().1) {
            Some(codes) => {
                let fin = finals_filter(codes);
                if fin.len() > 0 {
                    prev.push((ps.last().0, fin))
                } else {
                    prev
                }
            },
            None => prev,
        }
    }
}

/// The views of an initial table.
pub open spec fn ini_views(t: Seq<(String, Vec<PinyinInitials>)>) -> Seq<
    (Seq<char>, Seq<PinyinInitials>),
> {
    t.map_values(|e: (String, Vec<PinyinInitials>)| (e.0@, e.1@))
}

/// The views of a final table.
pub open spec fn fin_views(t: Seq<(String, Vec<PinyinFinals>)>) -> Seq<
    (Seq<char>, Seq<PinyinFinals>),
> {
    t.map_values(|e: (String, Vec<PinyinFinals>)| (e.0@, e.1@))
}

} // verus!

verus! {

/// Whether any key in the list uses the code unit `c`.
pub open spec fn chars_in_keys(keys: Seq<Seq<char>>, c: char) -> bool
    decreases keys.len(),
{
    if keys.len() == 0 {
        false
    } else {
        chars_in_keys(keys.drop_last(), c) || keys.last().contains(c)
    }
}

/// The key views of a table.
pub open spec fn key_views<T>(entries: Seq<(String, T)>) -> Seq<Seq<char>> {
    entries.map_values(|e: (String, T)| e.0@)
}

/// No element of the accumulator repeats.
pub open spec fn no_dup(acc: Seq<char>) -> bool {
    forall|a: int, b: int| 0 <= a < b < acc.len() ==> acc[a] != acc[b]
}

/// Adds every code unit of every key of `entries` to the accumulator,
/// without duplicates.
fn merge_key_chars<T>(acc: &mut Vec<char>, entries: &Vec<(String, T)>)
    requires
        no_dup(old(acc)@),
    ensures
        no_dup(final(acc)@),
        forall|c: char|
            #[trigger] final(acc)@.contains(c) <==> (old(acc)@.contains(c) || chars_in_keys(
                key_views(entries@),
                c,
            )),
{
    let ghost base = old(acc)@;
    let mut m: usize = 0;
    proof {
        assert(key_views(entries@).take(0) =~= Seq::<Seq<char>>::empty());
    }
    while m < entries.len()
        invariant
            m <= entries@.len(),
            no_dup(acc@),
            forall|c: char|
                #[trigger] acc@.contains(c) <==> (base.contains(c) || chars_in_keys(
                    key_views(entries@).take(m as int),
                    c,
                )),
        decreases entries@.len() - m,
    {
        let key = chars_of(entries[m].0.as_str());
        let mut w: usize = 0;
        proof {
            assert(key@.take(0) =~= Seq::<char>::empty());
            assert forall|c: char| #[trigger] acc@.contains(c) implies (base.contains(c)
                || chars_in_keys(key_views(entries@).take(m as int), c) || key@.take(0).contains(
                c,
            )) by {}
            assert forall|c: char|
                (base.contains(c) || chars_in_keys(key_views(entries@).take(m as int), c)
                    || key@.take(0).contains(c)) implies #[trigger] acc@.contains(c) by {
                if key@.take(0).contains(c) {
                    let x = choose|x: int| 0 <= x < key@.take(0).len() && #[trigger] key@.take(
                        0,
                    )[x] == c;
                }
            }
        }
        while w < key.len()
            invariant
                w <= key@.len(),
                key@ == entries@[m as int].0@,
                m < entries@.len(),
                no_dup(acc@),
                forall|c: char|
                    #[trigger] acc@.contains(c) <==> (base.contains(c) || chars_in_keys(
                        key_views(entries@).take(m as int),
                        c,
                    ) || key@.take(w as int).contains(c)),
            decreases key@.len() - w,
        {
            let ch = key[w];
            let already = contains_char(acc, ch);
            let ghost prevk = acc@;
            if !already {
                acc.push(ch);
            }
            proof {
                lemma_contains_take_succ(key@, w as int, ch);
                assert forall|c: char|
                    #[trigger] acc@.contains(c) <==> (base.contains(c) || chars_in_keys(
                        key_views(entries@).take(m as int),
                        c,
                    ) || key@.take(w + 1).contains(c)) by {
                    if c != ch {
                        assert(acc@.contains(c) <==> prevk.contains(c)) by {
                            if prevk.contains(c) {
                                let x = choose|x: int|
                                    0 <= x < prevk.len() && #[trigger] prevk[x] == c;
                                assert(acc@[x] == c);
                            }
                            if acc@.contains(c) {
                                let x = choose|x: int|
                                    0 <= x < acc@.len() && #[trigger] acc@[x] == c;
                                if x < prevk.len() {
                                    assert(prevk[x] == c);
                                }
                            }
                        }
                        if key@.take(w + 1).contains(c) {
                            lemma_contains_take_succ(key@, w as int, c);
                        }
                        if key@.take(w as int).contains(c) {
                            lemma_contains_take_succ(key@, w as int, c);
                        }
                    } else {
                        assert(acc@.contains(ch)) by {
                            if already {
                                let x = choose|x: int|
                                    0 <= x < prevk.len() && #[trigger] prevk[x] == ch;
                                assert(acc@[x] == ch);
                            } else {
                                assert(acc@.last() == ch);
                            }
                        }
                        assert(key@.take(w + 1).contains(ch)) by {
                            assert(key@.take(w + 1)[w as int] == ch);
                        }
                    }
                }
                assert forall|a: int, b: int| 0 <= a < b < acc@.len() implies acc@[a]
                    != acc@[b] by {
                    if b == acc@.len() - 1 && !already {
                        if acc@[a] == ch {
                            assert(prevk[a] == ch);
                            assert(prevk.contains(ch));
                        }
                    } else {
                        assert(acc@[a] == prevk[a] && acc@[b] == prevk[b]);
                    }
                }
            }
            w = w + 1;
        }
        proof {
            assert(key@.take(key@.len() as int) =~= key@);
            assert(key_views(entries@).take(m + 1).drop_last() =~= key_views(entries@).take(
                m as int,
            ));
            assert(key_views(entries@).take(m + 1).last() == entries@[m as int].0@);
            assert forall|c: char|
                #[trigger] acc@.contains(c) <==> (base.contains(c) || chars_in_keys(
                    key_views(entries@).take(m + 1),
                    c,
                )) by {}
        }
        m = m + 1;
    }
    proof {
        assert(key_views(entries@).take(entries@.len() as int) =~= key_views(entries@));
    }
}

/// A pinyin scheme: the keycode tables a keymap file configures, and
/// its version string.
#[derive(Debug)]
pub struct Scheme {
    pub initials: Vec<(String, Vec<PinyinInitials>)>,
    pub finals: Vec<(String, Vec<PinyinFinals>)>,
    pub special: Vec<(String, Vec<PinyinCode>)>,
    pub version: String,
}

impl Scheme {
    /// Builds the initial and final tables from the keymap's initial
    /// column: each keycode whose spelling list parses contributes the
    /// initials and finals it names.  The special table stays empty, as
    /// the translation draws only on the initial column.
    pub fn parse_keymap(sheng: &Vec<(String, String)>) -> (r: (
        Vec<(String, Vec<PinyinInitials>)>,
        Vec<(String, Vec<PinyinFinals>)>,
        Vec<(String, Vec<PinyinCode>)>,
    ))
        ensures
            ini_views(r.0@) == initials_model(pair_views(sheng@)),
            fin_views(r.1@) == finals_model(pair_views(sheng@)),
            r.2@.len() == 0,
    {
        let mut ini: Vec<(String, Vec<PinyinInitials>)> = Vec::new();
        let mut fin: Vec<(String, Vec<PinyinFinals>)> = Vec::new();
        let codes_out: Vec<(String, Vec<PinyinCode>)> = Vec::new();
        let mut m: usize = 0;
        proof {
            assert(pair_views(sheng@).take(0) =~= Seq::<(Seq<char>, Seq<char>)>::empty());
            assert(ini_views(ini@) =~= initials_model(pair_views(sheng@).take(0)));
            assert(fin_views(fin@) =~= finals_model(pair_views(sheng@).take(0)));
        }
        while m < sheng.len()
            invariant
                m <= sheng@.len(),
                ini_views(ini@) == initials_model(pair_views(sheng@).take(m as int)),
                fin_views(fin@) == finals_model(pair_views(sheng@).take(m as int)),
            decreases sheng@.len() - m,
        {
            let parsed = parse_pinyin_codes(sheng[m].1.as_str());
            proof {
                assert(pair_views(sheng@).take(m + 1).drop_last() =~= pair_views(sheng@).take(
                    m as int,
                ));
                assert(pair_views(sheng@).take(m + 1).last() == (
                    sheng@[m as int].0@,
                    sheng@[m as int].1@,
                ));
            }
            match parsed {
                Some(codes) => {
                    let mut one_ini: Vec<PinyinInitials> = Vec::new();
                    let mut one_fin: Vec<PinyinFinals> = Vec::new();
                    let mut w: usize = 0;
                    proof {
                        assert(codes@.take(0) =~= Seq::<PinyinCode>::empty());
                        assert(one_ini@ =~= initials_filter(codes@.take(0)));
                        assert(one_fin@ =~= finals_filter(codes@.take(0)));
                    }
                    while w < codes.len()
                        invariant
                            w <= codes@.len(),
                            one_ini@ == initials_filter(codes@.take(w as int)),
                            one_fin@ == finals_filter(codes@.take(w as int)),
                        decreases codes@.len() - w,
                    {
                        proof {
                            assert(codes@.take(w + 1).drop_last() =~= codes@.take(w as int));
                            assert(codes@.take(w + 1).last() == codes@[w as int]);
                        }
                        match codes[w] {
                            PinyinCode::Initials(i) => {
                                one_ini.push(i);
                            },
                            PinyinCode::Finals(f) => {
                                one_fin.push(f);
                            },
                        }
                        w = w + 1;
                    }
                    proof {
                        assert(codes@.take(codes@.len() as int) =~= codes@);
                    }
                    let ghost pi = ini@;
                    let ghost pf = fin@;
                    if one_ini.len() > 0 {
                        ini.push((sheng[m].0.clone(), one_ini));
                        proof {
                            assert(ini_views(ini@) =~= ini_views(pi).push((
                                sheng@[m as int].0@,
                                initials_filter(codes@),
                            )));
                        }
                    }
                    if one_fin.len() > 0 {
                        fin.push((sheng[m].0.clone(), one_fin));
                        proof {
                            assert(fin_views(fin@) =~= fin_views(pf).push((
                                sheng@[m as int].0@,
                                finals_filter(codes@),
                            )));
                        }
                    }
                },
                None => {},
            }
            m = m + 1;
        }
        proof {
            assert(pair_views(sheng@).take(sheng@.len() as int) =~= pair_views(sheng@));
        }
        (ini, fin, codes_out)
    }

    /// Builds a scheme from the decoded keymap columns.
    pub fn new(sheng: &Vec<(String, String)>, version: String) -> (r: Scheme)
        ensures
            ini_views(r.initials@) == initials_model(pair_views(sheng@)),
            fin_views(r.finals@) == finals_model(pair_views(sheng@)),
            r.special@.len() == 0,
            r.version@ == version@,
    {
        let (initials, finals, special) = Self::parse_keymap(sheng);
        Scheme { initials, finals, special, version }
    }

    /// Every code unit any table's keycodes use, without duplicates.
    pub fn keycodes(&self) -> (r: Vec<char>)
        ensures
            no_dup(r@),
            forall|c: char|
                #[trigger] r@.contains(c) <==> (chars_in_keys(key_views(self.initials@), c)
                    || chars_in_keys(key_views(self.finals@), c) || chars_in_keys(
                    key_views(self.special@),
                    c,
                )),
    {
        let mut acc: Vec<char> = Vec::new();
        merge_key_chars(&mut acc, &self.initials);
        merge_key_chars(&mut acc, &self.finals);
        merge_key_chars(&mut acc, &self.special);
        acc
    }
}

} // verus!

verus! {

/// The entries segments `1..w` of one dictionary line contribute at the
/// code sequence `q`: one copy of the line's text per matching segment.
pub open spec fn contrib_upto(segs: Seq<Seq<char>>, w: int, q: Seq<char>) -> Seq<(Seq<char>, u32)>
    decreases w,
{
    if w <= 1 {
        Seq::empty()
    } else {
        let p = contrib_upto(segs, w - 1, q);
        if segs[w - 1] == q {
            p.push((segs[0], 100u32))
        } else {
            p
        }
    }
}

/// What the finished assist dictionary maps `q` to: every line's
/// contributions, in line order.
pub open spec fn assist_values_model(ls: Seq<Seq<char>>, q: Seq<char>) -> Seq<(Seq<char>, u32)>
    decreases ls.len(),
{
    if ls.len() == 0 {
        Seq::empty()
    } else {
        let segs = split_spec(trim_spec(ls.last()), '\t');
        assist_values_model(ls.drop_last(), q) + contrib_upto(segs, segs.len() as int, q)
    }
}

/// Whether segments `1..w` of a split line use the code unit `c`.
pub open spec fn seg_chars_upto(segs: Seq<Seq<char>>, w: int, c: char) -> bool
    decreases w,
{
    if w <= 1 {
        false
    } else {
        seg_chars_upto(segs, w - 1, c) || segs[w - 1].contains(c)
    }
}

/// Whether any line's code segments use the code unit `c`.
pub open spec fn assist_key_in(ls: Seq<Seq<char>>, c: char) -> bool
    decreases ls.len(),
{
    if ls.len() == 0 {
        false
    } else {
        let segs = split_spec(trim_spec(ls.last()), '\t');
        assist_key_in(ls.drop_last(), c) || seg_chars_upto(segs, segs.len() as int, c)
    }
}

/// Adds every code unit of `chars` to the accumulator, without
/// duplicates.
fn add_chars(acc: &mut Vec<char>, chars: &Vec<char>)
    requires
        no_dup(old(acc)@),
    ensures
        no_dup(final(acc)@),
        forall|c: char|
            #[trigger] final(acc)@.contains(c) <==> (old(acc)@.contains(c) || chars@.contains(c)),
{
    let ghost base = old(acc)@;
    let mut w: usize = 0;
    proof {
        assert forall|c: char|
            #[trigger] acc@.contains(c) <==> (base.contains(c) || chars@.take(0).contains(c)) by {
            if chars@.take(0).contains(c) {
                let x = choose|x: int| 0 <= x < chars@.take(0).len() && #[trigger] chars@.take(
                    0,
                )[x] == c;
            }
        }
    }
    while w < chars.len()
        invariant
            w <= chars@.len(),
            no_dup(acc@),
            forall|c: char|
                #[trigger] acc@.contains(c) <==> (base.contains(c) || chars@.take(
                    w as int,
                ).contains(c)),
        decreases chars@.len() - w,
    {
        let ch = chars[w];
        let already = contains_char(acc, ch);
        let ghost prevk = acc@;
        if !already {
            acc.push(ch);
        }
        proof {
            lemma_contains_take_succ(chars@, w as int, ch);
            assert forall|c: char|
                #[trigger] acc@.contains(c) <==> (base.contains(c) || chars@.take(
                    w + 1,
                ).contains(c)) by {
                if c != ch {
                    assert(acc@.contains(c) <==> prevk.contains(c)) by {
                        if prevk.contains(c) {
                            let x = choose|x: int| 0 <= x < prevk.len() && #[trigger] prevk[x]
                                == c;
                            assert(acc@[x] == c);
                        }
                        if acc@.contains(c) {
                            let x = choose|x: int| 0 <= x < acc@.len() && #[trigger] acc@[x] == c;
                            if x < prevk.len() {
                                assert(prevk[x] == c);
                            }
                        }
                    }
                    if chars@.take(w + 1).contains(c) {
                        lemma_contains_take_succ(chars@, w as int, c);
                    }
                    if chars@.take(w as int).contains(c) {
                        lemma_contains_take_succ(chars@, w as int, c);
                    }
                } else {
                    assert(acc@.contains(ch)) by {
                        if already {
                            let x = choose|x: int| 0 <= x < prevk.len() && #[trigger] prevk[x]
                                == ch;
                            assert(acc@[x] == ch);
                        } else {
                            assert(acc@.last() == ch);
                        }
                    }
                    assert(chars@.take(w + 1).contains(ch)) by {
                        assert(chars@.take(w + 1)[w as int] == ch);
                    }
                }
            }
            assert forall|a: int, b: int| 0 <= a < b < acc@.len() implies acc@[a] != acc@[b] by {
                if b == acc@.len() - 1 && !already {
                    if acc@[a] == ch {
                        assert(prevk[a] == ch);
                        assert(prevk.contains(ch));
                    }
                } else {
                    assert(acc@[a] == prevk[a] && acc@[b] == prevk[b]);
                }
            }
        }
        w = w + 1;
    }
    proof {
        assert(chars@.take(chars@.len() as int) =~= chars@);
    }
}

/// The assist-code dictionary: a trie of auxiliary code sequences and
/// the code units they use.  Each line is `text TAB code [TAB code]...`;
/// every code leads to the line's text.
#[derive(Debug)]
pub struct AssistCode {
    pub trie: PersistentTrie,
    pub keycodes: Vec<char>,
}

impl AssistCode {
    /// The trie is finalized and the keycode list holds no duplicates.
    pub open spec fn wf(&self) -> bool {
        &&& self.trie.wf()
        &&& self.trie.maintained()
        &&& no_dup(self.keycodes@)
    }

    /// Builds the dictionary from its lines: afterwards each code
    /// sequence maps to exactly the texts of the lines listing it, in
    /// line order, and the keycodes are exactly the code units the code
    /// segments use.
    pub fn new(lines: &Vec<String>) -> (r: AssistCode)
        ensures
            r.wf(),
            forall|q: Seq<char>|
                value_views(#[trigger] r.trie.spec_values_at(q)) == assist_values_model(
                    crate::code_table::line_views(lines@),
                    q,
                ),
            forall|c: char|
                #[trigger] r.keycodes@.contains(c) <==> assist_key_in(
                    crate::code_table::line_views(lines@),
                    c,
                ),
    {
        let ghost ls = crate::code_table::line_views(lines@);
        let mut trie = PersistentTrie::new();
        let mut keycodes: Vec<char> = Vec::new();
        let mut i: usize = 0;
        proof {
            assert(ls.take(0) =~= Seq::<Seq<char>>::empty());
            assert forall|q: Seq<char>|
                value_views(#[trigger] trie.spec_values_at(q)) == assist_values_model(
                    ls.take(0),
                    q,
                ) by {
                assert(value_views(Seq::<ResultText>::empty()) =~= Seq::<(Seq<char>, u32)>::empty());
            }
        }
        while i < lines.len()
            invariant
                i <= lines@.len(),
                ls == crate::code_table::line_views(lines@),
                trie.wf(),
                no_dup(keycodes@),
                forall|q: Seq<char>|
                    value_views(#[trigger] trie.spec_values_at(q)) == assist_values_model(
                        ls.take(i as int),
                        q,
                    ),
                forall|c: char|
                    #[trigger] keycodes@.contains(c) <==> assist_key_in(ls.take(i as int), c),
            decreases lines@.len() - i,
        {
            let raw = chars_of(lines[i].as_str());
            let t = trim_chars(&raw);
            let segs = split_chars(&t, '\t');
            let ghost sv = seg_views(segs@);
            proof {
                assert(ls[i as int] == lines@[i as int]@);
                assert(sv == split_spec(trim_spec(ls[i as int]), '\t'));
                assert(ls.take(i + 1).drop_last() =~= ls.take(i as int));
                assert(ls.take(i + 1).last() == ls[i as int]);
            }
            let text = crate::text::string_of_chars(&segs[0]);
            let mut w: usize = 1;
            proof {
                assert forall|q: Seq<char>|
                    value_views(#[trigger] trie.spec_values_at(q)) == assist_values_model(
                        ls.take(i as int),
                        q,
                    ) + contrib_upto(sv, 1, q) by {
                    assert(contrib_upto(sv, 1, q) =~= Seq::<(Seq<char>, u32)>::empty());
                    assert(assist_values_model(ls.take(i as int), q) + contrib_upto(sv, 1, q)
                        =~= assist_values_model(ls.take(i as int), q));
                }
            }
            while w < segs.len()
                invariant
                    1 <= w <= segs@.len(),
                    sv == seg_views(segs@),
                    ls == crate::code_table::line_views(lines@),
                    i < lines@.len(),
                    text@ == sv[0],
                    trie.wf(),
                    no_dup(keycodes@),
                    forall|q: Seq<char>|
                        value_views(#[trigger] trie.spec_values_at(q)) == assist_values_model(
                            ls.take(i as int),
                            q,
                        ) + contrib_upto(sv, w as int, q),
                    forall|c: char|
                        #[trigger] keycodes@.contains(c) <==> (assist_key_in(ls.take(i as int), c)
                            || seg_chars_upto(sv, w as int, c)),
                decreases segs@.len() - w,
            {
                let ghost prevt = trie;
                trie.insert(&segs[w], ResultText { text: text.clone(), priority: 100 });
                proof {
                    assert(segs@[w as int]@ == sv[w as int]);
                    assert forall|q: Seq<char>|
                        value_views(#[trigger] trie.spec_values_at(q)) == assist_values_model(
                            ls.take(i as int),
                            q,
                        ) + contrib_upto(sv, w + 1, q) by {
                        if q == sv[w as int] {
                            let oldvals = prevt.spec_values_at(q);
                            let newvals = trie.spec_values_at(q);
                            assert(value_views(newvals) =~= value_views(oldvals).push((
                                sv[0],
                                100u32,
                            ))) by {
                                assert forall|x: int|
                                    0 <= x < value_views(newvals).len() implies value_views(
                                    newvals,
                                )[x] == value_views(oldvals).push((sv[0], 100u32))[x] by {
                                    if x < oldvals.len() {
                                        assert(newvals[x] == oldvals[x]);
                                    } else {
                                        assert(newvals[x]@ == (sv[0], 100u32));
                                    }
                                }
                            }
                            assert(assist_values_model(ls.take(i as int), q) + contrib_upto(
                                sv,
                                w + 1,
                                q,
                            ) =~= (assist_values_model(ls.take(i as int), q) + contrib_upto(
                                sv,
                                w as int,
                                q,
                            )).push((sv[0], 100u32)));
                        } else {
                            assert(contrib_upto(sv, w + 1, q) == contrib_upto(sv, w as int, q));
                        }
                    }
                }
                add_chars(&mut keycodes, &segs[w]);
                proof {
                    assert forall|c: char|
                        #[trigger] keycodes@.contains(c) <==> (assist_key_in(ls.take(i as int), c)
                            || seg_chars_upto(sv, w + 1, c)) by {}
                }
                w = w + 1;
            }
            proof {
                assert(w == segs@.len());
                assert forall|q: Seq<char>|
                    value_views(#[trigger] trie.spec_values_at(q)) == assist_values_model(
                        ls.take(i + 1),
                        q,
                    ) by {}
                assert forall|c: char|
                    #[trigger] keycodes@.contains(c) <==> assist_key_in(ls.take(i + 1), c) by {}
            }
            i = i + 1;
        }
        proof {
            assert(ls.take(ls.len() as int) =~= ls);
        }
        let ghost prevt = trie;
        trie.maintain();
        proof {
            assert forall|q: Seq<char>|
                value_views(#[trigger] trie.spec_values_at(q)) == assist_values_model(ls, q) by {
                assert(trie.spec_values_at(q) == prevt.spec_values_at(q));
                assert(value_views(prevt.spec_values_at(q)) == assist_values_model(
                    ls.take(ls.len() as int),
                    q,
                ));
            }
        }
        AssistCode { trie, keycodes }
    }

    /// The set of code units the dictionary's codes use, as a fresh
    /// vector.
    pub fn keycodes(&self) -> (r: Vec<char>)
        ensures
            r@ == self.keycodes@,
    {
        crate::text::copy_chars(&self.keycodes)
    }
}

} // verus!
