//! Keycode translation tables: each keycode maps to the list of
//! spellings its configured value names, written `a|b|c` in the keymap
//! file.  Reading and decoding that file is the host process's
//! business; the translation logic is verified here.

use vstd::prelude::*;
use crate::text::{chars_of, seg_views, split_chars, split_spec, string_of_chars};

verus! {

/// The views of one translation table: keycode and spelling views.
pub open spec fn translation_views(t: Seq<(char, Vec<String>)>) -> Seq<(char, Seq<Seq<char>>)> {
    t.map_values(|e: (char, Vec<String>)| (e.0, e.1@.map_values(|s: String| s@)))
}

/// A keymap: which spellings each keycode may stand for, for the
/// initial, final and special tables.
#[derive(Debug)]
pub struct KeyMap {
    pub sheng: Vec<(char, Vec<String>)>,
    pub yun: Vec<(char, Vec<String>)>,
    pub special: Vec<(char, Vec<String>)>,
}

impl KeyMap {
    /// Splits each keycode's configured value on `|`: the result lists,
    /// in input order, every keycode with all its spellings.
    pub fn convert(dict: &Vec<(char, String)>) -> (r: Vec<(char, Vec<String>)>)
        requires
            forall|a: int, b: int|
                0 <= a < b < dict@.len() ==> (#[trigger] dict@[a]).0 != (#[trigger] dict@[b]).0,
        ensures
            r@.len() == dict@.len(),
            forall|j: int|
                0 <= j < dict@.len() ==> (#[trigger] translation_views(r@)[j]) == (
                dict@[j].0,
                split_spec(dict@[j].1@, '|'),
                ),
    {
        let mut r: Vec<(char, Vec<String>)> = Vec::new();
        let mut m: usize = 0;
        while m < dict.len()
            invariant
                m <= dict@.len(),
                r@.len() == m,
                forall|j: int|
                    0 <= j < m ==> (#[trigger] translation_views(r@)[j]) == (
                    dict@[j].0,
                    split_spec(dict@[j].1@, '|'),
                    ),
            decreases dict@.len() - m,
        {
            let key = dict[m].0;
            let value = chars_of(dict[m].1.as_str());
            let parts = split_chars(&value, '|');
            let mut strings: Vec<String> = Vec::new();
            let mut w: usize = 0;
            while w < parts.len()
                invariant
                    w <= parts@.len(),
                    strings@.len() == w,
                    forall|j: int|
                        0 <= j < w ==> (#[trigger] strings@[j])@ == seg_views(parts@)[j],
                decreases parts@.len() - w,
            {
                strings.push(string_of_chars(&parts[w]));
                w = w + 1;
            }
            let ghost pre = r@;
            r.push((key, strings));
            proof {
                assert forall|j: int| 0 <= j < m + 1 implies (#[trigger] translation_views(
                    r@,
                )[j]) == (dict@[j].0, split_spec(dict@[j].1@, '|')) by {
                    if j < m {
                        assert(r@[j] == pre[j]);
                        assert(translation_views(pre)[j] == (
                            dict@[j].0,
                            split_spec(dict@[j].1@, '|'),
                        ));
                    } else {
                        assert(strings@.map_values(|s: String| s@) =~= seg_views(parts@));
                    }
                }
            }
            m = m + 1;
        }
        r
    }
}

} // verus!
