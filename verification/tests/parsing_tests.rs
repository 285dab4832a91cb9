//! Tests of the dictionary-line, keymap and pinyin parsing, the path
//! arithmetic, and the tree-row rendering.

use ime::code_table::{parse_line, parse_u32, CodeTable};
use ime::engine::Configuration;
use ime::keymap::KeyMap;
use ime::path::{LocalConfigPath, LocalDataPath};
use ime::pinyin::{parse_pinyin_codes, AssistCode, FuzzySyllables, PinyinCode, PinyinFinals, PinyinInitials, Scheme};
use ime::text::{split_chars, trim_chars};
use ime::tree::{TreeDepth, TreeParam, TreeSign, TreeStream};

#[test]
fn parse_line_defaults_priority_to_100() {
    let (text, codes, priority) = parse_line("hello\tab").expect("two fields are fine");
    assert_eq!(text, "hello");
    assert_eq!(codes, vec!['a', 'b']);
    assert_eq!(priority, 100);
}

#[test]
fn parse_line_reads_explicit_priority() {
    let (text, codes, priority) = parse_line("  hi\txy\t250  ").expect("three fields are fine");
    assert_eq!(text, "hi");
    assert_eq!(codes, vec!['x', 'y']);
    assert_eq!(priority, 250);
}

#[test]
fn parse_line_rejects_bad_lines() {
    assert!(parse_line("no tabs here").is_none());
    assert!(parse_line("").is_none());
    assert!(parse_line("a\tb\tnot-a-number").is_none());
}

#[test]
fn parse_u32_handles_signs_and_overflow() {
    assert_eq!(parse_u32(&vec!['4', '2']), Some(42));
    assert_eq!(parse_u32(&vec!['+', '7']), Some(7));
    assert_eq!(parse_u32(&vec!['0', '0', '9']), Some(9));
    assert_eq!(parse_u32(&"4294967295".chars().collect()), Some(u32::MAX));
    assert_eq!(parse_u32(&"4294967296".chars().collect()), None);
    assert_eq!(parse_u32(&vec![]), None);
    assert_eq!(parse_u32(&vec!['+']), None);
    assert_eq!(parse_u32(&vec!['1', 'x']), None);
}

#[test]
fn code_table_rejects_wrong_engine_and_bad_lines() {
    let lines = vec![String::from("a\tb")];
    let pinyin_config = Configuration::Pinyin {
        scheme_file: String::from("s"),
        assist_file: None,
        fuzzy_syllables: vec![],
        character_database: String::from("c"),
        word_database: None,
        dynamic_word_frequency: false,
    };
    assert!(CodeTable::new(pinyin_config, &lines).is_none());
    let config = Configuration::CodeTable {
        perfect_only: false,
        codetable_file: String::from("t"),
    };
    let bad = vec![String::from("a\tb"), String::from("malformed")];
    assert!(CodeTable::new(config, &bad).is_none());
}

#[test]
fn split_and_trim_behave() {
    let trimmed = trim_chars(&"  a b\t".chars().collect());
    assert_eq!(trimmed, vec!['a', ' ', 'b']);
    let parts = split_chars(&"a|bc||d".chars().collect(), '|');
    assert_eq!(parts.len(), 4);
    assert_eq!(parts[0], vec!['a']);
    assert_eq!(parts[1], vec!['b', 'c']);
    assert_eq!(parts[2], Vec::<char>::new());
    assert_eq!(parts[3], vec!['d']);
}

#[test]
fn keymap_convert_splits_values() {
    let dict = vec![('n', String::from("n|en")), ('q', String::from("q"))];
    let converted = KeyMap::convert(&dict);
    assert_eq!(converted.len(), 2);
    assert_eq!(converted[0].0, 'n');
    assert_eq!(converted[0].1, vec![String::from("n"), String::from("en")]);
    assert_eq!(converted[1].1, vec![String::from("q")]);
}

#[test]
fn pinyin_codes_parse_and_reject() {
    let codes = parse_pinyin_codes("ZH|ang").expect("known spellings");
    assert_eq!(codes.len(), 2);
    assert!(matches!(codes[0], PinyinCode::Initials(PinyinInitials::ZH)));
    assert!(matches!(codes[1], PinyinCode::Finals(PinyinFinals::ANG)));
    assert!(parse_pinyin_codes("zz").is_none());
    assert!(parse_pinyin_codes("b|zz").is_none());
}

#[test]
fn scheme_splits_initials_and_finals() {
    let sheng = vec![
        (String::from("n"), String::from("n|en")),
        (String::from("v"), String::from("zh")),
        (String::from("?"), String::from("unknown")),
    ];
    let scheme = Scheme::new(&sheng, String::from("1.0"));
    assert_eq!(scheme.initials.len(), 2);
    assert_eq!(scheme.initials[0].0, "n");
    assert_eq!(scheme.initials[0].1, vec![PinyinInitials::N]);
    assert_eq!(scheme.initials[1].0, "v");
    assert_eq!(scheme.initials[1].1, vec![PinyinInitials::ZH]);
    assert_eq!(scheme.finals.len(), 1);
    assert_eq!(scheme.finals[0].0, "n");
    assert_eq!(scheme.finals[0].1, vec![PinyinFinals::EN]);
    assert!(scheme.special.is_empty());
    let mut keys = scheme.keycodes();
    keys.sort();
    assert_eq!(keys, vec!['n', 'v']);
}

#[test]
fn fuzzy_syllables_need_single_codes() {
    let good = vec![(String::from("in"), String::from("ing"))];
    let fs = FuzzySyllables::new(&good).expect("both sides single codes");
    assert_eq!(fs.0.len(), 1);
    assert!(matches!(fs.0[0].0, PinyinCode::Finals(PinyinFinals::IN)));
    assert!(matches!(fs.0[0].1, PinyinCode::Finals(PinyinFinals::ING)));
    let bad = vec![(String::from("zz"), String::from("ing"))];
    assert!(FuzzySyllables::new(&bad).is_none());
}

#[test]
fn assist_code_maps_every_segment() {
    let lines = vec![String::from("text\tq1\tq2"), String::from("other\tq1")];
    let assist = AssistCode::new(&lines);
    let mut keys = assist.keycodes();
    keys.sort();
    assert_eq!(keys, vec!['1', '2', 'q']);
    // both codes of the first line lead to its text
    let mut cur = assist.trie.root();
    for ch in "q1".chars() {
        cur = assist.trie.node(cur).child(ch).expect("path exists");
    }
    let values: Vec<&str> = assist.trie.node(cur).values.iter().map(|v| v.text.as_str()).collect();
    assert_eq!(values, vec!["text", "other"]);
}

#[test]
fn paths_append_their_fixed_segments() {
    let mut data = LocalDataPath::new(vec![String::from("home"), String::from("user")]);
    data.sub("codetable");
    let file = data.file("table.txt");
    let expect = vec!["home", "user", ".local", "share", "ime-neovim", "codetable", "table.txt"];
    let got: Vec<&str> = file.iter().map(|s| s.as_str()).collect();
    assert_eq!(got, expect);

    let config = LocalConfigPath::new(vec![String::from("home")]);
    let file2 = config.file("config.json");
    let got2: Vec<&str> = file2.iter().map(|s| s.as_str()).collect();
    assert_eq!(got2, vec!["home", ".config", "ime-neovim", "config.json"]);
}

#[test]
fn tree_rows_draw_edges_and_corners() {
    let mut stream = TreeStream::new();
    let root_row = stream.new_row(TreeParam::new(TreeDepth::root(), true));
    assert!(root_row.is_empty());
    let p = TreeParam::new(TreeDepth::root(), true);
    assert!(p.is_root());
    assert!(!TreeParam::new(TreeDepth::root().deeper(), false).is_root());
    // first child of two
    let row1 = stream.new_row(TreeParam::new(TreeDepth::root().deeper(), false));
    assert_eq!(row1, vec![TreeSign::Edge]);
    // its own last child
    let row2 = stream.new_row(TreeParam::new(TreeDepth::root().deeper().deeper(), true));
    assert_eq!(row2, vec![TreeSign::Line, TreeSign::Corner]);
    // back up: the last sibling at depth one
    let row3 = stream.new_row(TreeParam::new(TreeDepth::root().deeper(), true));
    assert_eq!(row3, vec![TreeSign::Corner]);
    assert_eq!(TreeSign::Edge.ascii(), "├──");
    assert_eq!(TreeSign::Blank.ascii(), "   ");
}
