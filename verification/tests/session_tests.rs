//! End-to-end tests of the input session: feeding, overflow, backspace,
//! and the ranking policy.

use ime::candidate::MatchType;
use ime::code_table::CodeTable;
use ime::engine::{BackspaceResult, Configuration};

fn table(lines: &[&str]) -> CodeTable {
    let config = Configuration::CodeTable {
        perfect_only: false,
        codetable_file: String::from("table.txt"),
    };
    let lines: Vec<String> = lines.iter().map(|l| String::from(*l)).collect();
    CodeTable::new(config, &lines).expect("dictionary should load")
}

#[test]
fn feed_reaches_perfect_match() {
    let ct = table(&["1\taad\t100", "2\taad\t100"]);
    let mut ctx = ct.start_context(1);
    let (c1, codes1) = ctx.feed(&ct.table, 'a');
    assert_eq!(codes1.len(), 1);
    assert_eq!(codes1[0], "a");
    assert_eq!(c1.len(), 2);
    let (_c2, _codes2) = ctx.feed(&ct.table, 'a');
    let (c3, codes3) = ctx.feed(&ct.table, 'd');
    assert_eq!(codes3[0], "aad");
    assert_eq!(c3.len(), 2);
    assert!(matches!(c3[0].match_type, MatchType::PerfectMatch));
    assert!(c3[0].remain_codes.is_empty());
}

#[test]
fn prefix_candidates_carry_remaining_codes() {
    let ct = table(&["word\tab\t100"]);
    let mut ctx = ct.start_context(1);
    let (c, _) = ctx.feed(&ct.table, 'a');
    assert_eq!(c.len(), 1);
    assert_eq!(c[0].text, "word");
    assert_eq!(c[0].remain_codes, vec!['b']);
    assert!(matches!(c[0].match_type, MatchType::PrefixMatch));
    assert_eq!(c[0].message(), "wordb");
}

#[test]
fn round_trip_of_codes() {
    // feeding a, b, c and then three backspaces returns to the start;
    // codes() shows the right prefix at every step
    let ct = table(&["x\tabc\t100"]);
    let mut ctx = ct.start_context(7);
    let (_, s1) = ctx.feed(&ct.table, 'a');
    assert_eq!(s1[0], "a");
    let (_, s2) = ctx.feed(&ct.table, 'b');
    assert_eq!(s2[0], "ab");
    let (_, s3) = ctx.feed(&ct.table, 'c');
    assert_eq!(s3[0], "abc");
    match ctx.backspace(&ct.table) {
        BackspaceResult::Candidates(_, codes) => assert_eq!(codes[0], "ab"),
        BackspaceResult::Cancel => panic!("too early to cancel"),
    }
    match ctx.backspace(&ct.table) {
        BackspaceResult::Candidates(_, codes) => assert_eq!(codes[0], "a"),
        BackspaceResult::Cancel => panic!("too early to cancel"),
    }
    assert!(matches!(ctx.backspace(&ct.table), BackspaceResult::Cancel));
    assert_eq!(ctx.codes()[0], "");
}

#[test]
fn ranking_prefers_priority_at_equal_depth() {
    let ct = table(&["low\ta\t50", "high\ta\t90"]);
    let mut ctx = ct.start_context(1);
    let (c, _) = ctx.feed(&ct.table, 'a');
    assert_eq!(c.len(), 2);
    assert_eq!(c[0].text, "high");
    assert_eq!(c[1].text, "low");
}

#[test]
fn ranking_prefers_depth_over_priority() {
    let ct = table(&["shallow\ta\t10", "deep\tab\t1000"]);
    let mut ctx = ct.start_context(1);
    let (c, _) = ctx.feed(&ct.table, 'a');
    assert_eq!(c.len(), 2);
    assert_eq!(c[0].text, "shallow");
    assert_eq!(c[1].text, "deep");
}

#[test]
fn equal_rank_keeps_dictionary_order() {
    // three entries sharing one code and one priority come back in
    // dictionary-insertion order
    let ct = table(&["1\taad\t100", "2\taad\t100", "啊\taad\t100"]);
    let mut ctx = ct.start_context(1);
    ctx.feed(&ct.table, 'a');
    ctx.feed(&ct.table, 'a');
    let (c, _) = ctx.feed(&ct.table, 'd');
    assert_eq!(c.len(), 3);
    assert!(matches!(c[0].match_type, MatchType::PerfectMatch));
    assert!(matches!(c[1].match_type, MatchType::PerfectMatch));
    assert!(matches!(c[2].match_type, MatchType::PerfectMatch));
    assert_eq!(c[0].text, "1");
    assert_eq!(c[1].text, "2");
    assert_eq!(c[2].text, "啊");
}

#[test]
fn overflow_entry_and_exit() {
    // one matching code, then three unmatched ones: every overflowed
    // feed yields nothing, and backspaces exactly reverse it
    let ct = table(&["v\ta\t100"]);
    let mut ctx = ct.start_context(1);
    let (c0, _) = ctx.feed(&ct.table, 'a');
    assert_eq!(c0.len(), 1);
    let (c1, _) = ctx.feed(&ct.table, 'x');
    assert!(c1.is_empty());
    let (c2, _) = ctx.feed(&ct.table, 'x');
    assert!(c2.is_empty());
    let (c3, _) = ctx.feed(&ct.table, 'x');
    assert!(c3.is_empty());
    match ctx.backspace(&ct.table) {
        BackspaceResult::Candidates(c, codes) => {
            assert!(c.is_empty());
            assert_eq!(codes[0], "axx");
        },
        BackspaceResult::Cancel => panic!("still has input"),
    }
    match ctx.backspace(&ct.table) {
        BackspaceResult::Candidates(c, codes) => {
            assert!(c.is_empty());
            assert_eq!(codes[0], "ax");
        },
        BackspaceResult::Cancel => panic!("still has input"),
    }
    // the third backspace clears the overflow and ranks again without
    // moving the position
    match ctx.backspace(&ct.table) {
        BackspaceResult::Candidates(c, codes) => {
            assert_eq!(codes[0], "a");
            assert_eq!(c.len(), 1);
            assert_eq!(c[0].text, "v");
        },
        BackspaceResult::Cancel => panic!("still has input"),
    }
}

#[test]
fn overflow_on_empty_root() {
    // typing into an empty table yields nothing each time and cancels
    // out backwards
    let ct = table(&[]);
    let mut ctx = ct.start_context(1);
    let (c1, _) = ctx.feed(&ct.table, 'x');
    assert!(c1.is_empty());
    let (c2, _) = ctx.feed(&ct.table, 'x');
    assert!(c2.is_empty());
    match ctx.backspace(&ct.table) {
        BackspaceResult::Candidates(c, codes) => {
            assert!(c.is_empty());
            assert_eq!(codes[0], "x");
        },
        BackspaceResult::Cancel => panic!("still has input"),
    }
    assert!(matches!(ctx.backspace(&ct.table), BackspaceResult::Cancel));
}

#[test]
fn backspace_steps_back_to_father() {
    let ct = table(&["one\ta\t100", "two\tab\t100"]);
    let mut ctx = ct.start_context(1);
    ctx.feed(&ct.table, 'a');
    let (cb, _) = ctx.feed(&ct.table, 'b');
    assert_eq!(cb.len(), 1);
    assert_eq!(cb[0].text, "two");
    match ctx.backspace(&ct.table) {
        BackspaceResult::Candidates(c, codes) => {
            assert_eq!(codes[0], "a");
            assert_eq!(c.len(), 2);
            assert_eq!(c[0].text, "one");
            assert_eq!(c[1].text, "two");
        },
        BackspaceResult::Cancel => panic!("still has input"),
    }
}

#[test]
fn context_id_routes_sessions() {
    let ct = table(&["v\ta\t100"]);
    let ctx = ct.start_context(41);
    assert_eq!(ctx.id().id(), 41);
    let ctx2 = ct.start_context(42);
    assert_eq!(ctx2.id().id(), 42);
}

#[test]
fn keycodes_collects_dictionary_alphabet() {
    let ct = table(&["one\tab\t100", "two\tbc\t100"]);
    let mut keys = ct.keycodes();
    keys.sort();
    assert_eq!(keys, vec!['a', 'b', 'c']);
}
