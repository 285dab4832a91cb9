//! Session-level types shared by the engines: context identifiers and
//! the result of a backspace.

use vstd::prelude::*;
use crate::candidate::Candidate;

verus! {

/// Identifies one input session.  The registry that creates contexts
/// hands out the numbers; they are meant to increase and never be
/// reused within a process.
#[derive(Debug, Clone, Copy)]
pub struct ContextId {
    id: u32,
}

impl View for ContextId {
    type V = u32;

    closed spec fn view(&self) -> u32 {
        self.id
    }
}

impl ContextId {
    /// Wraps a registry-assigned number.
    pub fn new(id: u32) -> (r: ContextId)
        ensures
            r@ == id,
    {
        ContextId { id }
    }

    /// The raw number, for routing.
    pub fn id(&self) -> (r: u32)
        ensures
            r == self@,
    {
        self.id
    }
}

/// What a backspace produced: fresh candidates with the display codes,
/// or `Cancel` when the last typed code was removed and the session has
/// nothing left to edit.
#[derive(Debug)]
pub enum BackspaceResult {
    Candidates(Vec<Candidate>, Vec<String>),
    Cancel,
}

} // verus!

verus! {

/// Which engine to run and with what data files; read from the
/// configuration file by the host process.
#[derive(Debug)]
pub enum Configuration {
    CodeTable {
        /// show only perfectly matched candidates
        perfect_only: bool,
        /// code-table filename
        codetable_file: String,
    },
    Pinyin {
        /// keymap filename
        scheme_file: String,
        /// assist-code filename
        assist_file: Option<String>,
        /// fuzzy-syllable pairs
        fuzzy_syllables: Vec<(String, String)>,
        /// character database filename
        character_database: String,
        /// word database filename
        word_database: Option<String>,
        /// whether word frequencies adapt to use
        dynamic_word_frequency: bool,
    },
}

} // verus!

verus! {

/// The per-session interface a dispatcher drives: one typed code unit
/// in, one backspace, the session's identifier, and the display codes.
/// Each implementor states its own consistency with the trie it walks.
pub trait InputContext {
    spec fn inv(&self, trie: &crate::persistent_trie::PersistentTrie) -> bool;

    fn feed(&mut self, trie: &crate::persistent_trie::PersistentTrie, ch: char) -> (r: (
        Vec<Candidate>,
        Vec<String>,
    ))
        requires
            old(self).inv(trie),
        ensures
            final(self).inv(trie),
    ;

    fn backspace(&mut self, trie: &crate::persistent_trie::PersistentTrie) -> (r: BackspaceResult)
        requires
            old(self).inv(trie),
    ;

    fn id(&self) -> ContextId;

    fn codes(&self) -> Vec<String>;
}

} // verus!
