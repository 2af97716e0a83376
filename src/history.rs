use vstd::prelude::*;

use regex::Regex;

use crate::opts::HistoryFlavor;
use crate::text::contains_text;
use crate::trie::{exact_at, inclusive_at, node_wf, tokens, Node};

verus! {

#[verifier::external_type_specification]
#[verifier::external_body]
pub struct ExRegex(Regex);

/// Whether `regex::Regex::new` accepts `pattern`.
pub uninterp spec fn compiles(pattern: Seq<char>) -> bool;

/// Relies on `regex::Regex::new`: the compiled pattern, or `None` where the
/// pattern cannot be compiled; which of the two depends on the pattern alone.
#[verifier::external_body]
fn compile_pattern(pattern: &str) -> (r: Option<Regex>)
    ensures
        r is Some <==> compiles(pattern@),
{
    match Regex::new(pattern) {
        Ok(re) => Some(re),
        Err(_) => None,
    }
}

/// The text of capture group `idx` in the first match of `re` in `line`, as
/// `Regex::captures` and `Captures::get` find it; `None` where there is no
/// match or the group takes no part in it.
pub uninterp spec fn captured(re: Regex, line: Seq<char>, idx: usize) -> Option<Seq<char>>;

/// Relies on `regex::Regex::captures`, `Captures::get` and `Match::as_str`:
/// the text of capture group `idx` in the first match of `re` in `line`, when
/// there is a match and the group takes part in it; it depends on the
/// pattern, the line and the index alone. That text is a run of `line`.
#[verifier::external_body]
fn capture_group(re: &Regex, line: &str, idx: usize) -> (r: Option<String>)
    ensures
        match captured(*re, line@, idx) {
            Some(c) => r matches Some(t) && t@ == c,
            None => r is None,
        },
        r matches Some(t) ==> contains_text(line@, t@),
{
    match re.captures(line) {
        Some(caps) => match caps.get(idx) {
            Some(m) => Some(m.as_str().to_string()),
            None => None,
        },
        None => None,
    }
}

/// The words of `s` as `str::split_whitespace` yields them.
pub uninterp spec fn whitespace_words(s: Seq<char>) -> Seq<Seq<char>>;

/// Relies on `str::split_whitespace`: the runs of non-whitespace characters
/// of `s`, in order; they depend on the characters of `s` alone.
#[verifier::external_body]
fn split_words(s: &str) -> (r: Vec<String>)
    ensures
        tokens(r@) == whitespace_words(s@),
{
    s.split_whitespace().map(str::to_string).collect()
}

/// The pattern of a flavor's history lines.
pub open spec fn pattern_of(f: HistoryFlavor) -> Seq<char> {
    match f {
        HistoryFlavor::Zsh => "^.*;(sudo )?(.*)$"@,
        HistoryFlavor::Bash => "^(sudo )?(.*)$"@,
    }
}

impl HistoryFlavor {
    /// The pattern whose second capture group holds the command of a history
    /// line, with a leading `sudo ` left out; zsh lines carry a timestamp
    /// before a `;`.
    pub fn history_pattern(&self) -> (r: &'static str)
        ensures
            r@ == pattern_of(*self),
    {
        match self {
            HistoryFlavor::Zsh => "^.*;(sudo )?(.*)$",
            HistoryFlavor::Bash => "^(sudo )?(.*)$",
        }
    }

    /// The compiled history pattern and the index of the group that holds the
    /// command; `None` where the pattern does not compile.
    pub fn regex_and_capture_idx(&self) -> (r: Option<(Regex, usize)>)
        ensures
            r is Some <==> compiles(pattern_of(*self)),
            r matches Some(p) ==> p.1 == 2,
    {
        match compile_pattern(self.history_pattern()) {
            Some(re) => Some((re, 2)),
            None => None,
        }
    }
}

impl Node {
    /// Records the command text of one history line, split into words; a line
    /// that gave no command text leaves the trie as it is.
    pub fn ingest_command(&mut self, command: Option<&str>)
        requires
            node_wf(*old(self)),
            old(self).count_inclusive < usize::MAX,
        ensures
            node_wf(*final(self)),
            command is None ==> *final(self) == *old(self),
            command matches Some(t) ==> {
                &&& final(self).count_inclusive == old(self).count_inclusive + 1
                &&& forall|p: Seq<Seq<char>>|
                    #[trigger] exact_at(*final(self), p) == exact_at(*old(self), p) + if p
                        == whitespace_words(t@) {
                        1int
                    } else {
                        0int
                    }
                &&& forall|p: Seq<Seq<char>>|
                    #[trigger] inclusive_at(*final(self), p) == inclusive_at(*old(self), p) + if p.is_prefix_of(
                        whitespace_words(t@),
                    ) {
                        1int
                    } else {
                        0int
                    }
            },
    {
        match command {
            Some(t) => {
                let words = split_words(t);
                self.chomp(words.as_slice());
            },
            None => {},
        }
    }

    /// Records one raw history line: the text of group `idx` of the first
    /// match of `re`, split into words. A line without that text leaves the
    /// trie as it is.
    pub fn ingest_line(&mut self, re: &Regex, idx: usize, line: &str)
        requires
            node_wf(*old(self)),
            old(self).count_inclusive < usize::MAX,
        ensures
            node_wf(*final(self)),
            captured(*re, line@, idx) is None ==> *final(self) == *old(self),
            captured(*re, line@, idx) matches Some(t) ==> {
                &&& contains_text(line@, t)
                &&& final(self).count_inclusive == old(self).count_inclusive + 1
                &&& forall|p: Seq<Seq<char>>|
                    #[trigger] exact_at(*final(self), p) == exact_at(*old(self), p) + if p
                        == whitespace_words(t) {
                        1int
                    } else {
                        0int
                    }
                &&& forall|p: Seq<Seq<char>>|
                    #[trigger] inclusive_at(*final(self), p) == inclusive_at(*old(self), p) + if p.is_prefix_of(
                        whitespace_words(t),
                    ) {
                        1int
                    } else {
                        0int
                    }
            },
    {
        let captured_text = capture_group(re, line, idx);
        match captured_text {
            Some(t) => {
                self.ingest_command(Some(t.as_str()));
            },
            None => {},
        }
    }
}

} // verus!
