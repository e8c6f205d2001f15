//! The ignore matcher: whether a path is hidden, by pattern rules first and
//! by the host's hidden-file convention where no rule speaks.

use crate::path::{dot_named, has_dot_name};
use ignore::gitignore::Gitignore;
use ignore::Match;
use vstd::prelude::*;

verus! {

/// `ignore::gitignore::Gitignore`: the compiled rules of one pattern file.
#[verifier::external_type_specification]
#[verifier::external_body]
pub struct ExGitignore(Gitignore);

/// How a set of pattern rules judges one path.
#[derive(Clone, Copy, PartialEq, Eq, Debug)]
pub enum Verdict {
    /// No pattern of the rules speaks of the path.
    Unmatched,
    /// The pattern that decides excludes the path.
    Ignored,
    /// The pattern that decides is a negation: the path is kept.
    Kept,
}

/// What the host offers to tell a conventionally hidden node.
#[derive(Clone, Copy, Debug)]
pub enum HiddenMarker {
    /// The file name: hidden where it begins with a dot.
    DotName,
    /// The attribute bits the filesystem keeps for the node.
    Attributes(u32),
}

/// The attribute bit that marks a node as hidden.
pub const HIDDEN_ATTRIBUTE: u32 = 0x2;

/// The verdict of `Gitignore::matched` for a path, given whether the path is
/// a directory.
pub uninterp spec fn rules_verdict(rules: Gitignore, path: Seq<char>, is_dir: bool) -> Verdict;

/// Calls `Gitignore::matched`, which judges `path` by the last pattern that
/// matches it, a directory-only pattern counting only for a directory. The
/// three variants of its answer are handed on one for one. The contract only
/// names the answer: nothing is proved of how the patterns are read.
#[verifier::external_body]
fn matched(rules: &Gitignore, path: &str, is_dir: bool) -> (verdict: Verdict)
    ensures
        verdict == rules_verdict(*rules, path@, is_dir),
{
    match rules.matched(path, is_dir) {
        Match::None => Verdict::Unmatched,
        Match::Ignore(_) => Verdict::Ignored,
        Match::Whitelist(_) => Verdict::Kept,
    }
}

/// Whether the host's convention marks the node as hidden.
pub open spec fn marked_hidden(path: Seq<char>, marker: HiddenMarker) -> bool {
    match marker {
        HiddenMarker::DotName => dot_named(path),
        HiddenMarker::Attributes(bits) => bits & HIDDEN_ATTRIBUTE != 0,
    }
}

/// Whether an entry is hidden, for each verdict of the pattern rules: never
/// while ignore checking is off; else by the rules where a pattern speaks,
/// and by the host's convention where none does.
pub open spec fn hidden_by(
    enabled: bool,
    verdict: Verdict,
    path: Seq<char>,
    marker: HiddenMarker,
) -> bool {
    enabled && match verdict {
        Verdict::Ignored => true,
        Verdict::Kept => false,
        Verdict::Unmatched => marked_hidden(path, marker),
    }
}

/// Decides from the verdict of the pattern rules whether an entry is hidden.
pub fn decide_hidden(enabled: bool, verdict: Verdict, path: &str, marker: HiddenMarker) -> (hidden:
    bool)
    ensures
        hidden == hidden_by(enabled, verdict, path@, marker),
{
    if !enabled {
        return false;
    }
    match verdict {
        Verdict::Ignored => true,
        Verdict::Kept => false,
        Verdict::Unmatched => match marker {
            HiddenMarker::DotName => has_dot_name(path),
            HiddenMarker::Attributes(bits) => bits & HIDDEN_ATTRIBUTE != 0,
        },
    }
}

/// The rules of one root, and whether ignore checking is on for this run.
pub struct IgnoreMatcher {
    enabled: bool,
    rules: Gitignore,
}

impl IgnoreMatcher {
    /// Whether ignore checking is on.
    pub closed spec fn enabled(&self) -> bool {
        self.enabled
    }

    /// The pattern rules.
    pub closed spec fn rules(&self) -> Gitignore {
        self.rules
    }

    /// Whether the matcher hides a path.
    pub open spec fn hides(&self, path: Seq<char>, is_dir: bool, marker: HiddenMarker) -> bool {
        hidden_by(self.enabled(), rules_verdict(self.rules(), path, is_dir), path, marker)
    }

    /// A matcher over compiled pattern rules.
    pub fn new(enabled: bool, rules: Gitignore) -> (matcher: IgnoreMatcher)
        ensures
            matcher.enabled() == enabled,
            matcher.rules() == rules,
    {
        IgnoreMatcher { enabled, rules }
    }

    /// Whether ignore checking is on.
    pub fn is_enabled(&self) -> (enabled: bool)
        ensures
            enabled == self.enabled(),
    {
        self.enabled
    }

    /// Whether `path` is hidden.
    pub fn is_hidden(&self, path: &str, is_dir: bool, marker: HiddenMarker) -> (hidden: bool)
        ensures
            hidden == self.hides(path@, is_dir, marker),
    {
        if !self.enabled {
            return false;
        }
        let verdict = matched(&self.rules, path, is_dir);
        decide_hidden(true, verdict, path, marker)
    }
}

/// While ignore checking is off nothing is hidden.
pub proof fn lemma_disabled_hides_nothing(
    matcher: IgnoreMatcher,
    path: Seq<char>,
    is_dir: bool,
    marker: HiddenMarker,
)
    requires
        !matcher.enabled(),
    ensures
        !matcher.hides(path, is_dir, marker),
{
}

} // verus!
