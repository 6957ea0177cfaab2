//! Findings reported to the user, the summary of fixable ones, and the
//! pattern matcher used for include/exclude lists.
use vstd::prelude::*;

use ignore::gitignore::Gitignore;

use crate::matcher::{
    compile_outcome, compile_patterns, gitignore_matched, gitignore_matches, gitignore_source, kept_lines,
    views,
};
use crate::strset::StringSet;

verus! {

#[derive(Clone, Copy, Debug, PartialEq, Eq, Structural)]
pub enum Severity {
    Error,
    Warning,
}

#[derive(Clone, Debug)]
pub struct Diagnostic {
    pub file: String,
    pub line: usize,
    pub column: usize,
    pub severity: Severity,
    pub rule: String,
    pub message: String,
    pub fixable: bool,
}

/// Number of fixable diagnostics in `ds`.
pub open spec fn fixable_count(ds: Seq<Diagnostic>) -> nat
    decreases ds.len(),
{
    if ds.len() == 0 {
        0
    } else {
        fixable_count(ds.drop_last()) + if ds.last().fixable {
            1nat
        } else {
            0nat
        }
    }
}

/// The rule names of the fixable diagnostics in `ds`.
pub open spec fn fixable_rules(ds: Seq<Diagnostic>) -> Set<Seq<char>>
    decreases ds.len(),
{
    if ds.len() == 0 {
        Set::empty()
    } else if ds.last().fixable {
        fixable_rules(ds.drop_last()).insert(ds.last().rule@)
    } else {
        fixable_rules(ds.drop_last())
    }
}

pub proof fn lemma_fixable_count_bound(ds: Seq<Diagnostic>)
    ensures
        fixable_count(ds) <= ds.len(),
    decreases ds.len(),
{
    if ds.len() > 0 {
        lemma_fixable_count_bound(ds.drop_last());
    }
}

/// Summaries add up: the fixable count of two lists of diagnostics taken
/// together is the sum of their counts, and their fixable rules are the
/// union of theirs.
pub proof fn lemma_summary_of_concatenation(a: Seq<Diagnostic>, b: Seq<Diagnostic>)
    ensures
        fixable_count(a + b) == fixable_count(a) + fixable_count(b),
        fixable_rules(a + b) == fixable_rules(a).union(fixable_rules(b)),
    decreases b.len(),
{
    if b.len() == 0 {
        assert(a + b =~= a);
        assert(fixable_rules(a).union(Set::<Seq<char>>::empty()) =~= fixable_rules(a));
    } else {
        lemma_summary_of_concatenation(a, b.drop_last());
        assert((a + b).drop_last() =~= a + b.drop_last());
        assert((a + b).last() == b.last());
        if b.last().fixable {
            assert(fixable_rules(a + b) =~= fixable_rules(a).union(fixable_rules(b)));
        }
    }
}

/// The summary does not depend on the order of two runs' diagnostics.
pub proof fn lemma_summary_order_free(a: Seq<Diagnostic>, b: Seq<Diagnostic>)
    ensures
        fixable_count(a + b) == fixable_count(b + a),
        fixable_rules(a + b) == fixable_rules(b + a),
{
    lemma_summary_of_concatenation(a, b);
    lemma_summary_of_concatenation(b, a);
    assert(fixable_rules(a).union(fixable_rules(b)) =~= fixable_rules(b).union(fixable_rules(a)));
}

/// The summary does not depend on the order of the diagnostics at all: two
/// lists that hold the same diagnostics, each as often, have the same
/// fixable count and the same fixable rules.
pub proof fn lemma_summary_permutation(a: Seq<Diagnostic>, b: Seq<Diagnostic>)
    requires
        a.to_multiset() =~= b.to_multiset(),
    ensures
        fixable_count(a) == fixable_count(b),
        fixable_rules(a) == fixable_rules(b),
    decreases a.len(),
{
    broadcast use vstd::seq_lib::group_to_multiset_ensures;

    if a.len() == 0 {
        assert(a.to_multiset().len() == 0);
        assert(b.to_multiset().len() == 0);
        assert(b =~= Seq::<Diagnostic>::empty());
    } else {
        let x = a.last();
        let rest = a.drop_last();
        assert(rest.push(x) =~= a);
        assert(a.to_multiset().count(x) > 0);
        assert(b.contains(x));
        let j = choose|j: int| 0 <= j < b.len() && b[j] == x;
        let left = b.take(j);
        let right = b.skip(j + 1);
        assert(b.remove(j).to_multiset() =~= b.to_multiset().remove(x));
        assert(rest.to_multiset() =~= a.to_multiset().remove(x));
        assert(b.remove(j) =~= left + right);
        lemma_summary_permutation(rest, left + right);
        let single = seq![x];
        assert(b =~= (left + single) + right);
        lemma_summary_of_concatenation(left, right);
        lemma_summary_of_concatenation(left, single);
        lemma_summary_of_concatenation(left + single, right);
        lemma_summary_of_concatenation(rest, single);
        assert(single.drop_last() =~= Seq::<Diagnostic>::empty());
        assert(rest + single =~= a);
        assert(fixable_rules(left).union(fixable_rules(single)).union(fixable_rules(right))
            =~= fixable_rules(left).union(fixable_rules(right)).union(fixable_rules(single)));
    }
}

/// A rule is among the fixable rules exactly when some fixable diagnostic
/// names it.
pub proof fn lemma_fixable_rules_members(ds: Seq<Diagnostic>, rule: Seq<char>)
    ensures
        fixable_rules(ds).contains(rule) <==> exists|i: int|
            0 <= i < ds.len() && (#[trigger] ds[i]).fixable && ds[i].rule@ == rule,
    decreases ds.len(),
{
    if ds.len() > 0 {
        let prev = ds.drop_last();
        lemma_fixable_rules_members(prev, rule);
        if exists|i: int| 0 <= i < prev.len() && (#[trigger] prev[i]).fixable && prev[i].rule@ == rule {
            let i = choose|i: int| 0 <= i < prev.len() && (#[trigger] prev[i]).fixable && prev[i].rule@ == rule;
            assert(ds[i] == prev[i]);
        }
        if exists|i: int| 0 <= i < ds.len() && (#[trigger] ds[i]).fixable && ds[i].rule@ == rule {
            let i = choose|i: int| 0 <= i < ds.len() && (#[trigger] ds[i]).fixable && ds[i].rule@ == rule;
            if i < ds.len() - 1 {
                assert(prev[i] == ds[i]);
            }
        }
    }
}

#[derive(Debug)]
pub struct FixSummary {
    pub fixable_count: usize,
    pub fixable_rules: StringSet,
}

impl Default for FixSummary {
    fn default() -> (s: Self)
        ensures
            s.fixable_count == 0,
            s.fixable_rules.wf(),
            s.fixable_rules.members() == Set::<Seq<char>>::empty(),
    {
        let rules = StringSet::new();
        assert(rules.keys().to_set() =~= Set::<Seq<char>>::empty());
        FixSummary { fixable_count: 0, fixable_rules: rules }
    }
}

impl FixSummary {
    /// Counts `diagnostic` and remembers its rule if it is fixable.
    pub fn record(&mut self, diagnostic: &Diagnostic)
        requires
            old(self).fixable_rules.wf(),
            diagnostic.fixable ==> old(self).fixable_count < usize::MAX,
        ensures
            final(self).fixable_rules.wf(),
            final(self).fixable_count == old(self).fixable_count + if diagnostic.fixable {
                1int
            } else {
                0int
            },
            final(self).fixable_rules.members() == if diagnostic.fixable {
                old(self).fixable_rules.members().insert(diagnostic.rule@)
            } else {
                old(self).fixable_rules.members()
            },
    {
        if diagnostic.fixable {
            self.fixable_count = self.fixable_count + 1;
            self.fixable_rules.insert(diagnostic.rule.clone());
        }
    }
}

/// A gitignore-style matcher rooted at `/`, used for the `include`,
/// `exclude` and match-exclusion lists.
pub struct PatternMatcher {
    matcher: Gitignore,
}

impl PatternMatcher {
    /// The pattern lines the matcher was built from.
    pub closed spec fn patterns(self) -> Seq<Seq<char>> {
        gitignore_source(self.matcher).1
    }

    pub closed spec fn root(self) -> Seq<char> {
        gitignore_source(self.matcher).0
    }

    /// Builds a matcher from `patterns`; a pattern that does not parse is
    /// reported as `invalid pattern <pattern>`.
    pub fn new(patterns: &Vec<String>) -> (r: Result<Self, String>)
        ensures
            r is Ok <==> compile_outcome("/"@, views(patterns@), "invalid pattern "@) is Ok,
            r matches Err(e) ==> (compile_outcome("/"@, views(patterns@), "invalid pattern "@) matches Err(m)
                && m == e@),
            r matches Ok(m) ==> m.patterns() == kept_lines(views(patterns@)) && m.root() == "/"@,
    {
        proof {
            reveal_strlit("/");
        }
        match compile_patterns("/", patterns, "invalid pattern ") {
            Ok(matcher) => Ok(PatternMatcher { matcher }),
            Err(e) => Err(e),
        }
    }

    pub fn is_match(&self, path: &str, is_dir: bool) -> (r: bool)
        ensures
            r == gitignore_matches(self.root(), self.patterns(), path@, is_dir),
    {
        gitignore_matched(&self.matcher, path, is_dir)
    }
}

} // verus!
