//! Matchers: the interface of anything that matches a node against a
//! pattern, and the combinations of matchers that all, any, or none of
//! must match.
use vstd::prelude::*;
use crate::capture::{empty_env, EnvView, MatchEnvironment, MatchOutcome};
use crate::matcher::{after_attempt, node_match, PatternMatcher};
use crate::syntax::SyntaxNode;
use crate::wildcard_parsing::PatternNode;

verus! {

/// Something that matches a syntax node against a pattern, extending the
/// bindings of meta-variables.
pub trait Matcher {
    /// The bindings after matching `target` against `pattern` from `env`,
    /// or `None` where it does not match.
    spec fn match_spec(&self, target: SyntaxNode, pattern: PatternNode, env: EnvView) -> Option<EnvView>;

    /// Matches `target` against `pattern` from the bindings `env`: where it
    /// matches, `env` holds the new bindings; otherwise it is unchanged.
    fn match_node_with_env(&self, target: &SyntaxNode, pattern: &PatternNode, env: &mut MatchEnvironment) -> (res: bool)
        ensures
            res == self.match_spec(*target, *pattern, old(env)@) is Some,
            final(env)@ == after_attempt(self.match_spec(*target, *pattern, old(env)@), old(env)@),
    ;

    /// The same as `match_node_with_env`.
    fn match_node_with_env_and_capture(
        &self,
        target: &SyntaxNode,
        pattern: &PatternNode,
        env: &mut MatchEnvironment,
    ) -> (res: bool)
        ensures
            res == self.match_spec(*target, *pattern, old(env)@) is Some,
            final(env)@ == after_attempt(self.match_spec(*target, *pattern, old(env)@), old(env)@),
    {
        self.match_node_with_env(target, pattern, env)
    }

    /// The bindings of a match of `target` against `pattern` from no
    /// bindings, or `None` where it does not match.
    fn match_node(&self, target: &SyntaxNode, pattern: &PatternNode) -> (res: Option<MatchEnvironment>)
        ensures
            res is Some <==> self.match_spec(*target, *pattern, empty_env()) is Some,
            res matches Some(env) ==> Some(env@) == self.match_spec(*target, *pattern, empty_env()),
    {
        let mut env = MatchEnvironment::new();
        if self.match_node_with_env(target, pattern, &mut env) {
            Some(env)
        } else {
            None
        }
    }

    /// Matches `target` against `pattern` from no bindings.
    fn match_result(&self, target: &SyntaxNode, pattern: &PatternNode) -> (res: MatchOutcome)
        ensures
            res.matched == self.match_spec(*target, *pattern, empty_env()) is Some,
            res.environment@ == after_attempt(self.match_spec(*target, *pattern, empty_env()), empty_env()),
    {
        let mut env = MatchEnvironment::new();
        let matched = self.match_node_with_env(target, pattern, &mut env);
        MatchOutcome { matched, environment: env }
    }
}

impl Matcher for PatternMatcher {
    open spec fn match_spec(&self, target: SyntaxNode, pattern: PatternNode, env: EnvView) -> Option<EnvView> {
        node_match(self.level(), target, pattern, env)
    }

    fn match_node_with_env(&self, target: &SyntaxNode, pattern: &PatternNode, env: &mut MatchEnvironment) -> (res: bool) {
        PatternMatcher::match_node_with_env(self, target, pattern, env)
    }
}

/// Matching with each of `ms[i..]` in turn, each from the bindings the one
/// before left; `None` as soon as one does not match.
pub open spec fn all_from<M: Matcher>(
    ms: Seq<M>,
    i: int,
    target: SyntaxNode,
    pattern: PatternNode,
    env: EnvView,
) -> Option<EnvView>
    decreases ms.len() - i,
{
    if i < 0 || i >= ms.len() {
        Some(env)
    } else {
        match ms[i].match_spec(target, pattern, env) {
            Some(e) => all_from(ms, i + 1, target, pattern, e),
            None => None,
        }
    }
}

/// Matching with the first of `ms[i..]` that matches from `env`.
pub open spec fn any_from<M: Matcher>(
    ms: Seq<M>,
    i: int,
    target: SyntaxNode,
    pattern: PatternNode,
    env: EnvView,
) -> Option<EnvView>
    decreases ms.len() - i,
{
    if i < 0 || i >= ms.len() {
        None
    } else {
        match ms[i].match_spec(target, pattern, env) {
            Some(e) => Some(e),
            None => any_from(ms, i + 1, target, pattern, env),
        }
    }
}

/// Matches when every one of its matchers matches, in order.
pub struct AllMatcher<M> {
    matchers: Vec<M>,
}

impl<M: Matcher> AllMatcher<M> {
    /// The matchers, in order.
    pub closed spec fn members(&self) -> Seq<M> {
        self.matchers@
    }

    /// No matchers: matches everything.
    pub fn new() -> (res: Self)
        ensures
            res.members().len() == 0,
    {
        AllMatcher { matchers: Vec::new() }
    }

    /// Adds a matcher at the end.
    pub fn push(&mut self, matcher: M)
        ensures
            final(self).members() == old(self).members().push(matcher),
    {
        self.matchers.push(matcher);
    }
}

impl<M: Matcher> Matcher for AllMatcher<M> {
    open spec fn match_spec(&self, target: SyntaxNode, pattern: PatternNode, env: EnvView) -> Option<EnvView> {
        all_from(self.members(), 0, target, pattern, env)
    }

    fn match_node_with_env(&self, target: &SyntaxNode, pattern: &PatternNode, env: &mut MatchEnvironment) -> (res: bool) {
        let mut current = env.duplicate();
        let mut k: usize = 0;
        while k < self.matchers.len()
            invariant
                0 <= k <= self.matchers@.len(),
                env@ == old(env)@,
                all_from(self.matchers@, k as int, *target, *pattern, current@) == all_from(
                    self.matchers@,
                    0,
                    *target,
                    *pattern,
                    old(env)@,
                ),
            decreases self.matchers@.len() - k,
        {
            if !self.matchers[k].match_node_with_env(target, pattern, &mut current) {
                return false;
            }
            k = k + 1;
        }
        *env = current;
        true
    }
}

/// Matches with the first of its matchers that matches.
pub struct AnyMatcher<M> {
    matchers: Vec<M>,
}

impl<M: Matcher> AnyMatcher<M> {
    /// The matchers, in order.
    pub closed spec fn members(&self) -> Seq<M> {
        self.matchers@
    }

    /// No matchers: matches nothing.
    pub fn new() -> (res: Self)
        ensures
            res.members().len() == 0,
    {
        AnyMatcher { matchers: Vec::new() }
    }

    /// Adds a matcher at the end.
    pub fn push(&mut self, matcher: M)
        ensures
            final(self).members() == old(self).members().push(matcher),
    {
        self.matchers.push(matcher);
    }
}

impl<M: Matcher> Matcher for AnyMatcher<M> {
    open spec fn match_spec(&self, target: SyntaxNode, pattern: PatternNode, env: EnvView) -> Option<EnvView> {
        any_from(self.members(), 0, target, pattern, env)
    }

    fn match_node_with_env(&self, target: &SyntaxNode, pattern: &PatternNode, env: &mut MatchEnvironment) -> (res: bool) {
        let baseline = env.duplicate();
        let mut k: usize = 0;
        while k < self.matchers.len()
            invariant
                0 <= k <= self.matchers@.len(),
                env@ == old(env)@,
                baseline@ == old(env)@,
                any_from(self.matchers@, k as int, *target, *pattern, baseline@) == any_from(
                    self.matchers@,
                    0,
                    *target,
                    *pattern,
                    old(env)@,
                ),
            decreases self.matchers@.len() - k,
        {
            let mut candidate = baseline.duplicate();
            if self.matchers[k].match_node_with_env(target, pattern, &mut candidate) {
                *env = candidate;
                return true;
            }
            k = k + 1;
        }
        false
    }
}

/// Matches where its matcher does not, leaving the bindings as they were.
pub struct NotMatcher<M> {
    matcher: M,
}

impl<M: Matcher> NotMatcher<M> {
    /// The negated matcher.
    pub closed spec fn inner(&self) -> M {
        self.matcher
    }

    /// The negation of `matcher`.
    pub fn new(matcher: M) -> (res: Self)
        ensures
            res.inner() == matcher,
    {
        NotMatcher { matcher }
    }
}

impl<M: Matcher> Matcher for NotMatcher<M> {
    open spec fn match_spec(&self, target: SyntaxNode, pattern: PatternNode, env: EnvView) -> Option<EnvView> {
        match self.inner().match_spec(target, pattern, env) {
            Some(_) => None,
            None => Some(env),
        }
    }

    fn match_node_with_env(&self, target: &SyntaxNode, pattern: &PatternNode, env: &mut MatchEnvironment) -> (res: bool) {
        let mut candidate = env.duplicate();
        !self.matcher.match_node_with_env(target, pattern, &mut candidate)
    }
}

/// Matches when all of its matchers match, as `AllMatcher` does.
pub struct CompositeMatcher<M> {
    all: AllMatcher<M>,
}

impl<M: Matcher> CompositeMatcher<M> {
    /// The matchers, in order.
    pub closed spec fn members(&self) -> Seq<M> {
        self.all.members()
    }

    /// No matchers: matches everything.
    pub fn new() -> (res: Self)
        ensures
            res.members().len() == 0,
    {
        CompositeMatcher { all: AllMatcher::new() }
    }

    /// Adds a matcher at the end.
    pub fn push(&mut self, matcher: M)
        ensures
            final(self).members() == old(self).members().push(matcher),
    {
        self.all.push(matcher);
    }
}

impl<M: Matcher> Matcher for CompositeMatcher<M> {
    open spec fn match_spec(&self, target: SyntaxNode, pattern: PatternNode, env: EnvView) -> Option<EnvView> {
        all_from(self.members(), 0, target, pattern, env)
    }

    fn match_node_with_env(&self, target: &SyntaxNode, pattern: &PatternNode, env: &mut MatchEnvironment) -> (res: bool) {
        self.all.match_node_with_env(target, pattern, env)
    }
}

} // verus!
