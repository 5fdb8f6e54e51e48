//! Rewriting every match of a pattern with a fix template.
use vstd::prelude::*;
use crate::overlap_resolution::MatchResult;
use crate::span_mutator::{apply_span_replacements, replaced_text, SpanMutatorError, SpanReplacement};
use crate::text_interpolation::{generate_replacement, render, TemplateFix};

verus! {

/// `reps` replaces the span of each match by the fix rendered with the
/// match's bindings, keeping the surrounding whitespace.
pub open spec fn fix_replacements(reps: Seq<SpanReplacement>, matches: Seq<MatchResult>, fix: TemplateFix) -> bool {
    &&& reps.len() == matches.len()
    &&& forall|i: int|
        0 <= i < reps.len() ==> {
            &&& (#[trigger] reps[i]).span == matches[i].span
            &&& reps[i].replacement@ == render(fix@, matches[i].environment@)
            &&& !reps[i].absorb_trivia
        }
}

/// The replacements that rewrite each match with `fix`.
pub fn fix_matches(matches: &[MatchResult], fix: &TemplateFix) -> (res: Vec<SpanReplacement>)
    ensures
        fix_replacements(res@, matches@, *fix),
{
    let mut reps: Vec<SpanReplacement> = Vec::new();
    let mut k: usize = 0;
    while k < matches.len()
        invariant
            0 <= k <= matches@.len(),
            reps@.len() == k,
            forall|i: int|
                0 <= i < k ==> {
                    &&& (#[trigger] reps@[i]).span == matches@[i].span
                    &&& reps@[i].replacement@ == render(fix@, matches@[i].environment@)
                    &&& !reps@[i].absorb_trivia
                },
        decreases matches@.len() - k,
    {
        let text = generate_replacement(fix, &matches[k].environment);
        reps.push(SpanReplacement::new(matches[k].span, text.as_str()));
        k = k + 1;
    }
    reps
}

/// `source` with the span of each match replaced by `fix` rendered with the
/// match's bindings: what `apply_span_replacements` gives for the
/// replacements of `fix_matches`.
pub fn apply_fix_to_matches(source: &str, matches: &[MatchResult], fix: &TemplateFix) -> (res: Result<
    String,
    SpanMutatorError,
>)
    ensures
        exists|reps: Seq<SpanReplacement>|
            fix_replacements(reps, matches@, *fix) && match #[trigger] replaced_text(source@, reps) {
                Ok(t) => res matches Ok(r) && r@ == t,
                Err(e) => res == Err::<String, SpanMutatorError>(e),
            },
{
    let reps = fix_matches(matches, fix);
    let res = apply_span_replacements(source, reps.as_slice());
    assert(fix_replacements(reps@, matches@, *fix));
    res
}

/// A rule applied to `source` with the matches it found: with a fix, the
/// rewritten text (as `apply_fix_to_matches` gives it), the number of
/// matches and the number of rewrites (one per match); without one, the
/// source unchanged, the number of matches and no rewrites.
pub fn rewrite_with_fix(source: &str, matches: &[MatchResult], fix: Option<&TemplateFix>) -> (res: Result<
    (String, usize, usize),
    SpanMutatorError,
>)
    ensures
        fix is None ==> (res matches Ok(r) && r.0@ == source@ && r.1 == matches@.len() && r.2 == 0),
        fix matches Some(f) ==> exists|reps: Seq<SpanReplacement>|
            fix_replacements(reps, matches@, *f) && match #[trigger] replaced_text(source@, reps) {
                Ok(t) => res matches Ok(r) && r.0@ == t && r.1 == matches@.len() && r.2 == matches@.len(),
                Err(e) => res == Err::<(String, usize, usize), SpanMutatorError>(e),
            },
{
    match fix {
        Some(f) => {
            let updated = apply_fix_to_matches(source, matches, f);
            match updated {
                Ok(text) => Ok((text, matches.len(), matches.len())),
                Err(e) => Err(e),
            }
        },
        None => Ok((source.to_owned(), matches.len(), 0)),
    }
}

} // verus!
