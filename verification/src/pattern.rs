//! A matcher compiled once from a list of glob patterns.

use crate::error::PatternError;
use crate::glob::{
    build_complaint, builder_add, builder_build, builder_globs, glob_complaint, glob_matches,
    glob_parses, is_hit_list, matches_any, matches_every, set_builds, set_globs, set_is_match,
    set_matches,
};
use globset::{GlobSet, GlobSetBuilder};
use vstd::prelude::*;
use vstd::string::*;

verus! {

/// Every text among `globs` is valid glob syntax.
pub open spec fn all_parse(globs: Seq<Seq<char>>) -> bool {
    forall|i: int| 0 <= i < globs.len() ==> glob_parses(#[trigger] globs[i])
}

/// `at` is the position of the first text among `globs` that is not valid
/// glob syntax.
pub open spec fn first_invalid(globs: Seq<Seq<char>>, at: int) -> bool {
    &&& 0 <= at < globs.len()
    &&& !glob_parses(globs[at])
    &&& forall|j: int| 0 <= j < at ==> glob_parses(#[trigger] globs[j])
}

/// The list compiles into one matcher: every text is valid glob syntax and
/// the set can be assembled.
pub open spec fn compiles(globs: Seq<Seq<char>>) -> bool {
    all_parse(globs) && set_builds(globs)
}

/// `error` is what compiling `globs` into one matcher gives when that fails:
/// the first text that is not valid glob syntax, with what the parser says
/// against it; or, when all are valid, what assembling the set says.
pub open spec fn is_failure_of(error: PatternError, globs: Seq<Seq<char>>) -> bool {
    match error {
        PatternError::InvalidPattern { pattern, cause } => exists|at: int| #[trigger]
            first_invalid(globs, at) && pattern@ == globs[at] && glob_complaint(globs[at])
                == Some(cause@),
        PatternError::BuildFailed { cause } => all_parse(globs) && build_complaint(globs) == Some(
            cause@,
        ),
    }
}

/// The text compiles into a matcher of its own.
pub open spec fn compiles_alone(text: Seq<char>) -> bool {
    glob_parses(text) && set_builds(seq![text])
}

/// `error` is what compiling the single pattern `text` gives when that fails.
pub open spec fn explains(error: PatternError, text: Seq<char>) -> bool {
    match error {
        PatternError::InvalidPattern { pattern, cause } => pattern@ == text && glob_complaint(text)
            == Some(cause@),
        PatternError::BuildFailed { cause } => glob_parses(text) && build_complaint(seq![text])
            == Some(cause@),
    }
}

/// The globs among `globs` that match `candidate`, in the order they were given.
pub open spec fn matching(globs: Seq<Seq<char>>, candidate: Seq<char>) -> Seq<Seq<char>> {
    globs.filter(|glob: Seq<char>| glob_matches(glob, candidate))
}

/// The globs found at the positions `hits`.
pub open spec fn picked(hits: Seq<usize>, globs: Seq<Seq<char>>) -> Seq<Seq<char>> {
    hits.map_values(|hit: usize| globs[hit as int])
}

/// A hit list picks out exactly the globs that match, in the order they were given.
proof fn lemma_hits_pick_matching(hits: Seq<usize>, globs: Seq<Seq<char>>, candidate: Seq<char>)
    requires
        is_hit_list(hits, globs, candidate),
    ensures
        picked(hits, globs) == matching(globs, candidate),
    decreases globs.len(),
{
    reveal(Seq::filter);
    let pred = |glob: Seq<char>| glob_matches(glob, candidate);
    if globs.len() == 0 {
        if hits.len() > 0 {
            assert(hits[0] < globs.len());
        }
        assert(picked(hits, globs) =~= matching(globs, candidate));
    } else {
        let n = globs.len() as int;
        let rest = globs.drop_last();
        if glob_matches(globs.last(), candidate) {
            let k = choose|k: int| 0 <= k < hits.len() && #[trigger] hits[k] == n - 1;
            if k < hits.len() - 1 {
                assert(hits[k] < hits[hits.len() - 1]);
                assert(hits[hits.len() - 1] < globs.len());
            }
            let fewer = hits.drop_last();
            assert(is_hit_list(fewer, rest, candidate)) by {
                assert forall|j: int| 0 <= j < fewer.len() implies (#[trigger] fewer[j])
                    < rest.len() && glob_matches(rest[fewer[j] as int], candidate) by {
                    assert(hits[j] < hits[k]);
                }
                assert forall|i: int|
                    0 <= i < rest.len() && glob_matches(
                        #[trigger] rest[i],
                        candidate,
                    ) implies exists|j: int| 0 <= j < fewer.len() && #[trigger] fewer[j] == i by {
                    assert(glob_matches(globs[i], candidate));
                    let j = choose|j: int| 0 <= j < hits.len() && #[trigger] hits[j] == i;
                    assert(fewer[j] == i);
                }
            }
            lemma_hits_pick_matching(fewer, rest, candidate);
            assert(picked(hits, globs) =~= picked(fewer, rest).push(globs.last()));
        } else {
            assert(is_hit_list(hits, rest, candidate)) by {
                assert forall|j: int| 0 <= j < hits.len() implies (#[trigger] hits[j]) < rest.len()
                    && glob_matches(rest[hits[j] as int], candidate) by {
                    assert(glob_matches(globs[hits[j] as int], candidate));
                }
                assert forall|i: int|
                    0 <= i < rest.len() && glob_matches(
                        #[trigger] rest[i],
                        candidate,
                    ) implies exists|j: int| 0 <= j < hits.len() && #[trigger] hits[j] == i by {
                    assert(glob_matches(globs[i], candidate));
                }
            }
            lemma_hits_pick_matching(hits, rest, candidate);
            assert(picked(hits, globs) =~= picked(hits, rest));
        }
    }
}

/// A path matches every glob exactly when the globs that match it are as many
/// as there are globs; and if it matches every glob of a non-empty list, it
/// matches at least one.
pub proof fn law_all_iff_full_count(globs: Seq<Seq<char>>, candidate: Seq<char>)
    ensures
        matches_every(globs, candidate) <==> matching(globs, candidate).len() == globs.len(),
        globs.len() > 0 && matches_every(globs, candidate) ==> matches_any(globs, candidate),
    decreases globs.len(),
{
    reveal(Seq::filter);
    let pred = |glob: Seq<char>| glob_matches(glob, candidate);
    if globs.len() > 0 {
        let rest = globs.drop_last();
        law_all_iff_full_count(rest, candidate);
        rest.lemma_filter_len(pred);
        if matches_every(globs, candidate) {
            assert(glob_matches(globs[0], candidate));
            assert forall|i: int| 0 <= i < rest.len() implies glob_matches(
                #[trigger] rest[i],
                candidate,
            ) by {
                assert(glob_matches(globs[i], candidate));
            }
            assert(glob_matches(globs[globs.len() - 1], candidate));
        }
        if matching(globs, candidate).len() == globs.len() {
            assert(glob_matches(globs.last(), candidate));
            assert forall|i: int| 0 <= i < globs.len() implies glob_matches(
                #[trigger] globs[i],
                candidate,
            ) by {
                if i < rest.len() {
                    assert(glob_matches(rest[i], candidate));
                }
            }
        }
    }
}

/// A set of glob patterns compiled into one matcher.
#[derive(Debug)]
pub struct PatternMatcher {
    globset: GlobSet,
    patterns: Vec<String>,
}

impl View for PatternMatcher {
    type V = Seq<Seq<char>>;

    /// The pattern texts, in the order they were given.
    closed spec fn view(&self) -> Seq<Seq<char>> {
        self.patterns.deep_view()
    }
}

impl PatternMatcher {
    /// The compiled set holds exactly the patterns, each of them valid.
    #[verifier::type_invariant]
    closed spec fn well_formed(self) -> bool {
        set_globs(self.globset) == self.patterns.deep_view() && compiles(
            self.patterns.deep_view(),
        )
    }

    /// Compiles `patterns` into one matcher.
    ///
    /// It succeeds exactly when every pattern is valid glob syntax and the
    /// glob engine can assemble the set; an empty list always compiles. When a
    /// pattern is invalid the error is `InvalidPattern`, naming the first such
    /// pattern and carrying what the parser says against it. When all are
    /// valid but the set cannot be assembled the error is `BuildFailed`.
    pub fn new(patterns: Vec<String>) -> (made: Result<PatternMatcher, PatternError>)
        ensures
            made is Ok <==> compiles(patterns.deep_view()),
            match made {
                Ok(matcher) => matcher@ == patterns.deep_view(),
                Err(error) => is_failure_of(error, patterns.deep_view()),
            },
            patterns.len() == 0 ==> made is Ok,
    {
        let mut builder = GlobSetBuilder::new();
        let mut i: usize = 0;
        while i < patterns.len()
            invariant
                i <= patterns.len(),
                builder_globs(builder) == patterns.deep_view().take(i as int),
                all_parse(patterns.deep_view().take(i as int)),
            decreases patterns.len() - i,
        {
            match builder_add(&mut builder, patterns[i].as_str()) {
                Ok(()) => {},
                Err(cause) => {
                    proof {
                        assert(first_invalid(patterns.deep_view(), i as int)) by {
                            assert forall|j: int| 0 <= j < i implies glob_parses(
                                #[trigger] patterns.deep_view()[j],
                            ) by {
                                assert(patterns.deep_view().take(i as int)[j]
                                    == patterns.deep_view()[j]);
                            }
                        }
                    }
                    return Err(PatternError::InvalidPattern { pattern: patterns[i].clone(), cause });
                },
            }
            proof {
                assert(patterns.deep_view().take(i + 1) =~= patterns.deep_view().take(
                    i as int,
                ).push(patterns[i as int]@));
            }
            i += 1;
        }
        proof {
            assert(patterns.deep_view().take(patterns.len() as int) =~= patterns.deep_view());
        }
        Self::assemble(patterns, builder_build(&builder))
    }

    /// Compiles one pattern into a matcher of its own. It succeeds exactly
    /// when the text is valid glob syntax and the glob engine can assemble a
    /// set from it alone.
    pub fn single(pattern: &str) -> (made: Result<PatternMatcher, PatternError>)
        ensures
            made is Ok <==> compiles_alone(pattern@),
            match made {
                Ok(matcher) => matcher@ == seq![pattern@],
                Err(error) => explains(error, pattern@),
            },
    {
        let mut list: Vec<String> = Vec::new();
        list.push(String::from_str(pattern));
        proof {
            assert(list.deep_view() =~= seq![pattern@]);
            assert(list.deep_view()[0] == pattern@);
        }
        let made = PatternMatcher::new(list);
        proof {
            let globs = seq![pattern@];
            assert(globs[0] == pattern@);
            assert(all_parse(globs) <==> glob_parses(pattern@));
            assert(made matches Err(PatternError::InvalidPattern { pattern: named, cause })
                ==> named@ == pattern@ && glob_complaint(pattern@) == Some(cause@));
        }
        made
    }

    /// Finishes a compilation from what assembling the set of the (valid)
    /// patterns gave.
    fn assemble(patterns: Vec<String>, built: Result<GlobSet, String>) -> (made: Result<
        PatternMatcher,
        PatternError,
    >)
        requires
            all_parse(patterns.deep_view()),
            match built {
                Ok(set) => set_builds(patterns.deep_view()) && set_globs(set)
                    == patterns.deep_view(),
                Err(text) => build_complaint(patterns.deep_view()) == Some(text@),
            },
        ensures
            match built {
                Ok(set) => made matches Ok(matcher) && matcher@ == patterns.deep_view(),
                Err(text) => made matches Err(PatternError::BuildFailed { cause }) && cause@
                    == text@,
            },
    {
        match built {
            Ok(globset) => Ok(PatternMatcher { globset, patterns }),
            Err(cause) => Err(PatternError::BuildFailed { cause }),
        }
    }

    /// How many patterns the matcher was compiled from.
    pub fn len(&self) -> (count: usize)
        ensures
            count == self@.len(),
    {
        self.patterns.len()
    }

    /// The patterns that match `path`, in the order they were given.
    pub fn matching_patterns(&self, path: &str) -> (found: Vec<String>)
        ensures
            found.deep_view() == matching(self@, path@),
    {
        proof {
            use_type_invariant(self);
        }
        let hits = set_matches(&self.globset, path);
        let ghost globs = self.patterns.deep_view();
        let mut found: Vec<String> = Vec::new();
        let mut k: usize = 0;
        while k < hits.len()
            invariant
                k <= hits.len(),
                globs == self.patterns.deep_view(),
                is_hit_list(hits@, globs, path@),
                found.deep_view() == picked(hits@.take(k as int), globs),
            decreases hits.len() - k,
        {
            let hit = hits[k];
            let ghost earlier = found.deep_view();
            found.push(self.patterns[hit].clone());
            proof {
                assert(hits@.take(k + 1) =~= hits@.take(k as int).push(hit));
                assert(globs[hit as int] == self.patterns[hit as int]@);
                assert(found.deep_view() =~= earlier.push(globs[hit as int]));
                assert(picked(hits@.take(k + 1), globs) =~= picked(hits@.take(k as int), globs).push(
                    globs[hit as int],
                ));
            }
            k += 1;
        }
        proof {
            assert(hits@.take(hits.len() as int) =~= hits@);
            lemma_hits_pick_matching(hits@, globs, path@);
        }
        found
    }

    /// Whether `path` matches every pattern (true when there are none). It is
    /// decided by counting the patterns that match.
    pub fn matches_all(&self, path: &str) -> (all: bool)
        ensures
            all == matches_every(self@, path@),
            all == (matching(self@, path@).len() == self@.len()),
    {
        proof {
            use_type_invariant(self);
        }
        let hits = set_matches(&self.globset, path);
        proof {
            let globs = self.patterns.deep_view();
            lemma_hits_pick_matching(hits@, globs, path@);
            law_all_iff_full_count(globs, path@);
            assert(picked(hits@, globs).len() == hits.len());
        }
        self.patterns.len() == hits.len()
    }

    /// Whether `path` matches at least one pattern.
    pub fn matches(&self, path: &str) -> (hit: bool)
        ensures
            hit == matches_any(self@, path@),
    {
        proof {
            use_type_invariant(self);
        }
        set_is_match(&self.globset, path)
    }
}

impl Clone for PatternMatcher {
    /// A second handle on the same compiled patterns.
    fn clone(&self) -> (copy: Self)
        ensures
            copy@ == self@,
    {
        proof {
            use_type_invariant(self);
        }
        let patterns = self.patterns.clone();
        proof {
            assert forall|i: int| 0 <= i < patterns.len() implies patterns[i]@
                == self.patterns[i]@ by {
                assert(cloned::<String>(self.patterns[i], patterns[i]));
            }
            assert(patterns.deep_view() =~= self.patterns.deep_view());
        }
        PatternMatcher { globset: self.globset.clone(), patterns }
    }
}

} // verus!
