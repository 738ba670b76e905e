//! The glob engine. Parsing and matching are done by the `globset` crate;
//! this module gives its results names and states, on trust from the crate's
//! source, how its sets and builders behave.

use globset::{GlobBuilder, GlobSet, GlobSetBuilder};
use vstd::prelude::*;

verus! {

/// `globset::GlobSet`, a compiled group of globs; its globs are [`set_globs`].
#[verifier::external_type_specification]
#[verifier::external_body]
pub struct ExGlobSet(GlobSet);

/// `globset::GlobSetBuilder`, the globs collected for a set; they are
/// [`builder_globs`].
#[verifier::external_type_specification]
#[verifier::external_body]
pub struct ExGlobSetBuilder(GlobSetBuilder);

/// What parsing `pattern` as a glob says against it: nothing when the text is
/// valid glob syntax, otherwise the text that the parser's error displays.
/// The glob is parsed by `globset::GlobBuilder::build` with separators kept
/// literal, so that `*` and `?` never match a `/`. The answer depends on the
/// text alone (and on whether the target platform treats `\` as a path
/// separator, which is fixed when the library is compiled).
pub uninterp spec fn glob_complaint(pattern: Seq<char>) -> Option<Seq<char>>;

/// What assembling a set from the globs written as `globs` says against
/// them (`globset::GlobSetBuilder::build`): nothing when the set can be
/// assembled, otherwise the text that the error displays. The engine compiles
/// within a fixed size limit, so the answer depends on the texts alone.
pub uninterp spec fn build_complaint(globs: Seq<Seq<char>>) -> Option<Seq<char>>;

/// `pattern` is valid glob syntax.
pub open spec fn glob_parses(pattern: Seq<char>) -> bool {
    glob_complaint(pattern) is None
}

/// A set can be assembled from the globs written as `globs`.
pub open spec fn set_builds(globs: Seq<Seq<char>>) -> bool {
    build_complaint(globs) is None
}

/// Whether a set reports the glob written as `pattern` as matching the path
/// `candidate` (`globset::GlobSet::matches`), the glob being parsed with
/// separators kept literal. Each glob of a set is judged on its own: the
/// answer depends on the two texts alone.
pub uninterp spec fn glob_matches(pattern: Seq<char>, candidate: Seq<char>) -> bool;

/// The texts of the globs a builder has been given, in the order given.
pub uninterp spec fn builder_globs(builder: GlobSetBuilder) -> Seq<Seq<char>>;

/// The texts of the globs a set was built from, in sequence-number order.
pub uninterp spec fn set_globs(set: GlobSet) -> Seq<Seq<char>>;

/// Some glob among `globs` matches `candidate`.
pub open spec fn matches_any(globs: Seq<Seq<char>>, candidate: Seq<char>) -> bool {
    exists|i: int| 0 <= i < globs.len() && glob_matches(#[trigger] globs[i], candidate)
}

/// Every glob among `globs` matches `candidate`.
pub open spec fn matches_every(globs: Seq<Seq<char>>, candidate: Seq<char>) -> bool {
    forall|i: int| 0 <= i < globs.len() ==> glob_matches(#[trigger] globs[i], candidate)
}

/// `hits` holds, in strictly ascending order, the position of every glob among
/// `globs` that matches `candidate`, and nothing else.
pub open spec fn is_hit_list(hits: Seq<usize>, globs: Seq<Seq<char>>, candidate: Seq<char>) -> bool {
    &&& forall|a: int, b: int| 0 <= a < b < hits.len() ==> hits[a] < hits[b]
    &&& forall|k: int|
        0 <= k < hits.len() ==> (#[trigger] hits[k]) < globs.len() && glob_matches(
            globs[hits[k] as int],
            candidate,
        )
    &&& forall|i: int|
        0 <= i < globs.len() && glob_matches(#[trigger] globs[i], candidate) ==> exists|k: int|
            0 <= k < hits.len() && #[trigger] hits[k] == i
}

/// `GlobSetBuilder::new`: a builder that has been given no glob.
pub assume_specification[ GlobSetBuilder::new ]() -> (builder: GlobSetBuilder)
    ensures
        builder_globs(builder) == Seq::<Seq<char>>::empty(),
;

/// Parses `pattern` with `GlobBuilder::build`, separators kept literal, and,
/// if it parses, hands the glob to `GlobSetBuilder::add`, which puts it behind
/// the globs already given. If it does not parse, the text of the parser's
/// error comes back and the builder is untouched.
#[verifier::external_body]
pub(crate) fn builder_add(builder: &mut GlobSetBuilder, pattern: &str) -> (added: Result<(), String>)
    ensures
        match added {
            Ok(_) => glob_complaint(pattern@) is None && builder_globs(*final(builder))
                == builder_globs(*old(builder)).push(pattern@),
            Err(text) => glob_complaint(pattern@) == Some(text@) && builder_globs(*final(builder))
                == builder_globs(*old(builder)),
        },
{
    match GlobBuilder::new(pattern).literal_separator(true).build() {
        Ok(glob) => {
            builder.add(glob);
            Ok(())
        },
        Err(error) => Err(error.to_string()),
    }
}

/// `GlobSetBuilder::build`: when it succeeds, the set holds the builder's
/// globs under their positions; when it fails, the text of its error comes
/// back. Which of the two happens is fixed by the globs. A builder with no
/// globs always succeeds.
#[verifier::external_body]
pub(crate) fn builder_build(builder: &GlobSetBuilder) -> (built: Result<GlobSet, String>)
    ensures
        match built {
            Ok(set) => build_complaint(builder_globs(*builder)) is None && set_globs(set)
                == builder_globs(*builder),
            Err(text) => build_complaint(builder_globs(*builder)) == Some(text@),
        },
        builder_globs(*builder).len() == 0 ==> built is Ok,
{
    match builder.build() {
        Ok(set) => Ok(set),
        Err(error) => Err(error.to_string()),
    }
}

/// `GlobSet::clone`: a set of the same globs.
pub assume_specification[ <GlobSet as Clone>::clone ](set: &GlobSet) -> (copy: GlobSet)
    ensures
        set_globs(copy) == set_globs(*set),
;

/// `GlobSet::is_match`: whether any glob of the set matches the path.
#[verifier::external_body]
pub(crate) fn set_is_match(set: &GlobSet, candidate: &str) -> (hit: bool)
    ensures
        hit == (exists|i: int|
            0 <= i < set_globs(*set).len() && glob_matches(
                #[trigger] set_globs(*set)[i],
                candidate@,
            )),
{
    set.is_match(candidate)
}

/// `GlobSet::matches`: the sequence number of every glob that matches the
/// path, sorted ascending and without repeats.
#[verifier::external_body]
pub(crate) fn set_matches(set: &GlobSet, candidate: &str) -> (hits: Vec<usize>)
    ensures
        forall|a: int, b: int| 0 <= a < b < hits.len() ==> hits[a] < hits[b],
        forall|k: int|
            0 <= k < hits.len() ==> (#[trigger] hits[k]) < set_globs(*set).len() && glob_matches(
                set_globs(*set)[hits[k] as int],
                candidate@,
            ),
        forall|i: int|
            0 <= i < set_globs(*set).len() && glob_matches(
                #[trigger] set_globs(*set)[i],
                candidate@,
            ) ==> exists|k: int| 0 <= k < hits.len() && #[trigger] hits[k] == i,
{
    set.matches(candidate)
}

} // verus!
