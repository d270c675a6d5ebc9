//! Patterns that paths are held against.
use globset::{GlobBuilder, GlobSet, GlobSetBuilder};
use vstd::prelude::*;

verus! {

#[verifier::external_type_specification]
#[verifier::external_body]
pub struct ExGlobSet(globset::GlobSet);

#[verifier::external_type_specification]
#[verifier::external_body]
pub struct ExGlobSetBuilder(globset::GlobSetBuilder);

/// A pattern with the options under which it is read: whether `*` and `?` stop
/// at separators, whether case is ignored, whether a backslash escapes.
pub type GlobText = (Seq<char>, bool, bool, bool);

/// The message with which a pattern is refused, if it is.
pub uninterp spec fn glob_refusal(
    pattern: Seq<char>,
    literal_separator: bool,
    case_insensitive: bool,
    backslash_escape: bool,
) -> Option<Seq<char>>;

/// Whether a path matches a pattern that is not refused.
pub uninterp spec fn glob_matches(
    pattern: Seq<char>,
    literal_separator: bool,
    case_insensitive: bool,
    backslash_escape: bool,
    path: Seq<char>,
) -> bool;

/// The patterns that a set under construction holds, the first added first.
pub uninterp spec fn builder_globs(builder: GlobSetBuilder) -> Seq<(Seq<char>, bool, bool, bool)>;

/// The patterns of a set, the first added first.
pub uninterp spec fn set_globs(set: GlobSet) -> Seq<(Seq<char>, bool, bool, bool)>;

/// Whether a path matches one of some patterns.
pub open spec fn covered(globs: Seq<GlobText>, path: Seq<char>) -> bool {
    exists|i: int|
        0 <= i < globs.len() && #[trigger] glob_matches(
            globs[i].0,
            globs[i].1,
            globs[i].2,
            globs[i].3,
            path,
        )
}

/// `std::path::is_separator`: whether a character separates the names in a path
/// on the system that the program runs on. Nothing is claimed of the answer,
/// which differs from one system to another.
pub assume_specification[ std::path::is_separator ](c: char) -> (separator: bool);

/// `GlobSet::clone`: a set with the same patterns.
pub assume_specification[ <globset::GlobSet as std::clone::Clone>::clone ](
    set: &globset::GlobSet,
) -> (copy: globset::GlobSet)
    ensures
        set_globs(copy) == set_globs(*set),
;

/// `GlobSetBuilder::new`: a set under construction, without patterns.
#[verifier::external_body]
pub(crate) fn new_builder() -> (builder: GlobSetBuilder)
    ensures
        builder_globs(builder) == Seq::<GlobText>::empty(),
{
    GlobSetBuilder::new()
}

/// `GlobBuilder::build`, and `GlobSetBuilder::add` where it succeeds: reads a
/// pattern under the given options and adds it to a set under construction. A
/// pattern that is refused leaves the set as it was. The pattern holds no
/// backslash, which would be read otherwise on another system.
#[verifier::external_body]
pub(crate) fn add_glob(
    builder: &mut GlobSetBuilder,
    pattern: &str,
    literal_separator: bool,
    case_insensitive: bool,
    backslash_escape: bool,
) -> (result: Result<(), String>)
    requires
        !pattern@.contains('\\'),
    ensures
        match result {
            Ok(()) => {
                &&& glob_refusal(pattern@, literal_separator, case_insensitive, backslash_escape) is None
                &&& builder_globs(*final(builder)) == builder_globs(*old(builder)).push(
                    (pattern@, literal_separator, case_insensitive, backslash_escape),
                )
            },
            Err(message) => {
                &&& glob_refusal(pattern@, literal_separator, case_insensitive, backslash_escape)
                    == Some(message@)
                &&& *final(builder) == *old(builder)
            },
        },
{
    let glob = GlobBuilder::new(pattern)
        .literal_separator(literal_separator)
        .case_insensitive(case_insensitive)
        .backslash_escape(backslash_escape)
        .build();
    match glob {
        Ok(glob) => {
            builder.add(glob);
            Ok(())
        },
        Err(error) => Err(error.to_string()),
    }
}

/// `GlobSetBuilder::build`: the set of the patterns that were added. It fails,
/// with a message, where what the patterns compile to is too large or too
/// deeply nested, and the size depends on the machine: when it fails is not
/// stated but for a set without patterns, with which it does not.
#[verifier::external_body]
pub(crate) fn build_set(builder: &GlobSetBuilder) -> (result: Result<GlobSet, String>)
    ensures
        result matches Ok(set) ==> set_globs(set) == builder_globs(*builder),
        builder_globs(*builder).len() == 0 ==> result is Ok,
{
    builder.build().map_err(|error| error.to_string())
}

/// Whether a set of some patterns was asked for, and building it failed with a
/// message.
pub closed spec fn build_failed(patterns: Seq<GlobText>, message: Seq<char>) -> bool {
    exists|builder: GlobSetBuilder, text: String|
        {
            &&& #[trigger] call_ensures(build_set, (&builder,), Err::<GlobSet, String>(text))
            &&& builder_globs(builder) == patterns
            &&& text@ == message
        }
}

/// The set of the patterns that were added. Where there is none, building it is what
/// failed.
pub(crate) fn finish_set(builder: &GlobSetBuilder) -> (result: Result<GlobSet, String>)
    ensures
        match result {
            Ok(set) => set_globs(set) == builder_globs(*builder),
            Err(message) => build_failed(builder_globs(*builder), message@),
        },
        builder_globs(*builder).len() == 0 ==> result is Ok,
{
    let result = build_set(builder);
    proof {
        if result is Err {
            assert(call_ensures(
                build_set,
                (builder,),
                Err::<GlobSet, String>(result->Err_0),
            ));
        }
    }
    result
}

/// `GlobSet::empty`: the set without patterns.
#[verifier::external_body]
pub(crate) fn empty_set() -> (set: GlobSet)
    ensures
        set_globs(set) == Seq::<GlobText>::empty(),
{
    GlobSet::empty()
}

/// `GlobSet::is_match`: whether a path matches one of the patterns of a set. The
/// path holds no backslash, which would be read otherwise on another system.
#[verifier::external_body]
pub(crate) fn set_matches(set: &GlobSet, path: &str) -> (result: bool)
    requires
        !path@.contains('\\'),
    ensures
        result == (exists|i: int|
            0 <= i < set_globs(*set).len() && #[trigger] glob_matches(
                set_globs(*set)[i].0,
                set_globs(*set)[i].1,
                set_globs(*set)[i].2,
                set_globs(*set)[i].3,
                path@,
            )),
{
    set.is_match(path)
}

} // verus!
