//! Object names under a collection prefix.

use crate::text::decimal;
use object_store::path::{Path, PathPart};
use vstd::prelude::*;

verus! {

/// The object path a text stands for: its segments between slashes, encoded.
pub uninterp spec fn path_from(text: Seq<char>) -> Seq<char>;

/// One path segment, encoded.
pub uninterp spec fn path_segment(name: Seq<char>) -> Seq<char>;

/// `Path::from` of the `object_store` crate, as text. Believed: the path is a
/// function of the text alone. Which characters are encoded, and how, is left
/// open.
#[verifier::external_body]
fn parse_path(text: &str) -> (path: String)
    ensures
        path@ == path_from(text@),
{
    String::from(Path::from(text))
}

/// `PathPart::from` of the `object_store` crate, as text. Believed: the segment
/// is a function of the name alone. Which characters are encoded, and how, is
/// left open.
#[verifier::external_body]
fn encode_segment(name: &str) -> (segment: String)
    ensures
        segment@ == path_segment(name@),
{
    PathPart::from(name).as_ref().to_owned()
}

/// The path of an object under a prefix.
pub open spec fn child_path(prefix: Seq<char>, name: Seq<char>) -> Seq<char> {
    if prefix.len() == 0 {
        path_from(name)
    } else {
        prefix + "/"@ + path_segment(name)
    }
}

/// Joins a collection prefix and an object name. An empty prefix, which is what
/// a local-directory store uses, yields the bare name.
pub fn child(prefix: &str, name: &str) -> (path: String)
    ensures
        path@ == child_path(prefix@, name@),
{
    if prefix.is_empty() {
        parse_path(name)
    } else {
        let mut path: String = prefix.to_owned();
        path.append("/");
        path.append(encode_segment(name).as_str());
        path
    }
}

/// The name under which segment `n` is served.
pub open spec fn segment_name(n: nat) -> Seq<char> {
    "seg"@ + decimal(n) + ".af"@
}

/// The name under which the statistics of segment `n` are served.
pub open spec fn stats_name(n: nat) -> Seq<char> {
    "seg"@ + decimal(n) + ".stats"@
}

/// An object lies in the directory of its prefix: its path is the prefix, a
/// slash, and one more component. Without a prefix the path is the name's own.
pub proof fn law_objects_lie_under_their_prefix(prefix: Seq<char>, name: Seq<char>)
    ensures
        prefix.len() == 0 ==> child_path(prefix, name) == path_from(name),
        prefix.len() > 0 ==> {
            let path = child_path(prefix, name);
            &&& path.len() == prefix.len() + 1 + path_segment(name).len()
            &&& path.take(prefix.len() as int) == prefix
            &&& path[prefix.len() as int] == '/'
            &&& path.skip(prefix.len() as int + 1) == path_segment(name)
        },
{
    reveal_strlit("/");
    if prefix.len() > 0 {
        let path = child_path(prefix, name);
        assert(path.take(prefix.len() as int) =~= prefix);
        assert(path.skip(prefix.len() as int + 1) =~= path_segment(name));
    }
}

/// A segment and its statistics are served under the number of the variable,
/// with an ending that tells the two apart.
pub proof fn law_served_names_hold_the_number(n: nat)
    ensures
        segment_name(n).len() == 3 + decimal(n).len() + 3,
        segment_name(n).subrange(3, (3 + decimal(n).len()) as int) == decimal(n),
        stats_name(n).len() == 3 + decimal(n).len() + 6,
        stats_name(n).subrange(3, (3 + decimal(n).len()) as int) == decimal(n),
        segment_name(n).take(3) == stats_name(n).take(3),
        segment_name(n).skip(3 + decimal(n).len() as int) == ".af"@,
        stats_name(n).skip(3 + decimal(n).len() as int) == ".stats"@,
{
    reveal_strlit("seg");
    reveal_strlit(".af");
    reveal_strlit(".stats");
    let (a, b) = (segment_name(n), stats_name(n));
    let end = 3 + decimal(n).len() as int;
    assert(a.subrange(3, end) =~= decimal(n));
    assert(b.subrange(3, end) =~= decimal(n));
    assert(a.take(3) =~= b.take(3));
    assert(a.skip(end) =~= ".af"@);
    assert(b.skip(end) =~= ".stats"@);
}

} // verus!
