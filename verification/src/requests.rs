//! What the surface of the service decides before it acts on a request.

use crate::models::{find_repo, spec_full_name, RepoConfig};
use crate::text::{from_chars, slice_chars, to_chars};
use vstd::prelude::*;
use vstd::string::StringExecFns;

verus! {

/// Why a manual review cannot start.
#[derive(Clone, Copy, Debug, PartialEq, Eq, Structural)]
pub enum ReviewRefusal {
    /// No watched repository has the name asked for.
    UnknownRepo,
    /// There is no token to speak to GitHub with.
    MissingToken,
}

/// The place of the repository that a manual review is asked for. The
/// name is looked up first; a known repository still needs a token.
pub fn manual_review_target(repos: &[RepoConfig], repo_name: &str, token: &str) -> (r: Result<
    usize,
    ReviewRefusal,
>)
    ensures
        match r {
            Ok(i) => i < repos@.len() && spec_full_name(repos@[i as int]@) == repo_name@
                && token@.len() > 0 && forall|j: int|
                0 <= j < i ==> spec_full_name(#[trigger] repos@[j]@) != repo_name@,
            Err(ReviewRefusal::UnknownRepo) => forall|j: int|
                0 <= j < repos@.len() ==> spec_full_name(#[trigger] repos@[j]@) != repo_name@,
            Err(ReviewRefusal::MissingToken) => token@.len() == 0 && exists|j: int|
                0 <= j < repos@.len() && spec_full_name(#[trigger] repos@[j]@) == repo_name@,
        },
{
    match find_repo(repos, repo_name) {
        Some(i) => {
            if token.is_empty() {
                Err(ReviewRefusal::MissingToken)
            } else {
                Ok(i)
            }
        },
        None => Err(ReviewRefusal::UnknownRepo),
    }
}

/// Where a request for `path` is sent on to: a path that ends in a slash
/// loses that one slash and keeps its query; any other path is served as
/// it is.
pub open spec fn spec_strip_trailing_slash(path: Seq<char>, query: Option<Seq<char>>) -> Option<
    Seq<char>,
> {
    if path.len() > 0 && path.last() == '/' {
        match query {
            Some(q) => Some(path.drop_last() + "?"@ + q),
            None => Some(path.drop_last()),
        }
    } else {
        None
    }
}

/// The address to redirect a request to whose path ends in a slash.
pub fn strip_trailing_slash(path: &str, query: Option<&str>) -> (target: Option<String>)
    ensures
        match target {
            Some(t) => spec_strip_trailing_slash(
                path@,
                match query {
                    Some(q) => Some(q@),
                    None => None,
                },
            ) == Some(t@),
            None => spec_strip_trailing_slash(
                path@,
                match query {
                    Some(q) => Some(q@),
                    None => None,
                },
            ) is None,
        },
{
    let chars = to_chars(path);
    if chars.len() > 0 && chars[chars.len() - 1] == '/' {
        let stem = slice_chars(&chars, 0, chars.len() - 1);
        assert(stem@ == chars@.drop_last());
        let mut target = from_chars(&stem);
        match query {
            Some(q) => {
                target.append("?");
                target.append(q);
            },
            None => {},
        }
        Some(target)
    } else {
        None
    }
}

} // verus!
