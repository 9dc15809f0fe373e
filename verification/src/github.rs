//! Addresses of the GitHub API, and where a repository address points.

use crate::text::{
    char_seqs, copy_chars, decimal, ends_with, ends_with_chars, from_chars, same_chars, spec_decimal,
    split_up_to, split_up_to_chars, str_eq, strip_all_leading, strip_all_leading_chars,
    strip_all_prefixes, strip_all_prefixes_chars, strip_all_trailing, strip_all_trailing_chars,
    to_chars, trim, trim_chars,
};
use vstd::prelude::*;
use vstd::string::StringExecFns;

verus! {

/// The address under which the API lists a repository.
pub open spec fn spec_repo_url(owner: Seq<char>, repo: Seq<char>) -> Seq<char> {
    "https://api.github.com/repos/"@ + owner + "/"@ + repo
}

/// The address under which the API lists a repository.
fn repo_url(owner: &str, repo: &str) -> (url: String)
    ensures
        url@ == spec_repo_url(owner@, repo@),
{
    let mut url = String::from_str("https://api.github.com/repos/");
    url.append(owner);
    url.append("/");
    url.append(repo);
    url
}

/// The address of the pull requests of a repository.
pub fn pulls_url(owner: &str, repo: &str) -> (url: String)
    ensures
        url@ == spec_repo_url(owner@, repo@) + "/pulls"@,
{
    let mut url = repo_url(owner, repo);
    url.append("/pulls");
    url
}

/// The address of one pull request, also of its diff.
pub fn pull_url(owner: &str, repo: &str, pr_number: u64) -> (url: String)
    ensures
        url@ == spec_repo_url(owner@, repo@) + "/pulls/"@ + spec_decimal(pr_number as nat),
{
    let mut url = repo_url(owner, repo);
    url.append("/pulls/");
    url.append(decimal(pr_number).as_str());
    url
}

/// The address of the comments of a pull request.
pub fn comments_url(owner: &str, repo: &str, pr_number: u64) -> (url: String)
    ensures
        url@ == spec_repo_url(owner@, repo@) + "/issues/"@ + spec_decimal(pr_number as nat)
            + "/comments"@,
{
    let mut url = repo_url(owner, repo);
    url.append("/issues/");
    url.append(decimal(pr_number).as_str());
    url.append("/comments");
    url
}

/// The address that lists the files under `path` of a repository at the
/// given branch; an empty path is the root.
pub fn contents_url(owner: &str, repo: &str, path: &str, branch: &str) -> (url: String)
    ensures
        url@ == if path@.len() == 0 {
            spec_repo_url(owner@, repo@) + "/contents?ref="@ + branch@
        } else {
            spec_repo_url(owner@, repo@) + "/contents/"@ + path@ + "?ref="@ + branch@
        },
{
    let mut url = repo_url(owner, repo);
    if path.is_empty() {
        url.append("/contents?ref=");
    } else {
        url.append("/contents/");
        url.append(path);
        url.append("?ref=");
    }
    url.append(branch);
    url
}

/// What to do with an entry of a file listing.
#[derive(Clone, Copy, Debug, PartialEq, Eq, Structural)]
pub enum EntryAction {
    /// A workflow file: fetch it.
    Download,
    /// A directory: list it in turn.
    Descend,
    /// Anything else: pass over it.
    Ignore,
}

/// What to do with an entry of the given type and name: a file whose name
/// ends in `.yaml` or `.yml` is fetched, a directory is listed in turn.
pub open spec fn spec_entry_action(entry_type: Seq<char>, name: Seq<char>) -> EntryAction {
    if entry_type == "file"@ && (ends_with(name, ".yaml"@) || ends_with(name, ".yml"@)) {
        EntryAction::Download
    } else if entry_type == "dir"@ {
        EntryAction::Descend
    } else {
        EntryAction::Ignore
    }
}

/// What to do with an entry of a file listing.
pub fn entry_action(entry_type: &str, name: &str) -> (action: EntryAction)
    ensures
        action == spec_entry_action(entry_type@, name@),
{
    let chars = to_chars(name);
    if str_eq(entry_type, "file") && (ends_with_chars(&chars, &to_chars(".yaml"))
        || ends_with_chars(&chars, &to_chars(".yml"))) {
        EntryAction::Download
    } else if str_eq(entry_type, "dir") {
        EntryAction::Descend
    } else {
        EntryAction::Ignore
    }
}

/// Where workflow files are looked for.
#[derive(Clone, Debug)]
pub struct RepoLocation {
    pub owner: String,
    pub repo: String,
    pub sub_path: String,
    pub branch: String,
}

/// A location, its strings as sequences of characters.
pub struct LocationModel {
    pub owner: Seq<char>,
    pub repo: Seq<char>,
    pub sub_path: Seq<char>,
    pub branch: Seq<char>,
}

impl View for RepoLocation {
    type V = LocationModel;

    open spec fn view(&self) -> LocationModel {
        LocationModel {
            owner: self.owner@,
            repo: self.repo@,
            sub_path: self.sub_path@,
            branch: self.branch@,
        }
    }
}

/// The address without what stands around `owner/repo/...`: it is
/// trimmed, loses `https://`, `http://` and `github.com/` at its start, in
/// this order, and the slashes at its end.
pub open spec fn bare_address(repo_url: Seq<char>) -> Seq<char> {
    strip_all_trailing(
        strip_all_prefixes(
            strip_all_prefixes(strip_all_prefixes(trim(repo_url), "https://"@), "http://"@),
            "github.com/"@,
        ),
        '/',
    )
}

/// The location that a repository address, a path and a branch name:
/// the address must give at least `owner/repo`. An empty branch is
/// `main`. The path, without the slashes around it, says where to look;
/// without a path, an address of the form `owner/repo/tree/branch/path`
/// says it; else the root is meant.
pub open spec fn spec_locate(repo_url: Seq<char>, path: Seq<char>, branch: Seq<char>) -> Option<
    LocationModel,
> {
    let parts = split_up_to(bare_address(repo_url), 5, '/');
    if parts.len() < 2 {
        None
    } else {
        Some(
            LocationModel {
                owner: parts[0],
                repo: parts[1],
                sub_path: if path.len() > 0 {
                    strip_all_trailing(strip_all_leading(path, '/'), '/')
                } else if parts.len() >= 5 && parts[2] == "tree"@ {
                    parts[4]
                } else {
                    Seq::empty()
                },
                branch: if branch.len() == 0 {
                    "main"@
                } else {
                    branch
                },
            },
        )
    }
}

/// Reads where a repository address points.
pub fn locate_repo(repo_url: &str, path: &str, branch: &str) -> (r: Option<RepoLocation>)
    ensures
        match r {
            Some(location) => spec_locate(repo_url@, path@, branch@) == Some(location@),
            None => spec_locate(repo_url@, path@, branch@) is None,
        },
{
    let trimmed = trim_chars(&to_chars(repo_url));
    let a = strip_all_prefixes_chars(&trimmed, &to_chars("https://"));
    let b = strip_all_prefixes_chars(&a, &to_chars("http://"));
    let c = strip_all_prefixes_chars(&b, &to_chars("github.com/"));
    let bare = strip_all_trailing_chars(&c, '/');
    let parts = split_up_to_chars(&bare, 5, '/');
    if parts.len() < 2 {
        return None;
    }
    let ghost all = char_seqs(parts@);
    assert(all[0] == parts@[0]@ && all[1] == parts@[1]@);
    let path_chars = to_chars(path);
    let sub_path = if path_chars.len() > 0 {
        strip_all_trailing_chars(&strip_all_leading_chars(&path_chars, '/'), '/')
    } else if parts.len() >= 5 && same_chars(&parts[2], &to_chars("tree")) {
        assert(all[2] == parts@[2]@ && all[4] == parts@[4]@);
        copy_chars(&parts[4])
    } else {
        proof {
            if parts@.len() >= 5 {
                assert(all[2] == parts@[2]@);
            }
        }
        Vec::new()
    };
    let branch = if branch.is_empty() {
        String::from_str("main")
    } else {
        branch.to_owned()
    };
    Some(
        RepoLocation {
            owner: from_chars(&parts[0]),
            repo: from_chars(&parts[1]),
            sub_path: from_chars(&sub_path),
            branch,
        },
    )
}

} // verus!
