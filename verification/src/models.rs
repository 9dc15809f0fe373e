//! Repositories and pull requests as the review trigger sees them.

use crate::text::{
    char_seqs, find_char, find_from, find_pair, find_pair_chars, from_chars, slice_chars,
    split_chars, split_on, to_chars, trim, trim_chars,
};
use vstd::prelude::*;
use vstd::string::StringExecFns;

verus! {

/// A repository to watch, and where its working copy lies.
#[derive(Clone, Debug)]
pub struct RepoConfig {
    pub owner: String,
    pub repo: String,
    pub local_path: String,
}

/// One end of a pull request: a commit and the branch it is on.
#[derive(Clone, Debug)]
pub struct PrRef {
    pub sha: String,
    pub ref_name: String,
}

/// A pull request.
#[derive(Clone, Debug)]
pub struct PullRequest {
    pub number: u64,
    pub title: String,
    pub body: Option<String>,
    pub head: PrRef,
    pub base: PrRef,
}

/// A request to run the assistant on a prompt.
#[derive(Clone, Debug)]
pub struct ClaudeRequest {
    pub prompt: String,
    pub working_dir: Option<String>,
}

/// A repository, its strings as sequences of characters.
pub struct RepoModel {
    pub owner: Seq<char>,
    pub repo: Seq<char>,
    pub local_path: Seq<char>,
}

impl View for RepoConfig {
    type V = RepoModel;

    open spec fn view(&self) -> RepoModel {
        RepoModel { owner: self.owner@, repo: self.repo@, local_path: self.local_path@ }
    }
}

/// The models of the repositories of `v`.
pub open spec fn repo_models(v: Seq<RepoConfig>) -> Seq<RepoModel> {
    Seq::new(v.len(), |i: int| v[i]@)
}

/// The repository that one entry of a repository list names. The entry is
/// trimmed; it reads `owner/repo:/path`, the colon being the first that a
/// slash follows, and the slash between owner and repository the first
/// before that colon. Anything else names no repository.
pub open spec fn parse_entry(entry: Seq<char>) -> Option<RepoModel> {
    let e = trim(entry);
    match find_pair(e, 0, ':', '/') {
        Some(colon) => {
            let slug = e.take(colon);
            let slash = find_from(slug, 0, '/');
            if e.len() == 0 || slash < 0 || slash >= slug.len() {
                None
            } else {
                Some(
                    RepoModel {
                        owner: slug.take(slash),
                        repo: slug.skip(slash + 1),
                        local_path: e.skip(colon + 1),
                    },
                )
            }
        },
        None => None,
    }
}

/// The repositories that the entries name, in order.
pub open spec fn parse_entries(entries: Seq<Seq<char>>) -> Seq<RepoModel>
    decreases entries.len(),
{
    if entries.len() == 0 {
        Seq::empty()
    } else {
        match parse_entry(entries.last()) {
            Some(r) => parse_entries(entries.drop_last()).push(r),
            None => parse_entries(entries.drop_last()),
        }
    }
}

/// The repositories of a list `owner/repo:/path,owner/repo:/path`.
pub open spec fn spec_parse_env(value: Seq<char>) -> Seq<RepoModel> {
    parse_entries(split_on(value, ','))
}

/// `owner/repo`.
pub open spec fn spec_full_name(r: RepoModel) -> Seq<char> {
    r.owner + "/"@ + r.repo
}

impl RepoConfig {
    /// The repository that one entry names.
    pub fn parse_one(entry: &[char]) -> (r: Option<RepoConfig>)
        ensures
            match r {
                Some(repo) => parse_entry(entry@) == Some(repo@),
                None => parse_entry(entry@) is None,
            },
    {
        let e = trim_chars(entry);
        if e.len() == 0 {
            return None;
        }
        match find_pair_chars(&e, 0, ':', '/') {
            Some(colon) => {
                let slug = slice_chars(&e, 0, colon);
                assert(slug@ == e@.take(colon as int));
                let slash = find_char(&slug, 0, '/');
                if slash >= slug.len() {
                    return None;
                }
                let owner = slice_chars(&slug, 0, slash);
                let repo = slice_chars(&slug, slash + 1, slug.len());
                let path = slice_chars(&e, colon + 1, e.len());
                assert(owner@ == slug@.take(slash as int));
                assert(repo@ == slug@.skip(slash + 1));
                assert(path@ == e@.skip(colon + 1));
                Some(
                    RepoConfig {
                        owner: from_chars(&owner),
                        repo: from_chars(&repo),
                        local_path: from_chars(&path),
                    },
                )
            },
            None => None,
        }
    }

    /// Reads a repository list of the form
    /// `owner/repo:/absolute/path,owner/repo2:/other/path`. Entries are
    /// parted by commas and trimmed; an entry that is empty or does not read
    /// `owner/repo:/path` is passed over.
    pub fn parse_env(value: &str) -> (repos: Vec<RepoConfig>)
        ensures
            repo_models(repos@) == spec_parse_env(value@),
    {
        let chars = to_chars(value);
        let entries = split_chars(&chars, ',');
        let ghost all = char_seqs(entries@);
        let mut repos: Vec<RepoConfig> = Vec::new();
        let mut i: usize = 0;
        assert(repo_models(repos@) =~= parse_entries(all.take(0)));
        while i < entries.len()
            invariant
                i <= entries@.len(),
                all == char_seqs(entries@),
                repo_models(repos@) == parse_entries(all.take(i as int)),
            decreases entries@.len() - i,
        {
            proof {
                assert(all.take(i + 1).drop_last() == all.take(i as int));
                assert(all.take(i + 1).last() == entries@[i as int]@);
            }
            match RepoConfig::parse_one(&entries[i]) {
                Some(repo) => {
                    let ghost before = repo_models(repos@);
                    repos.push(repo);
                    assert(repo_models(repos@) =~= before.push(repo@));
                },
                None => {},
            }
            i = i + 1;
        }
        assert(all.take(entries@.len() as int) == all);
        repos
    }

    /// The name of the repository with its owner: `owner/repo`.
    pub fn full_name(&self) -> (name: String)
        ensures
            name@ == spec_full_name(self@),
    {
        let mut name = self.owner.clone();
        name.append("/");
        name.append(self.repo.as_str());
        name
    }
}

impl ClaudeRequest {
    /// The directory to run in: the one asked for, else the current one.
    pub fn working_dir_or_current(&self) -> (dir: String)
        ensures
            dir@ == match self.working_dir {
                Some(d) => d@,
                None => "."@,
            },
    {
        match &self.working_dir {
            Some(d) => d.clone(),
            None => String::from_str("."),
        }
    }
}

/// The place of the first repository of `repos` with the full name `name`.
pub fn find_repo(repos: &[RepoConfig], name: &str) -> (r: Option<usize>)
    ensures
        match r {
            Some(i) => i < repos@.len() && spec_full_name(repos@[i as int]@) == name@ && forall|
                j: int,
            |
                0 <= j < i ==> spec_full_name(#[trigger] repos@[j]@) != name@,
            None => forall|j: int|
                0 <= j < repos@.len() ==> spec_full_name(#[trigger] repos@[j]@) != name@,
        },
{
    let mut i: usize = 0;
    while i < repos.len()
        invariant
            i <= repos@.len(),
            forall|j: int| 0 <= j < i ==> spec_full_name(#[trigger] repos@[j]@) != name@,
        decreases repos@.len() - i,
    {
        if crate::text::str_eq(repos[i].full_name().as_str(), name) {
            return Some(i);
        }
        i = i + 1;
    }
    None
}

} // verus!
