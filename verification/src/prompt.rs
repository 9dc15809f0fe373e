//! Prompts: a template with its placeholders filled in, and the prompt of
//! a pull request review.

use crate::models::{spec_full_name, PullRequest, RepoConfig};
use crate::output::{bindings, ContextMap};
use crate::strmap::{has_key, StrMap};
use crate::text::{decimal, from_chars, replace_all, replace_chars, spec_decimal, to_chars};
use vstd::prelude::*;
use vstd::string::StringExecFns;

verus! {

/// The placeholder of the variable `key`: its name in double braces.
pub open spec fn placeholder(key: Seq<char>) -> Seq<char> {
    "{{"@ + key + "}}"@
}

/// `template` after the placeholder of each variable has been replaced by
/// its value, one variable after the other in the order of `vars`.
pub open spec fn spec_render(template: Seq<char>, vars: Seq<(Seq<char>, Seq<char>)>) -> Seq<char>
    decreases vars.len(),
{
    if vars.len() == 0 {
        template
    } else {
        replace_all(
            spec_render(template, vars.drop_last()),
            placeholder(vars.last().0),
            vars.last().1,
        )
    }
}

/// Fills in a template: every `{{name}}` is replaced by the value of the
/// variable `name`. The variables are applied one after the other, in the
/// order of `vars`, each to the result of the one before.
pub fn render_prompt(template: &str, vars: &ContextMap) -> (rendered: String)
    ensures
        rendered@ == spec_render(template@, bindings(vars.pairs())),
{
    let ghost all = bindings(vars.pairs());
    let mut result = to_chars(template);
    let mut i: usize = 0;
    while i < vars.len()
        invariant
            i <= vars.pairs().len(),
            all == bindings(vars.pairs()),
            result@ == spec_render(template@, all.take(i as int)),
        decreases vars.pairs().len() - i,
    {
        proof {
            assert(all.take(i + 1).drop_last() == all.take(i as int));
            assert(all.take(i + 1).last() == all[i as int]);
        }
        let mut pattern = String::from_str("{{");
        pattern.append(vars.key_at(i).as_str());
        pattern.append("}}");
        let pat = to_chars(pattern.as_str());
        let value = to_chars(vars.value_at(i).as_str());
        result = replace_chars(&result, &pat, &value);
        i = i + 1;
    }
    assert(all.take(vars.pairs().len() as int) == all);
    from_chars(&result)
}

/// The prompt of a review: the instructions, the details of the pull
/// request, where the working copy lies, and the diff.
pub open spec fn spec_build_prompt(
    review_instructions: Seq<char>,
    pr_title: Seq<char>,
    pr_body: Seq<char>,
    pr_number: u64,
    base_ref: Seq<char>,
    head_ref: Seq<char>,
    local_path: Seq<char>,
    diff: Seq<char>,
    repo_full_name: Seq<char>,
    head_sha: Seq<char>,
) -> Seq<char> {
    review_instructions + "\n\n---\n\n## PR Details\n\n- **Repo**: "@ + repo_full_name
        + "\n- **PR #"@ + spec_decimal(pr_number as nat) + "**: "@ + pr_title
        + "\n- **Description**: "@ + pr_body + "\n- **Base branch**: "@ + base_ref
        + "\n- **Head branch**: "@ + head_ref + "\n- **Head SHA**: "@ + head_sha
        + "\n\nYou are in the repo at `"@ + local_path
        + "`. Navigate the codebase to understand context around the changed files. Look at related files, imports, tests, and call sites.\n\nWhen posting your review, use these exact values:\n- Repo: `"@
        + repo_full_name + "`\n- PR number: `"@ + spec_decimal(pr_number as nat)
        + "`\n- Head SHA: `"@ + head_sha + "`\n\n## Diff\n\n```diff\n"@ + diff
        + "\n```\n\nReview the code, then post your review to GitHub using `gh` as described in the instructions above."@
}

/// Builds the prompt of a review.
pub fn build_prompt(
    review_instructions: &str,
    pr_title: &str,
    pr_body: &str,
    pr_number: u64,
    base_ref: &str,
    head_ref: &str,
    local_path: &str,
    diff: &str,
    repo_full_name: &str,
    head_sha: &str,
) -> (prompt: String)
    ensures
        prompt@ == spec_build_prompt(
            review_instructions@,
            pr_title@,
            pr_body@,
            pr_number,
            base_ref@,
            head_ref@,
            local_path@,
            diff@,
            repo_full_name@,
            head_sha@,
        ),
{
    let number = decimal(pr_number);
    let mut s = String::from_str(review_instructions);
    s.append("\n\n---\n\n## PR Details\n\n- **Repo**: ");
    s.append(repo_full_name);
    s.append("\n- **PR #");
    s.append(number.as_str());
    s.append("**: ");
    s.append(pr_title);
    s.append("\n- **Description**: ");
    s.append(pr_body);
    s.append("\n- **Base branch**: ");
    s.append(base_ref);
    s.append("\n- **Head branch**: ");
    s.append(head_ref);
    s.append("\n- **Head SHA**: ");
    s.append(head_sha);
    s.append("\n\nYou are in the repo at `");
    s.append(local_path);
    s.append(
        "`. Navigate the codebase to understand context around the changed files. Look at related files, imports, tests, and call sites.\n\nWhen posting your review, use these exact values:\n- Repo: `",
    );
    s.append(repo_full_name);
    s.append("`\n- PR number: `");
    s.append(number.as_str());
    s.append("`\n- Head SHA: `");
    s.append(head_sha);
    s.append("`\n\n## Diff\n\n```diff\n");
    s.append(diff);
    s.append(
        "\n```\n\nReview the code, then post your review to GitHub using `gh` as described in the instructions above.",
    );
    s
}

/// The comment that announces a review of the pull request `pr_number`.
pub open spec fn spec_starting_comment(pr_number: u64) -> Seq<char> {
    ":robot: **Cthulu Review Bot** is starting a deep-dive review of this PR...\n\n_Reviewing PR #"@
        + spec_decimal(pr_number as nat) + " \u{2014} this may take a few minutes._"@
}

/// The comment that announces a review of the pull request `pr_number`.
pub fn starting_comment(pr_number: u64) -> (s: String)
    ensures
        s@ == spec_starting_comment(pr_number),
{
    let mut s = String::from_str(
        ":robot: **Cthulu Review Bot** is starting a deep-dive review of this PR...\n\n_Reviewing PR #",
    );
    s.append(decimal(pr_number).as_str());
    s.append(" \u{2014} this may take a few minutes._");
    s
}

/// The variables that describe a new pull request to the prompt of its
/// review, in this order: `diff`, `pr_number`, `pr_title`, `pr_body`,
/// `base_ref`, `head_ref`, `head_sha`, `repo`, `local_path`.
pub open spec fn spec_pr_context(
    number: u64,
    title: Seq<char>,
    body: Seq<char>,
    base_ref: Seq<char>,
    head_ref: Seq<char>,
    head_sha: Seq<char>,
    repo: Seq<char>,
    local_path: Seq<char>,
    diff: Seq<char>,
) -> Seq<(Seq<char>, Seq<char>)> {
    seq![
        ("diff"@, diff),
        ("pr_number"@, spec_decimal(number as nat)),
        ("pr_title"@, title),
        ("pr_body"@, body),
        ("base_ref"@, base_ref),
        ("head_ref"@, head_ref),
        ("head_sha"@, head_sha),
        ("repo"@, repo),
        ("local_path"@, local_path),
    ]
}

/// What tells the nine names of the variables of a pull request apart.
proof fn lemma_pr_context_names()
    ensures
        "diff"@.len() == 4,
        "pr_number"@.len() == 9,
        "pr_title"@.len() == 8,
        "pr_body"@.len() == 7,
        "base_ref"@[0] == 'b',
        "head_ref"@[5] == 'r',
        "head_ref"@.len() == 8,
        "base_ref"@.len() == 8,
        "pr_title"@[0] == 'p',
        "head_ref"@[0] == 'h',
        "head_sha"@[0] == 'h',
        "head_sha"@[5] == 's',
        "head_sha"@.len() == 8,
        "repo"@.len() == 4,
        "repo"@[0] == 'r',
        "diff"@[0] == 'd',
        "local_path"@.len() == 10,
{
    reveal_strlit("diff");
    reveal_strlit("pr_number");
    reveal_strlit("pr_title");
    reveal_strlit("pr_body");
    reveal_strlit("base_ref");
    reveal_strlit("head_ref");
    reveal_strlit("head_sha");
    reveal_strlit("repo");
    reveal_strlit("local_path");
}

/// Binds a name that is not bound yet.
fn bind(context: &mut ContextMap, name: &str, value: String)
    requires
        !has_key(bindings(old(context).pairs()), name@),
    ensures
        bindings(final(context).pairs()) == bindings(old(context).pairs()).push((name@, value@)),
{
    proof {
        use_type_invariant(&*context);
        crate::output::lemma_bindings_insert(context.pairs(), name@, value);
    }
    context.insert(name.to_owned(), value);
}

/// The variables that describe a new pull request of `repo` to the prompt
/// of its review. A pull request without a description has an empty one.
pub fn pr_context(pr: &PullRequest, repo: &RepoConfig, diff: &str) -> (context: ContextMap)
    ensures
        bindings(context.pairs()) == spec_pr_context(
            pr.number,
            pr.title@,
            match pr.body {
                Some(b) => b@,
                None => Seq::empty(),
            },
            pr.base.ref_name@,
            pr.head.ref_name@,
            pr.head.sha@,
            spec_full_name(repo@),
            repo.local_path@,
            diff@,
        ),
{
    proof {
        lemma_pr_context_names();
    }
    let body = match &pr.body {
        Some(b) => b.clone(),
        None => String::new(),
    };
    let mut context: ContextMap = StrMap::new();
    assert(bindings(context.pairs()) =~= Seq::<(Seq<char>, Seq<char>)>::empty());
    bind(&mut context, "diff", diff.to_owned());
    bind(&mut context, "pr_number", decimal(pr.number));
    bind(&mut context, "pr_title", pr.title.clone());
    bind(&mut context, "pr_body", body);
    bind(&mut context, "base_ref", pr.base.ref_name.clone());
    bind(&mut context, "head_ref", pr.head.ref_name.clone());
    bind(&mut context, "head_sha", pr.head.sha.clone());
    bind(&mut context, "repo", repo.full_name());
    bind(&mut context, "local_path", repo.local_path.clone());
    assert(bindings(context.pairs()) =~= spec_pr_context(
        pr.number,
        pr.title@,
        match pr.body {
            Some(b) => b@,
            None => Seq::empty(),
        },
        pr.base.ref_name@,
        pr.head.ref_name@,
        pr.head.sha@,
        spec_full_name(repo@),
        repo.local_path@,
        diff@,
    ));
    context
}

} // verus!
