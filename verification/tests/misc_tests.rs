use cthulu::auth::{
    access_token_in, choose_token, keychain_answer, read_full_credentials, read_oauth_token,
};
use cthulu::github::{
    comments_url, contents_url, entry_action, locate_repo, pull_url, pulls_url, EntryAction,
};
use cthulu::models::RepoConfig;
use cthulu::requests::{manual_review_target, strip_trailing_slash, ReviewRefusal};
use cthulu::slack::{
    cap_blocks, check_post_response, fallback_text, markdown_to_blocks, split_thread, Block,
    PostError, TextObject, MAX_BLOCKS_PER_MESSAGE,
};
use cthulu::text::shorten;

#[test]
fn access_token_is_read_from_credentials() {
    let raw = "{\"claudeAiOauth\":{\"accessToken\":\"tok-1\",\"expiresAt\":5}}";
    assert_eq!(access_token_in(raw), Some("tok-1".to_string()));
    assert_eq!(access_token_in("{\"claudeAiOauth\":{}}"), None);
    assert_eq!(access_token_in("{\"claudeAiOauth\":{\"accessToken\":7}}"), None);
    assert_eq!(access_token_in("[1,2]"), None);
    assert_eq!(access_token_in("not json"), None);
    assert_eq!(access_token_in(""), None);
}

#[test]
fn full_credentials_must_be_json() {
    assert_eq!(
        read_full_credentials("{\"a\":1}".to_string()),
        Some("{\"a\":1}".to_string())
    );
    assert_eq!(read_full_credentials("{oops".to_string()), None);
}

#[test]
fn keychain_answer_is_trimmed_output_of_a_success() {
    assert_eq!(keychain_answer(true, "  {}\n"), Some("{}".to_string()));
    assert_eq!(keychain_answer(true, " \n"), None);
    assert_eq!(keychain_answer(false, "{}"), None);
}

#[test]
fn keychain_token_wins_over_environment() {
    assert_eq!(
        choose_token(Some("k".to_string()), Some("e".to_string())),
        Some("k".to_string())
    );
    assert_eq!(choose_token(None, Some("e".to_string())), Some("e".to_string()));
    assert_eq!(choose_token(None, Some(String::new())), None);
    assert_eq!(choose_token(None, None), None);

    let raw = "{\"claudeAiOauth\":{\"accessToken\":\"tok\"}}";
    assert_eq!(
        read_oauth_token(Some(raw), Some("env".to_string())),
        Some("tok".to_string())
    );
    assert_eq!(
        read_oauth_token(Some("garbage"), Some("env".to_string())),
        Some("env".to_string())
    );
    assert_eq!(read_oauth_token(None, None), None);
}

#[test]
fn github_addresses() {
    assert_eq!(pulls_url("o", "r"), "https://api.github.com/repos/o/r/pulls");
    assert_eq!(pull_url("o", "r", 12), "https://api.github.com/repos/o/r/pulls/12");
    assert_eq!(
        comments_url("o", "r", 12),
        "https://api.github.com/repos/o/r/issues/12/comments"
    );
    assert_eq!(
        contents_url("o", "r", "", "main"),
        "https://api.github.com/repos/o/r/contents?ref=main"
    );
    assert_eq!(
        contents_url("o", "r", "a/b", "dev"),
        "https://api.github.com/repos/o/r/contents/a/b?ref=dev"
    );
}

#[test]
fn entries_of_a_listing() {
    assert_eq!(entry_action("file", "flow.yaml"), EntryAction::Download);
    assert_eq!(entry_action("file", "flow.yml"), EntryAction::Download);
    assert_eq!(entry_action("file", ".yml"), EntryAction::Download);
    assert_eq!(entry_action("file", "flow.json"), EntryAction::Ignore);
    assert_eq!(entry_action("file", "yaml"), EntryAction::Ignore);
    assert_eq!(entry_action("dir", "flows.yaml"), EntryAction::Descend);
    assert_eq!(entry_action("symlink", "x.yaml"), EntryAction::Ignore);
}

fn located(url: &str, path: &str, branch: &str) -> (String, String, String, String) {
    let l = locate_repo(url, path, branch).unwrap();
    (l.owner, l.repo, l.sub_path, l.branch)
}

fn four(a: &str, b: &str, c: &str, d: &str) -> (String, String, String, String) {
    (a.to_string(), b.to_string(), c.to_string(), d.to_string())
}

#[test]
fn locate_repo_reads_addresses() {
    assert_eq!(
        located("https://github.com/owner/repo", "", ""),
        four("owner", "repo", "", "main")
    );
    assert_eq!(
        located(" github.com/owner/repo/ ", "", "dev"),
        four("owner", "repo", "", "dev")
    );
    assert_eq!(
        located("https://github.com/owner/repo/tree/main/workflows/daily", "", ""),
        four("owner", "repo", "workflows/daily", "main")
    );
    assert_eq!(
        located("https://github.com/owner/repo/tree/main/workflows", "/given/", "x"),
        four("owner", "repo", "given", "x")
    );
    assert_eq!(
        located("http://github.com/owner/repo/blob/main/file", "", ""),
        four("owner", "repo", "", "main")
    );
    assert_eq!(
        located("owner/repo/tree/main", "", ""),
        four("owner", "repo", "", "main")
    );
    assert!(locate_repo("https://github.com/owner", "", "").is_none());
    assert!(locate_repo("", "", "").is_none());
}

#[test]
fn manual_review_needs_a_known_repo_and_a_token() {
    let repos = RepoConfig::parse_env("a/x:/1,b/y:/2");
    assert_eq!(manual_review_target(&repos, "b/y", "tok"), Ok(1));
    assert_eq!(
        manual_review_target(&repos, "c/z", "tok"),
        Err(ReviewRefusal::UnknownRepo)
    );
    assert_eq!(
        manual_review_target(&repos, "c/z", ""),
        Err(ReviewRefusal::UnknownRepo)
    );
    assert_eq!(
        manual_review_target(&repos, "a/x", ""),
        Err(ReviewRefusal::MissingToken)
    );
}

#[test]
fn trailing_slash_is_stripped_once() {
    assert_eq!(strip_trailing_slash("/health/", None), Some("/health".to_string()));
    assert_eq!(
        strip_trailing_slash("/a/b/", Some("x=1")),
        Some("/a/b?x=1".to_string())
    );
    assert_eq!(strip_trailing_slash("/a//", None), Some("/a/".to_string()));
    assert_eq!(strip_trailing_slash("/", None), Some(String::new()));
    assert_eq!(strip_trailing_slash("/health", Some("x=1")), None);
    assert_eq!(strip_trailing_slash("", None), None);
}

#[test]
fn thread_is_split_at_the_first_mark() {
    assert_eq!(
        split_thread(" main \n---THREAD---\n reply ---THREAD--- more "),
        ("main".to_string(), Some("reply ---THREAD--- more".to_string()))
    );
    assert_eq!(split_thread("only main"), ("only main".to_string(), None));
    assert_eq!(split_thread("main---THREAD---  \n"), ("main".to_string(), None));
    assert_eq!(split_thread("---THREAD---r"), (String::new(), Some("r".to_string())));
}

fn section(text: &str) -> Block {
    Block::Section {
        text: TextObject {
            kind: "mrkdwn",
            text: text.to_string(),
        },
    }
}

fn text_of(block: &Block) -> &str {
    match block {
        Block::Header { text } | Block::Section { text } => &text.text,
        Block::Divider => "",
    }
}

#[test]
fn blocks_are_capped_with_a_notice() {
    let blocks: Vec<Block> = (0..60).map(|i| section(&format!("b{i}"))).collect();
    let capped = cap_blocks(&blocks);
    assert_eq!(capped.len(), MAX_BLOCKS_PER_MESSAGE);
    assert_eq!(text_of(&capped[0]), "b0");
    assert_eq!(text_of(&capped[48]), "b48");
    assert_eq!(text_of(&capped[49]), "_Message truncated — too many blocks._");

    let fifty: Vec<Block> = (0..50).map(|i| section(&format!("b{i}"))).collect();
    let same = cap_blocks(&fifty);
    assert_eq!(same.len(), 50);
    assert_eq!(text_of(&same[49]), "b49");
    assert!(cap_blocks(&[]).is_empty());
}

#[test]
fn fallback_text_joins_headers_and_sections() {
    let blocks = markdown_to_blocks("# Title\nbody\n---\n## Next\nmore");
    assert_eq!(fallback_text(&blocks), "Title\nbody\nNext\nmore");
    assert_eq!(fallback_text(&[Block::Divider]), "");
    assert_eq!(fallback_text(&[]), "");
    assert_eq!(fallback_text(&[Block::Divider, section("x"), Block::Divider]), "x");
}

#[test]
fn post_response_is_checked() {
    assert_eq!(
        check_post_response(true, Some(true), None, Some("1.2".to_string())).unwrap(),
        "1.2"
    );
    assert!(matches!(
        check_post_response(true, Some(true), None, None),
        Err(PostError::MissingTimestamp)
    ));
    assert!(matches!(
        check_post_response(true, Some(false), Some("channel_not_found".to_string()), Some("1".to_string())),
        Err(PostError::Rejected { reason }) if reason == "channel_not_found"
    ));
    assert!(matches!(
        check_post_response(true, None, None, Some("1".to_string())),
        Err(PostError::Rejected { reason }) if reason == "unknown error"
    ));
    assert!(matches!(
        check_post_response(false, Some(true), None, Some("1".to_string())),
        Err(PostError::Rejected { reason }) if reason == "unknown error"
    ));
}

#[test]
fn access_token_is_the_string_under_its_path_only() {
    // A string, but not under the path.
    assert_eq!(access_token_in("\"tok\""), None);
    assert_eq!(access_token_in("{\"accessToken\":\"tok\"}"), None);
    assert_eq!(access_token_in("{\"claudeAiOauth\":\"tok\"}"), None);
    assert_eq!(
        access_token_in("{\"claudeAiOauth\":{\"other\":{\"accessToken\":\"tok\"}}}"),
        None
    );
    // Inside an array there is no path of names.
    assert_eq!(
        access_token_in("{\"claudeAiOauth\":[{\"accessToken\":\"tok\"}]}"),
        None
    );
    assert_eq!(
        access_token_in("{\"claudeAiOauth\":{\"accessToken\":[\"tok\"]}}"),
        None
    );
    // Under the path, whatever stands beside it.
    assert_eq!(
        access_token_in("{\"x\":1,\"claudeAiOauth\":{\"accessToken\":\"\",\"y\":[]}}"),
        Some(String::new())
    );
    assert_eq!(
        access_token_in(" {\"claudeAiOauth\": {\"accessToken\": \"t\\u00e9\"}} "),
        Some("té".to_string())
    );
    // An empty token of the keychain still wins over the environment.
    assert_eq!(
        read_oauth_token(
            Some("{\"claudeAiOauth\":{\"accessToken\":\"\"}}"),
            Some("env".to_string())
        ),
        Some(String::new())
    );
}

#[test]
fn a_text_within_the_limit_is_not_shortened() {
    assert_eq!(shorten("", 0), "");
    assert_eq!(shorten("abc", 3), "abc");
    assert_eq!(shorten("abc", 300), "abc");
    assert_eq!(shorten("é", 2), "é");
}

#[test]
fn a_longer_text_is_cut_at_the_limit_and_marked() {
    assert_eq!(shorten("abcd", 3), "abc...");
    assert_eq!(shorten("abcd", 0), "...");
    let long = "x".repeat(301);
    assert_eq!(shorten(&long, 300), format!("{}...", "x".repeat(300)));
    assert_eq!(shorten(&long, 301), long);
}

#[test]
fn a_cut_never_splits_a_character() {
    // Two bytes each: a limit of three leaves room for one.
    assert_eq!(shorten("éé", 3), "é...");
    assert_eq!(shorten("éé", 1), "...");
    assert_eq!(shorten("aé", 2), "a...");
    // Four bytes.
    assert_eq!(shorten("a😀b", 4), "a...");
    assert_eq!(shorten("a😀b", 5), "a😀...");
    let text = format!("{}é", "x".repeat(199));
    assert_eq!(shorten(&text, 200), format!("{}...", "x".repeat(199)));
}
