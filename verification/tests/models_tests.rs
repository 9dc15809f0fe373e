use cthulu::config::{
    default_rss_limit, default_since_days, parse_port, require_channel, slack_route, Config,
    Route, SinkConfig, SinkError, DEFAULT_PORT,
};
use cthulu::models::{find_repo, ClaudeRequest, PrRef, PullRequest, RepoConfig};
use cthulu::output::ContextMap;
use cthulu::prompt::{build_prompt, pr_context, render_prompt, starting_comment};
use cthulu::sandbox::{build_provider, ProviderChoice, SandboxError, SandboxRuntimeConfig};

#[test]
fn test_render_prompt() {
    let template = "Review PR #{{pr_number}} in {{repo}}\n\n```diff\n{{diff}}\n```";
    let mut vars = ContextMap::new();
    vars.insert("pr_number".to_string(), "42".to_string());
    vars.insert("repo".to_string(), "owner/repo".to_string());
    vars.insert("diff".to_string(), "+added line".to_string());

    let rendered = render_prompt(template, &vars);
    assert!(rendered.contains("PR #42"));
    assert!(rendered.contains("owner/repo"));
    assert!(rendered.contains("+added line"));
}

#[test]
fn test_config_invalid_port_uses_default() {
    let config = Config::from_values(Some("not-a-number"), None, None);
    assert_eq!(config.port, 8081);
}

#[test]
fn test_config_empty_sentry_dsn_is_none() {
    let config = Config::from_values(None, Some(String::new()), None);
    assert!(config.sentry_dsn.is_none());
}

#[test]
fn render_prompt_exact_and_in_order() {
    let mut vars = ContextMap::new();
    vars.insert("a".to_string(), "{{b}}".to_string());
    vars.insert("b".to_string(), "x".to_string());
    assert_eq!(render_prompt("{{a}}-{{b}}-{{c}}", &vars), "x-x-{{c}}");

    let mut vars = ContextMap::new();
    vars.insert("b".to_string(), "x".to_string());
    vars.insert("a".to_string(), "{{b}}".to_string());
    assert_eq!(render_prompt("{{a}}-{{b}}", &vars), "{{b}}-x");

    assert_eq!(render_prompt("plain", &ContextMap::new()), "plain");
    let mut vars = ContextMap::new();
    vars.insert("k".to_string(), "v".to_string());
    assert_eq!(render_prompt("{{k}}{{k}} {k} {{ k }}", &vars), "vv {k} {{ k }}");
}

#[test]
fn config_from_values() {
    let config = Config::from_values(
        Some("3000"),
        Some("https://dsn".to_string()),
        Some("prod".to_string()),
    );
    assert_eq!(config.port, 3000);
    assert_eq!(config.sentry_dsn.as_deref(), Some("https://dsn"));
    assert_eq!(config.environment, "prod");

    let config = Config::from_values(None, None, None);
    assert_eq!(config.port, DEFAULT_PORT);
    assert!(config.sentry_dsn.is_none());
    assert_eq!(config.environment, "local");
}

#[test]
fn parse_port_accepts_what_a_u16_parse_accepts() {
    for text in [
        "0", "8081", "65535", "65536", "99999999999", "+80", "+", "", "-1", " 80", "80 ", "08",
        "8o", "٣",
    ] {
        assert_eq!(parse_port(text), text.parse::<u16>().ok(), "{text:?}");
    }
    assert_eq!(parse_port("65535"), Some(65535));
    assert_eq!(parse_port("65536"), None);
    assert_eq!(parse_port("+80"), Some(80));
}

#[test]
fn defaults_of_sources() {
    assert_eq!(default_rss_limit(), 10);
    assert_eq!(default_since_days(), 7);
}

#[test]
fn parse_env_reads_entries() {
    let repos = RepoConfig::parse_env("acme/api:/srv/api, acme/web:/srv/web ,,bad,no/path");
    assert_eq!(repos.len(), 2);
    assert_eq!(repos[0].owner, "acme");
    assert_eq!(repos[0].repo, "api");
    assert_eq!(repos[0].local_path, "/srv/api");
    assert_eq!(repos[1].full_name(), "acme/web");
    assert_eq!(repos[1].local_path, "/srv/web");
}

#[test]
fn parse_env_edge_cases() {
    assert!(RepoConfig::parse_env("").is_empty());
    assert!(RepoConfig::parse_env("noslash:/p").is_empty());
    assert!(RepoConfig::parse_env("a/b:relative").is_empty());
    let repos = RepoConfig::parse_env("a/b/c:/p:/q");
    assert_eq!(repos.len(), 1);
    assert_eq!(repos[0].owner, "a");
    assert_eq!(repos[0].repo, "b/c");
    assert_eq!(repos[0].local_path, "/p:/q");
    let repos = RepoConfig::parse_env("/r:/p");
    assert_eq!(repos.len(), 1);
    assert_eq!(repos[0].owner, "");
    assert_eq!(repos[0].repo, "r");
}

#[test]
fn find_repo_by_full_name() {
    let repos = RepoConfig::parse_env("a/x:/1,b/y:/2,a/x:/3");
    assert_eq!(find_repo(&repos, "b/y"), Some(1));
    assert_eq!(find_repo(&repos, "a/x"), Some(0));
    assert_eq!(find_repo(&repos, "c/z"), None);
}

#[test]
fn claude_request_working_dir() {
    let request = ClaudeRequest {
        prompt: "p".to_string(),
        working_dir: None,
    };
    assert_eq!(request.working_dir_or_current(), ".");
    let request = ClaudeRequest {
        prompt: "p".to_string(),
        working_dir: Some("/w".to_string()),
    };
    assert_eq!(request.working_dir_or_current(), "/w");
}

fn sample_pr() -> PullRequest {
    PullRequest {
        number: 42,
        title: "Add thing".to_string(),
        body: None,
        head: PrRef {
            sha: "abc123".to_string(),
            ref_name: "feature".to_string(),
        },
        base: PrRef {
            sha: "def456".to_string(),
            ref_name: "main".to_string(),
        },
    }
}

#[test]
fn pr_context_binds_nine_names() {
    let repo = RepoConfig {
        owner: "acme".to_string(),
        repo: "api".to_string(),
        local_path: "/srv/api".to_string(),
    };
    let context = pr_context(&sample_pr(), &repo, "+line");
    assert_eq!(context.len(), 9);
    assert_eq!(context.get("diff").unwrap(), "+line");
    assert_eq!(context.get("pr_number").unwrap(), "42");
    assert_eq!(context.get("pr_title").unwrap(), "Add thing");
    assert_eq!(context.get("pr_body").unwrap(), "");
    assert_eq!(context.get("base_ref").unwrap(), "main");
    assert_eq!(context.get("head_ref").unwrap(), "feature");
    assert_eq!(context.get("head_sha").unwrap(), "abc123");
    assert_eq!(context.get("repo").unwrap(), "acme/api");
    assert_eq!(context.get("local_path").unwrap(), "/srv/api");
    assert_eq!(
        render_prompt("#{{pr_number}} {{repo}}@{{head_sha}}", &context),
        "#42 acme/api@abc123"
    );
}

#[test]
fn build_prompt_exact() {
    let prompt = build_prompt(
        "INSTR", "Title", "Body", 7, "main", "feat", "/srv/x", "+d", "o/r", "sha1",
    );
    let expected = "INSTR\n\n---\n\n## PR Details\n\n- **Repo**: o/r\n- **PR #7**: Title\n- **Description**: Body\n- **Base branch**: main\n- **Head branch**: feat\n- **Head SHA**: sha1\n\nYou are in the repo at `/srv/x`. Navigate the codebase to understand context around the changed files. Look at related files, imports, tests, and call sites.\n\nWhen posting your review, use these exact values:\n- Repo: `o/r`\n- PR number: `7`\n- Head SHA: `sha1`\n\n## Diff\n\n```diff\n+d\n```\n\nReview the code, then post your review to GitHub using `gh` as described in the instructions above.";
    assert_eq!(prompt, expected);
}

#[test]
fn starting_comment_names_the_pull_request() {
    assert_eq!(
        starting_comment(1234),
        ":robot: **Cthulu Review Bot** is starting a deep-dive review of this PR...\n\n_Reviewing PR #1234 — this may take a few minutes._"
    );
    assert!(starting_comment(0).contains("PR #0 "));
    assert!(starting_comment(u64::MAX).contains("PR #18446744073709551615 "));
}

#[test]
fn slack_route_prefers_the_bot_token() {
    let both = SinkConfig::Slack {
        webhook_url_env: Some("HOOK".to_string()),
        bot_token_env: Some("TOKEN".to_string()),
        channel: None,
    };
    assert!(matches!(slack_route(&both), Ok(Route::Bot { token_env }) if token_env == "TOKEN"));
    assert_eq!(require_channel(&both), Err(SinkError::MissingChannel));
    assert_eq!(
        SinkError::MissingChannel.message(),
        "slack bot_token_env requires a channel"
    );

    let hook = SinkConfig::Slack {
        webhook_url_env: Some("HOOK".to_string()),
        bot_token_env: None,
        channel: Some("#c".to_string()),
    };
    assert!(matches!(slack_route(&hook), Ok(Route::Webhook { url_env }) if url_env == "HOOK"));
    assert_eq!(require_channel(&hook), Ok("#c".to_string()));

    let none = SinkConfig::Slack {
        webhook_url_env: None,
        bot_token_env: None,
        channel: None,
    };
    assert!(matches!(slack_route(&none), Err(SinkError::NoSlackTarget)));
    assert_eq!(
        SinkError::NoSlackTarget.message(),
        "slack sink requires either webhook_url_env or bot_token_env"
    );

    let notion = SinkConfig::Notion {
        token_env: "T".to_string(),
        database_id: "D".to_string(),
    };
    assert!(matches!(slack_route(&notion), Err(SinkError::Unsupported)));
}

#[test]
fn build_provider_chooses_by_backend() {
    assert!(matches!(
        build_provider(SandboxRuntimeConfig::Dangerous),
        Ok(ProviderChoice::DangerousHost)
    ));
    assert!(matches!(
        build_provider(SandboxRuntimeConfig::Firecracker { state_dir: "/var/fc".to_string() }),
        Ok(ProviderChoice::Firecracker { state_dir }) if state_dir == "/var/fc"
    ));
    assert!(matches!(
        build_provider(SandboxRuntimeConfig::FlySprite),
        Err(SandboxError::Unsupported("fly sprite backend not yet implemented"))
    ));
}
