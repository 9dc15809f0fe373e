//! The library against the standard library: on many generated inputs,
//! the functions on text must agree with what `str` does.

use std::collections::{HashMap, VecDeque};

use cthulu::config::parse_port;
use cthulu::github::locate_repo;
use cthulu::graph::{build_adjacency, topo_sort, Edge, Node, NodeType, Position};
use cthulu::levels::compute_levels;
use cthulu::models::RepoConfig;
use cthulu::output::ContextMap;
use cthulu::prompt::render_prompt;
use cthulu::requests::strip_trailing_slash;
use cthulu::text::trim_chars;
use cthulu::slack::{
    convert_bold, convert_links, markdown_to_blocks, markdown_to_slack, split_thread, Block,
};

/// A small generator of numbers: the same numbers on every run.
struct Numbers(u64);

impl Numbers {
    fn next(&mut self) -> u64 {
        self.0 = self
            .0
            .wrapping_mul(6364136223846793005)
            .wrapping_add(1442695040888963407);
        self.0 >> 33
    }

    fn below(&mut self, n: usize) -> usize {
        (self.next() % n as u64) as usize
    }

    fn text(&mut self, alphabet: &[&str], max_len: usize) -> String {
        let len = self.below(max_len + 1);
        (0..len).map(|_| alphabet[self.below(alphabet.len())]).collect()
    }
}

const MARKDOWN: &[&str] = &[
    "#", "#", "*", "*", "-", "_", " ", " ", "\n", "\n", "\r", "\t", "[", "]", "(", ")", "a", "b",
    "é", "\u{a0}", "\u{2003}", "x",
];

fn bold_by_std(input: &str) -> String {
    let mut out = String::new();
    let mut rest = input;
    loop {
        let Some(open) = rest.find("**") else {
            out.push_str(rest);
            return out;
        };
        let after = &rest[open + 2..];
        match after.find("**") {
            Some(close) => {
                out.push_str(&rest[..open]);
                out.push('*');
                out.push_str(&after[..close]);
                out.push('*');
                rest = &after[close + 2..];
            }
            None => {
                // No closing pair: one star stays, the search goes on behind it.
                out.push_str(&rest[..open + 1]);
                rest = &rest[open + 1..];
            }
        }
    }
}

fn links_by_std(input: &str) -> String {
    let mut out = String::new();
    let mut rest = input;
    loop {
        let Some(open) = rest.find('[') else {
            out.push_str(rest);
            return out;
        };
        out.push_str(&rest[..open]);
        let after = &rest[open + 1..];
        let parsed = after.find(']').and_then(|close| {
            let text = &after[..close];
            let tail = after[close + 1..].strip_prefix('(')?;
            let end = tail.find(')')?;
            Some((text, &tail[..end], &tail[end + 1..]))
        });
        match parsed {
            Some((text, url, behind)) => {
                out.push('<');
                out.push_str(url);
                out.push('|');
                out.push_str(text);
                out.push('>');
                rest = behind;
            }
            None => {
                out.push('[');
                rest = after;
            }
        }
    }
}

fn header_by_std(trimmed: &str) -> Option<&str> {
    trimmed
        .strip_prefix("### ")
        .or_else(|| trimmed.strip_prefix("## "))
        .or_else(|| trimmed.strip_prefix("# "))
}

fn bulleted_by_std(line: &str) -> String {
    let trimmed = line.trim();
    if let Some(rest) = trimmed.strip_prefix("- ") {
        format!("• {rest}")
    } else if let Some(rest) = trimmed.strip_prefix("* ") {
        format!("• {rest}")
    } else {
        line.to_string()
    }
}

fn slack_by_std(input: &str) -> String {
    let lines: Vec<String> = input
        .lines()
        .map(|line| match header_by_std(line.trim()) {
            Some(rest) => format!("*{}*", rest.trim()),
            None => bulleted_by_std(line),
        })
        .collect();
    bold_by_std(&links_by_std(&lines.join("\n")))
}

fn flush_by_std(blocks: &mut Vec<(String, String)>, lines: &mut Vec<String>) {
    if lines.is_empty() {
        return;
    }
    let formatted = bold_by_std(&links_by_std(&lines.join("\n")));
    lines.clear();
    let mut chunk = String::new();
    for line in formatted.lines() {
        if !chunk.is_empty() && chunk.len() + 1 + line.len() > 3000 {
            if !chunk.trim().is_empty() {
                blocks.push(("section".to_string(), chunk.trim().to_string()));
            }
            chunk.clear();
        }
        if !chunk.is_empty() {
            chunk.push('\n');
        }
        chunk.push_str(line);
    }
    if !chunk.trim().is_empty() {
        blocks.push(("section".to_string(), chunk.trim().to_string()));
    }
}

fn blocks_by_std(text: &str) -> Vec<(String, String)> {
    let mut blocks = Vec::new();
    let mut pending: Vec<String> = Vec::new();
    for line in text.lines() {
        let trimmed = line.trim();
        if trimmed == "---" || trimmed == "***" || trimmed == "___" {
            flush_by_std(&mut blocks, &mut pending);
            blocks.push(("divider".to_string(), String::new()));
        } else if let Some(rest) = header_by_std(trimmed) {
            flush_by_std(&mut blocks, &mut pending);
            let mut h = rest.trim().to_string();
            if h.len() > 150 {
                let mut end = 150;
                while !h.is_char_boundary(end) {
                    end -= 1;
                }
                h.truncate(end);
            }
            blocks.push(("header".to_string(), h));
        } else {
            pending.push(bulleted_by_std(line));
        }
    }
    flush_by_std(&mut blocks, &mut pending);
    blocks
}

fn shown(blocks: &[Block]) -> Vec<(String, String)> {
    blocks
        .iter()
        .map(|b| match b {
            Block::Header { text } => {
                assert_eq!(text.kind, "plain_text");
                ("header".to_string(), text.text.clone())
            }
            Block::Section { text } => {
                assert_eq!(text.kind, "mrkdwn");
                ("section".to_string(), text.text.clone())
            }
            Block::Divider => ("divider".to_string(), String::new()),
        })
        .collect()
}

#[test]
fn bold_and_links_agree_with_std() {
    let mut numbers = Numbers(1);
    for _ in 0..3000 {
        let text = numbers.text(&["*", "*", "*", "[", "]", "(", ")", "a", "é", " "], 14);
        assert_eq!(convert_bold(&text), bold_by_std(&text), "{text:?}");
        assert_eq!(convert_links(&text), links_by_std(&text), "{text:?}");
    }
}

#[test]
fn markdown_to_slack_agrees_with_std() {
    let mut numbers = Numbers(2);
    for _ in 0..3000 {
        let text = numbers.text(MARKDOWN, 24);
        assert_eq!(markdown_to_slack(&text), slack_by_std(&text), "{text:?}");
    }
}

#[test]
fn markdown_to_blocks_agrees_with_std() {
    let mut numbers = Numbers(3);
    for _ in 0..3000 {
        let text = numbers.text(MARKDOWN, 24);
        assert_eq!(shown(&markdown_to_blocks(&text)), blocks_by_std(&text), "{text:?}");
    }
}

#[test]
fn long_markdown_is_chunked_as_std_says() {
    let mut numbers = Numbers(4);
    for _ in 0..20 {
        let mut text = String::new();
        for _ in 0..40 {
            let word = ["ab", "é", "**b**", "[t](u)", "- ", "# ", "---", " "][numbers.below(8)];
            let count = numbers.below(200);
            text.push_str(&word.repeat(count));
            text.push('\n');
        }
        assert_eq!(shown(&markdown_to_blocks(&text)), blocks_by_std(&text));
        assert_eq!(markdown_to_slack(&text), slack_by_std(&text));
    }
}

fn parse_env_by_std(value: &str) -> Vec<(String, String, String)> {
    value
        .split(',')
        .filter_map(|entry| {
            let entry = entry.trim();
            if entry.is_empty() {
                return None;
            }
            let colon_pos = entry.find(":/")?;
            let slug = &entry[..colon_pos];
            let path = &entry[colon_pos + 1..];
            let (owner, repo) = slug.split_once('/')?;
            Some((owner.to_string(), repo.to_string(), path.to_string()))
        })
        .collect()
}

#[test]
fn parse_env_agrees_with_std() {
    let mut numbers = Numbers(5);
    for _ in 0..3000 {
        let text = numbers.text(&[",", ":", "/", "/", "a", "b", " ", "é", "\n"], 20);
        let repos: Vec<(String, String, String)> = RepoConfig::parse_env(&text)
            .into_iter()
            .map(|r| (r.owner, r.repo, r.local_path))
            .collect();
        assert_eq!(repos, parse_env_by_std(&text), "{text:?}");
    }
}

#[test]
fn render_prompt_agrees_with_std() {
    let mut numbers = Numbers(6);
    let alphabet = ["{", "{", "}", "}", "a", "b", "{{a}}", "{{b}}", " "];
    for _ in 0..2000 {
        let template = numbers.text(&alphabet, 16);
        let mut vars = ContextMap::new();
        let mut expected = template.clone();
        for key in ["a", "b", ""] {
            if numbers.below(3) > 0 {
                let value = numbers.text(&alphabet, 4);
                vars.insert(key.to_string(), value.clone());
                expected = expected.replace(&format!("{{{{{}}}}}", key), &value);
            }
        }
        assert_eq!(render_prompt(&template, &vars), expected, "{template:?}");
    }
}

fn locate_by_std(repo_url: &str, path: &str, branch: &str) -> Option<[String; 4]> {
    let branch = if branch.is_empty() { "main".to_string() } else { branch.to_string() };
    let url = repo_url
        .trim()
        .trim_start_matches("https://")
        .trim_start_matches("http://")
        .trim_start_matches("github.com/")
        .trim_end_matches('/');
    let parts: Vec<&str> = url.splitn(5, '/').collect();
    if parts.len() < 2 {
        return None;
    }
    let url_sub_path = if parts.len() >= 5 && parts[2] == "tree" {
        parts[4].to_string()
    } else {
        String::new()
    };
    let sub_path = if !path.is_empty() {
        path.trim_matches('/').to_string()
    } else {
        url_sub_path
    };
    Some([parts[0].to_string(), parts[1].to_string(), sub_path, branch])
}

#[test]
fn locate_repo_agrees_with_std() {
    let mut numbers = Numbers(7);
    let pieces = [
        "https://", "http://", "github.com/", "/", "/", "tree", "o", "r", "main", " ", "x",
    ];
    for _ in 0..3000 {
        let url = numbers.text(&pieces, 8);
        let path = numbers.text(&["/", "a", "b"], 4);
        let branch = numbers.text(&["m"], 1);
        let got = locate_repo(&url, &path, &branch)
            .map(|l| [l.owner, l.repo, l.sub_path, l.branch]);
        assert_eq!(got, locate_by_std(&url, &path, &branch), "{url:?} {path:?}");
    }
}

#[test]
fn split_thread_and_trailing_slash_agree_with_std() {
    let mut numbers = Numbers(8);
    for _ in 0..3000 {
        let text = numbers.text(&["---THREAD---", "-", "T", " ", "\n", "a", "---"], 8);
        let parts: Vec<&str> = text.splitn(2, "---THREAD---").collect();
        let main = parts[0].trim().to_string();
        let reply = parts
            .get(1)
            .map(|s| s.trim().to_string())
            .filter(|s| !s.is_empty());
        assert_eq!(split_thread(&text), (main, reply), "{text:?}");

        let path = numbers.text(&["/", "a"], 5);
        let expected = path.strip_suffix('/').map(|p| format!("{p}?q"));
        assert_eq!(strip_trailing_slash(&path, Some("q")), expected, "{path:?}");
    }
}

#[test]
fn parse_port_agrees_with_std() {
    let mut numbers = Numbers(9);
    for _ in 0..5000 {
        let text = numbers.text(&["0", "1", "5", "6", "9", "+", "-", " ", "a"], 7);
        assert_eq!(parse_port(&text), text.parse::<u16>().ok(), "{text:?}");
    }
    for n in [0u32, 1, 9, 10, 65534, 65535, 65536, 65537, 99999, 655350] {
        let text = n.to_string();
        assert_eq!(parse_port(&text), text.parse::<u16>().ok(), "{text:?}");
    }
}

fn node(id: &str) -> Node {
    Node {
        id: id.to_string(),
        node_type: NodeType::Source,
        kind: "test".to_string(),
        config: serde_json::Value::Null,
        position: Position { x: 0, y: 0 },
        label: String::new(),
    }
}

/// Kahn's algorithm with hash maps and a queue that starts with the nodes
/// without parents, in the order of the nodes.
fn sort_with_a_queue(ids: &[String], edges: &[(String, String)]) -> Vec<String> {
    let mut children: HashMap<&str, Vec<&str>> = HashMap::new();
    let mut in_degree: HashMap<&str, usize> = HashMap::new();
    for id in ids {
        children.entry(id).or_default();
        in_degree.entry(id).or_insert(0);
    }
    for (source, target) in edges {
        if in_degree.contains_key(source.as_str()) && in_degree.contains_key(target.as_str()) {
            // Several edges between one pair are one relation.
            let list = children.get_mut(source.as_str()).unwrap();
            if !list.contains(&target.as_str()) {
                list.push(target);
                *in_degree.get_mut(target.as_str()).unwrap() += 1;
            }
        }
    }
    let mut queue: VecDeque<&str> = VecDeque::new();
    for id in ids {
        if in_degree[id.as_str()] == 0 && !queue.contains(&id.as_str()) {
            queue.push_back(id);
        }
    }
    let mut sorted = Vec::new();
    while let Some(id) = queue.pop_front() {
        sorted.push(id.to_string());
        for next in &children[id] {
            let degree = in_degree.get_mut(next).unwrap();
            *degree -= 1;
            if *degree == 0 {
                queue.push_back(next);
            }
        }
    }
    sorted
}

fn levels_with_a_map(sorted: &[String], edges: &[(String, String)]) -> Vec<Vec<String>> {
    let mut level_of: HashMap<&str, usize> = HashMap::new();
    let mut max_level = 0;
    for id in sorted {
        let level = edges
            .iter()
            .filter(|(_, target)| target == id)
            .filter_map(|(source, _)| level_of.get(source.as_str()))
            .max()
            .map(|m| m + 1)
            .unwrap_or(0);
        level_of.insert(id, level);
        max_level = max_level.max(level);
    }
    let mut levels = vec![Vec::new(); max_level + 1];
    for id in sorted {
        levels[level_of[id.as_str()]].push(id.clone());
    }
    levels
}

#[test]
fn topo_sort_and_levels_agree_with_a_queue_and_a_map() {
    let mut numbers = Numbers(10);
    let names = ["a", "b", "c", "d", "e", "f", "g"];
    let mut sorted_some = 0;
    for _ in 0..3000 {
        let count = numbers.below(names.len() + 1);
        let ids: Vec<String> = (0..count)
            .map(|i| {
                // Now and then an id is repeated.
                if numbers.below(25) == 0 {
                    names[numbers.below(i + 1)].to_string()
                } else {
                    names[i].to_string()
                }
            })
            .collect();
        let edge_count = numbers.below(12);
        let edges: Vec<(String, String)> = (0..edge_count)
            .map(|_| {
                let a = numbers.below(names.len());
                let b = numbers.below(names.len());
                // Mostly forward edges, so that many graphs have no cycle.
                if numbers.below(6) == 0 || a < b {
                    (names[a].to_string(), names[b].to_string())
                } else {
                    (names[b].to_string(), names[a].to_string())
                }
            })
            .collect();

        let nodes: Vec<Node> = ids.iter().map(|id| node(id)).collect();
        let wires: Vec<Edge> = edges
            .iter()
            .map(|(s, t)| Edge { id: String::new(), source: s.clone(), target: t.clone() })
            .collect();

        let expected = sort_with_a_queue(&ids, &edges);
        match topo_sort(&nodes, &wires) {
            Ok(sorted) => {
                assert_eq!(sorted, expected, "{ids:?} {edges:?}");
                assert_eq!(sorted.len(), ids.len());
                sorted_some += 1;

                let (children, parents) = build_adjacency(&nodes, &wires);
                let mut known: Vec<(String, String)> = Vec::new();
                for edge in &edges {
                    if ids.contains(&edge.0) && ids.contains(&edge.1) && !known.contains(edge) {
                        known.push(edge.clone());
                    }
                }
                for id in &ids {
                    let outs: Vec<String> = known
                        .iter()
                        .filter(|(s, _)| s == id)
                        .map(|(_, t)| t.clone())
                        .collect();
                    let ins: Vec<String> = known
                        .iter()
                        .filter(|(_, t)| t == id)
                        .map(|(s, _)| s.clone())
                        .collect();
                    assert_eq!(*children.get(id).unwrap(), outs);
                    assert_eq!(*parents.get(id).unwrap(), ins);
                }
                assert_eq!(
                    compute_levels(&sorted, &parents),
                    levels_with_a_map(&sorted, &known),
                    "{ids:?} {edges:?}"
                );
            }
            Err(e) => {
                assert_eq!(e.sorted, expected.len(), "{ids:?} {edges:?}");
                assert_eq!(e.total, ids.len());
                assert!(e.sorted < e.total);
            }
        }
    }
    assert!(sorted_some > 300);
}

/// The characters with the Unicode property `White_Space`.
fn is_white_space(n: u32) -> bool {
    (0x0009..=0x000D).contains(&n)
        || n == 0x0020
        || n == 0x0085
        || n == 0x00A0
        || n == 0x1680
        || (0x2000..=0x200A).contains(&n)
        || n == 0x2028
        || n == 0x2029
        || n == 0x202F
        || n == 0x205F
        || n == 0x3000
}

#[test]
fn whitespace_is_the_white_space_set_for_every_character() {
    let mut count = 0;
    for n in 0..=0x10FFFFu32 {
        let Some(c) = char::from_u32(n) else {
            continue;
        };
        assert_eq!(c.is_whitespace(), is_white_space(n), "U+{n:04X}");
        assert_eq!(trim_chars(&[c]).is_empty(), is_white_space(n), "U+{n:04X}");
        assert_eq!(trim_chars(&['a', c, 'b']), vec!['a', c, 'b']);
        if is_white_space(n) {
            count += 1;
        }
    }
    assert_eq!(count, 25);
}
