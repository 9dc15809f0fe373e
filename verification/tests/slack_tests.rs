use cthulu::slack::{
    convert_bold, convert_links, find_closing_double_star, flush_section, markdown_to_blocks,
    markdown_to_slack, parse_md_link, push_section_block, Block, MAX_HEADER_LEN, MAX_SECTION_LEN,
};

#[test]
fn test_headers_to_bold() {
    assert_eq!(markdown_to_slack("# Big Header"), "*Big Header*");
    assert_eq!(markdown_to_slack("## Section"), "*Section*");
    assert_eq!(markdown_to_slack("### Sub"), "*Sub*");
}

#[test]
fn test_bullets() {
    assert_eq!(markdown_to_slack("- item one"), "• item one");
    assert_eq!(markdown_to_slack("* item two"), "• item two");
}

#[test]
fn test_bold() {
    assert_eq!(
        markdown_to_slack("this is **bold** text"),
        "this is *bold* text"
    );
}

#[test]
fn test_links() {
    assert_eq!(
        markdown_to_slack("check [this](https://example.com) out"),
        "check <https://example.com|this> out"
    );
}

#[test]
fn test_combined() {
    let md = "# Daily Brief\n\n- **BTC** up 5%\n- Check [CoinDesk](https://coindesk.com)\n\nThis is a paragraph.";
    let expected = "*Daily Brief*\n\n• *BTC* up 5%\n• Check <https://coindesk.com|CoinDesk>\n\nThis is a paragraph.";
    assert_eq!(markdown_to_slack(md), expected);
}

#[test]
fn test_passthrough() {
    assert_eq!(markdown_to_slack("plain text"), "plain text");
}

#[test]
fn test_markdown_to_blocks_header() {
    let blocks = markdown_to_blocks("# My Header\nSome text");
    assert_eq!(blocks.len(), 2);
    match &blocks[0] {
        Block::Header { text } => {
            assert_eq!(text.kind, "plain_text");
            assert_eq!(text.text, "My Header");
        }
        _ => panic!("expected Header block"),
    }
    match &blocks[1] {
        Block::Section { text } => {
            assert_eq!(text.kind, "mrkdwn");
            assert!(text.text.contains("Some text"));
        }
        _ => panic!("expected Section block"),
    }
}

#[test]
fn test_markdown_to_blocks_divider() {
    let blocks = markdown_to_blocks("Above\n---\nBelow");
    assert!(blocks.len() >= 3);
    assert!(matches!(blocks[1], Block::Divider));
}

#[test]
fn test_markdown_to_blocks_bullets_converted() {
    let blocks = markdown_to_blocks("- item one\n- item two");
    match &blocks[0] {
        Block::Section { text } => {
            assert!(text.text.contains('•'));
        }
        _ => panic!("expected Section"),
    }
}

#[test]
fn test_markdown_to_blocks_links_and_bold() {
    let blocks = markdown_to_blocks("Check **this** [link](https://example.com)");
    match &blocks[0] {
        Block::Section { text } => {
            assert!(text.text.contains("*this*"));
            assert!(text.text.contains("<https://example.com|link>"));
        }
        _ => panic!("expected Section"),
    }
}

#[test]
fn test_markdown_to_blocks_long_header_truncated() {
    let long_header = format!("# {}", "A".repeat(200));
    let blocks = markdown_to_blocks(&long_header);
    match &blocks[0] {
        Block::Header { text } => {
            assert!(text.text.len() <= MAX_HEADER_LEN);
        }
        _ => panic!("expected Header"),
    }
}

fn section_text(block: &Block) -> &str {
    match block {
        Block::Section { text } => {
            assert_eq!(text.kind, "mrkdwn");
            &text.text
        }
        _ => panic!("expected Section"),
    }
}

#[test]
fn long_header_is_cut_to_exactly_the_limit() {
    let long_header = format!("# {}", "A".repeat(200));
    let blocks = markdown_to_blocks(&long_header);
    match &blocks[0] {
        Block::Header { text } => assert_eq!(text.text, "A".repeat(150)),
        _ => panic!("expected Header"),
    }
}

#[test]
fn header_is_cut_at_a_character_boundary() {
    // 149 one-byte characters, then a two-byte one that would end at byte 151.
    let long_header = format!("# {}é tail", "A".repeat(149));
    let blocks = markdown_to_blocks(&long_header);
    match &blocks[0] {
        Block::Header { text } => assert_eq!(text.text, "A".repeat(149)),
        _ => panic!("expected Header"),
    }
    // 148 one-byte characters and the two-byte one fit exactly.
    let fits = format!("# {}é tail", "A".repeat(148));
    let blocks = markdown_to_blocks(&fits);
    match &blocks[0] {
        Block::Header { text } => assert_eq!(text.text, format!("{}é", "A".repeat(148))),
        _ => panic!("expected Header"),
    }
}

#[test]
fn blocks_of_a_whole_document() {
    let blocks = markdown_to_blocks("intro\n## Title\n- a\n* b\n***\nend **x**\n");
    assert_eq!(blocks.len(), 5);
    assert_eq!(section_text(&blocks[0]), "intro");
    match &blocks[1] {
        Block::Header { text } => {
            assert_eq!(text.kind, "plain_text");
            assert_eq!(text.text, "Title");
        }
        _ => panic!("expected Header"),
    }
    assert_eq!(section_text(&blocks[2]), "• a\n• b");
    assert!(matches!(blocks[3], Block::Divider));
    assert_eq!(section_text(&blocks[4]), "end *x*");
}

#[test]
fn blank_lines_alone_make_no_section() {
    assert!(markdown_to_blocks("").is_empty());
    assert!(markdown_to_blocks("\n  \n\n").is_empty());
    let blocks = markdown_to_blocks("___\n\n---");
    assert_eq!(blocks.len(), 2);
    assert!(matches!(blocks[0], Block::Divider));
    assert!(matches!(blocks[1], Block::Divider));
}

#[test]
fn long_text_is_cut_into_sections_at_line_ends() {
    let line = "x".repeat(1000);
    let text = format!("{line}\n{line}\n{line}\n{line}");
    let blocks = markdown_to_blocks(&text);
    assert_eq!(blocks.len(), 2);
    assert_eq!(section_text(&blocks[0]), format!("{line}\n{line}"));
    assert_eq!(section_text(&blocks[1]), format!("{line}\n{line}"));
    for block in &blocks {
        assert!(section_text(block).len() <= MAX_SECTION_LEN);
    }
}

#[test]
fn a_single_overlong_line_stays_whole() {
    let line = "y".repeat(MAX_SECTION_LEN + 10);
    let blocks = markdown_to_blocks(&format!("short\n{line}"));
    assert_eq!(blocks.len(), 2);
    assert_eq!(section_text(&blocks[0]), "short");
    assert_eq!(section_text(&blocks[1]), line);
}

#[test]
fn flush_section_clears_the_lines() {
    let mut blocks = Vec::new();
    let mut lines = vec!["one **b**".to_string(), "[t](u)".to_string()];
    flush_section(&mut blocks, &mut lines);
    assert!(lines.is_empty());
    assert_eq!(blocks.len(), 1);
    assert_eq!(section_text(&blocks[0]), "one *b*\n<u|t>");

    flush_section(&mut blocks, &mut lines);
    assert_eq!(blocks.len(), 1);
}

#[test]
fn push_section_block_trims_and_skips_blank() {
    let mut blocks = Vec::new();
    push_section_block(&mut blocks, "  padded \n");
    push_section_block(&mut blocks, " \t\n");
    assert_eq!(blocks.len(), 1);
    assert_eq!(section_text(&blocks[0]), "padded");
}

#[test]
fn header_needs_a_space_and_at_most_three_marks() {
    assert_eq!(markdown_to_slack("#NoSpace"), "#NoSpace");
    assert_eq!(markdown_to_slack("#### Four"), "#### Four");
    assert_eq!(markdown_to_slack("  ##   Padded  "), "*Padded*");
}

#[test]
fn bullet_lines_are_trimmed_other_lines_are_not() {
    assert_eq!(markdown_to_slack("   - indented"), "• indented");
    assert_eq!(markdown_to_slack("  keep  "), "  keep  ");
    assert_eq!(markdown_to_slack("-nospace"), "-nospace");
}

#[test]
fn line_endings() {
    assert_eq!(markdown_to_slack("a\r\nb\n"), "a\nb");
    assert_eq!(markdown_to_slack("a\n\nb"), "a\n\nb");
    assert_eq!(markdown_to_slack(""), "");
}

#[test]
fn unclosed_bold_and_broken_links_stay() {
    assert_eq!(convert_bold("a **b"), "a **b");
    assert_eq!(convert_bold("****"), "**");
    assert_eq!(convert_bold("**a** and **b**"), "*a* and *b*");
    assert_eq!(convert_bold("***"), "***");
    assert_eq!(convert_links("[t] (u)"), "[t] (u)");
    assert_eq!(convert_links("[t](u"), "[t](u");
    assert_eq!(convert_links("[t"), "[t");
    assert_eq!(convert_links("[a](b)[c](d)"), "<b|a><d|c>");
    assert_eq!(convert_links("[](x)"), "<x|>");
}

#[test]
fn parse_md_link_gives_text_url_and_end() {
    let chars: Vec<char> = "see [docs](http://d) now".chars().collect();
    assert_eq!(
        parse_md_link(&chars, 4),
        Some(("docs".to_string(), "http://d".to_string(), 20))
    );
    // The place given is taken for the opening bracket, whatever it holds.
    assert_eq!(
        parse_md_link(&chars, 0),
        Some(("ee [docs".to_string(), "http://d".to_string(), 20))
    );
    assert_eq!(parse_md_link(&chars, 20), None);
    assert_eq!(parse_md_link(&chars, 100), None);
    let broken: Vec<char> = "[docs]x(http://d)".chars().collect();
    assert_eq!(parse_md_link(&broken, 0), None);
}

#[test]
fn find_closing_double_star_finds_the_first_pair() {
    let chars: Vec<char> = "ab**cd**".chars().collect();
    assert_eq!(find_closing_double_star(&chars, 0), Some(2));
    assert_eq!(find_closing_double_star(&chars, 3), Some(6));
    assert_eq!(find_closing_double_star(&chars, 7), None);
    assert_eq!(find_closing_double_star(&chars, 50), None);
    assert_eq!(find_closing_double_star(&[], 0), None);
}
