//! Markdown as Slack wants it: as one `mrkdwn` text, or as Block Kit
//! blocks.

use crate::text::{
    char_seqs, char_width, copy_chars, find_char, find_from, find_sub, find_sub_chars, from_chars, join,
    join_lines, lemma_join_push, lemma_utf8_len_take, lines, newline, push_char, push_chars,
    same_chars, slice_chars, split_lines, string_seqs, strip_prefix, strip_prefix_chars, to_chars,
    trim, trim_chars, utf8_len, utf8_len_up_to,
};
use vstd::string::StringExecFns;
use vstd::prelude::*;

verus! {

/// The most bytes that the text of a header block may take.
pub const MAX_HEADER_LEN: usize = 150;

/// The most bytes that the text of a section block should take.
pub const MAX_SECTION_LEN: usize = 3000;

/// The most blocks that one message may hold.
pub const MAX_BLOCKS_PER_MESSAGE: usize = 50;

/// A text of a block. `kind` is `plain_text` or `mrkdwn`.
#[derive(Clone, Debug)]
pub struct TextObject {
    pub kind: &'static str,
    pub text: String,
}

/// One Block Kit block.
#[derive(Clone, Debug)]
pub enum Block {
    Header { text: TextObject },
    Section { text: TextObject },
    Divider,
}

// ---------------------------------------------------------------------------
// The model
// ---------------------------------------------------------------------------

/// A block, its texts as sequences of characters.
pub enum BlockModel {
    Header { kind: Seq<char>, text: Seq<char> },
    Section { kind: Seq<char>, text: Seq<char> },
    Divider,
}

impl View for Block {
    type V = BlockModel;

    open spec fn view(&self) -> BlockModel {
        match *self {
            Block::Header { text } => BlockModel::Header { kind: text.kind@, text: text.text@ },
            Block::Section { text } => BlockModel::Section { kind: text.kind@, text: text.text@ },
            Block::Divider => BlockModel::Divider,
        }
    }
}

/// The models of the blocks of `v`.
pub open spec fn block_models(v: Seq<Block>) -> Seq<BlockModel> {
    Seq::new(v.len(), |i: int| v[i]@)
}

/// A header block with the plain text `text`.
pub open spec fn header_block(text: Seq<char>) -> BlockModel {
    BlockModel::Header { kind: "plain_text"@, text }
}

/// A section block with the mrkdwn text `text`.
pub open spec fn section_block(text: Seq<char>) -> BlockModel {
    BlockModel::Section { kind: "mrkdwn"@, text }
}

/// The first place at or after `from` where two stars stand side by side.
pub open spec fn closing_stars(s: Seq<char>, from: int) -> Option<int>
    decreases s.len() - from,
{
    if from < 0 || from + 1 >= s.len() {
        None
    } else if s[from] == '*' && s[from + 1] == '*' {
        Some(from)
    } else {
        closing_stars(s, from + 1)
    }
}

/// `s` from place `i` on, with every `**text**` turned into `*text*`.
/// Two stars without a closing pair behind them stay as they are.
pub open spec fn bold_from(s: Seq<char>, i: int) -> Seq<char>
    decreases s.len() - i,
{
    if i < 0 || i >= s.len() {
        Seq::empty()
    } else if i + 1 < s.len() && s[i] == '*' && s[i + 1] == '*' {
        match closing_stars(s, i + 2) {
            Some(end) => if i + 2 <= end && end + 2 <= s.len() {
                "*"@ + s.subrange(i + 2, end) + "*"@ + bold_from(s, end + 2)
            } else {
                seq![s[i]] + bold_from(s, i + 1)
            },
            None => seq![s[i]] + bold_from(s, i + 1),
        }
    } else {
        seq![s[i]] + bold_from(s, i + 1)
    }
}

/// `s` with every `**text**` turned into `*text*`.
pub open spec fn spec_convert_bold(s: Seq<char>) -> Seq<char> {
    bold_from(s, 0)
}

/// The link that begins at place `start`, which holds `[`: its text, its
/// address, and the place behind its `)`. The text runs to the first `]`,
/// which a `(` must follow at once; the address runs to the first `)`.
pub open spec fn parse_link(s: Seq<char>, start: int) -> Option<(Seq<char>, Seq<char>, int)> {
    let close = find_from(s, start + 1, ']');
    let paren = find_from(s, close + 2, ')');
    if start < 0 || close >= s.len() {
        None
    } else if close + 1 >= s.len() || s[close + 1] != '(' {
        None
    } else if paren >= s.len() {
        None
    } else {
        Some((s.subrange(start + 1, close), s.subrange(close + 2, paren), paren + 1))
    }
}

/// `s` from place `i` on, with every `[text](url)` turned into
/// `<url|text>`.
pub open spec fn links_from(s: Seq<char>, i: int) -> Seq<char>
    decreases s.len() - i,
{
    if i < 0 || i >= s.len() {
        Seq::empty()
    } else if s[i] == '[' {
        match parse_link(s, i) {
            Some((text, url, end)) => if i < end <= s.len() {
                "<"@ + url + "|"@ + text + ">"@ + links_from(s, end)
            } else {
                seq![s[i]] + links_from(s, i + 1)
            },
            None => seq![s[i]] + links_from(s, i + 1),
        }
    } else {
        seq![s[i]] + links_from(s, i + 1)
    }
}

/// `s` with every `[text](url)` turned into `<url|text>`.
pub open spec fn spec_convert_links(s: Seq<char>) -> Seq<char> {
    links_from(s, 0)
}

/// What follows the header mark of a trimmed line: `### `, `## ` or `# `.
pub open spec fn header_rest(t: Seq<char>) -> Option<Seq<char>> {
    if strip_prefix(t, "### "@) is Some {
        strip_prefix(t, "### "@)
    } else if strip_prefix(t, "## "@) is Some {
        strip_prefix(t, "## "@)
    } else {
        strip_prefix(t, "# "@)
    }
}

/// What follows the bullet mark of a trimmed line: `- ` or `* `.
pub open spec fn bullet_rest(t: Seq<char>) -> Option<Seq<char>> {
    if strip_prefix(t, "- "@) is Some {
        strip_prefix(t, "- "@)
    } else {
        strip_prefix(t, "* "@)
    }
}

/// A bullet line with a round bullet in place of its mark; any other line
/// as it is, untrimmed.
pub open spec fn bulleted(line: Seq<char>) -> Seq<char> {
    match bullet_rest(trim(line)) {
        Some(rest) => "\u{2022} "@ + rest,
        None => line,
    }
}

/// One line as mrkdwn: a header as its trimmed text between stars, else
/// the line with its bullet replaced.
pub open spec fn slack_line(line: Seq<char>) -> Seq<char> {
    match header_rest(trim(line)) {
        Some(rest) => "*"@ + trim(rest) + "*"@,
        None => bulleted(line),
    }
}

/// Each line as mrkdwn.
pub open spec fn slack_lines(ls: Seq<Seq<char>>) -> Seq<Seq<char>> {
    Seq::new(ls.len(), |i: int| slack_line(ls[i]))
}

/// Markdown as one mrkdwn text: headers become bold lines, bullet marks
/// become round bullets, then links and bold spans are rewritten over the
/// whole text.
pub open spec fn spec_markdown_to_slack(s: Seq<char>) -> Seq<char> {
    spec_convert_bold(spec_convert_links(join(slack_lines(lines(s)), newline())))
}

/// The longest prefix of `h` that takes at most `MAX_HEADER_LEN` bytes.
pub open spec fn truncate_header(h: Seq<char>) -> Seq<char>
    decreases h.len(),
{
    if h.len() == 0 || utf8_len(h) <= MAX_HEADER_LEN {
        h
    } else {
        truncate_header(h.drop_last())
    }
}

/// A trimmed line that is a horizontal rule.
pub open spec fn is_rule(t: Seq<char>) -> bool {
    t == "---"@ || t == "***"@ || t == "___"@
}

/// The section block for `chunk`: its trimmed text, or no block where that
/// is empty.
pub open spec fn section_of(chunk: Seq<char>) -> Seq<BlockModel> {
    if trim(chunk).len() == 0 {
        Seq::empty()
    } else {
        seq![section_block(trim(chunk))]
    }
}

/// Blocks made so far, and the text gathered for the next one.
pub struct Chunking {
    pub blocks: Seq<BlockModel>,
    pub chunk: Seq<char>,
}

/// Adds one line to the chunk. Where the chunk would grow past
/// `MAX_SECTION_LEN` bytes, it becomes a section first and the line starts
/// a new chunk.
pub open spec fn chunk_step(c: Chunking, line: Seq<char>) -> Chunking {
    let full = c.chunk.len() > 0 && utf8_len(c.chunk) + 1 + utf8_len(line) > MAX_SECTION_LEN;
    let blocks = if full {
        c.blocks + section_of(c.chunk)
    } else {
        c.blocks
    };
    let kept = if full {
        Seq::empty()
    } else {
        c.chunk
    };
    Chunking {
        blocks,
        chunk: if kept.len() > 0 {
            kept + newline() + line
        } else {
            line
        },
    }
}

/// Adds the lines `ls`, first to last.
pub open spec fn chunk_all(c: Chunking, ls: Seq<Seq<char>>) -> Chunking
    decreases ls.len(),
{
    if ls.len() == 0 {
        c
    } else {
        chunk_step(chunk_all(c, ls.drop_last()), ls.last())
    }
}

/// `blocks` followed by the sections for the formatted text, which is cut
/// at line ends into chunks of at most `MAX_SECTION_LEN` bytes, as far as
/// its lines allow.
pub open spec fn with_sections(blocks: Seq<BlockModel>, formatted: Seq<char>) -> Seq<BlockModel> {
    let c = chunk_all(Chunking { blocks, chunk: Seq::empty() }, lines(formatted));
    if c.chunk.len() > 0 {
        c.blocks + section_of(c.chunk)
    } else {
        c.blocks
    }
}

/// `blocks` followed by the sections for the gathered lines: they are
/// joined, links and bold spans are rewritten, and the text is cut into
/// sections.
pub open spec fn spec_flush(blocks: Seq<BlockModel>, pending: Seq<Seq<char>>) -> Seq<BlockModel> {
    if pending.len() == 0 {
        blocks
    } else {
        with_sections(blocks, spec_convert_bold(spec_convert_links(join(pending, newline()))))
    }
}

/// Blocks made so far, and the lines gathered for the next section.
pub struct Gathering {
    pub blocks: Seq<BlockModel>,
    pub pending: Seq<Seq<char>>,
}

/// Takes in one line of markdown: a rule ends the section and adds a
/// divider; a header ends the section and adds a header block; any other
/// line joins the lines of the section.
pub open spec fn gather_step(g: Gathering, line: Seq<char>) -> Gathering {
    let t = trim(line);
    if is_rule(t) {
        Gathering {
            blocks: spec_flush(g.blocks, g.pending).push(BlockModel::Divider),
            pending: Seq::empty(),
        }
    } else {
        match header_rest(t) {
            Some(rest) => Gathering {
                blocks: spec_flush(g.blocks, g.pending).push(
                    header_block(truncate_header(trim(rest))),
                ),
                pending: Seq::empty(),
            },
            None => Gathering { blocks: g.blocks, pending: g.pending.push(bulleted(line)) },
        }
    }
}

/// Takes in the lines `ls`, first to last.
pub open spec fn gather_all(ls: Seq<Seq<char>>) -> Gathering
    decreases ls.len(),
{
    if ls.len() == 0 {
        Gathering { blocks: Seq::empty(), pending: Seq::empty() }
    } else {
        gather_step(gather_all(ls.drop_last()), ls.last())
    }
}

/// Markdown as Block Kit blocks.
pub open spec fn spec_markdown_to_blocks(s: Seq<char>) -> Seq<BlockModel> {
    let g = gather_all(lines(s));
    spec_flush(g.blocks, g.pending)
}

// ---------------------------------------------------------------------------
// Bold spans and links
// ---------------------------------------------------------------------------

/// The first place at or after `start` where two stars stand side by side.
pub fn find_closing_double_star(chars: &[char], start: usize) -> (r: Option<usize>)
    ensures
        match r {
            Some(i) => closing_stars(chars@, start as int) == Some(i as int) && start <= i && i + 1
                < chars@.len(),
            None => closing_stars(chars@, start as int) is None,
        },
{
    let mut i: usize = start;
    while i < chars.len() && i + 1 < chars.len()
        invariant
            start <= i,
            closing_stars(chars@, i as int) == closing_stars(chars@, start as int),
        decreases chars@.len() - i,
    {
        if chars[i] == '*' && chars[i + 1] == '*' {
            return Some(i);
        }
        i = i + 1;
    }
    None
}

/// `input` with every `**text**` turned into `*text*`.
pub fn convert_bold_chars(chars: &[char]) -> (out: Vec<char>)
    ensures
        out@ == spec_convert_bold(chars@),
{
    let mut out: Vec<char> = Vec::new();
    let mut i: usize = 0;
    let star = to_chars("*");
    while i < chars.len()
        invariant
            i <= chars@.len(),
            star@ == "*"@,
            spec_convert_bold(chars@) == out@ + bold_from(chars@, i as int),
        decreases chars@.len() - i,
    {
        let mut done = false;
        if i + 1 < chars.len() && chars[i] == '*' && chars[i + 1] == '*' {
            match find_closing_double_star(chars, i + 2) {
                Some(end) => {
                    let ghost before = out@;
                    push_chars(&mut out, &star);
                    let inner = slice_chars(chars, i + 2, end);
                    push_chars(&mut out, &inner);
                    push_chars(&mut out, &star);
                    assert(out@ =~= before + ("*"@ + chars@.subrange(i + 2, end as int) + "*"@));
                    assert(spec_convert_bold(chars@) =~= out@ + bold_from(chars@, end + 2));
                    i = end + 2;
                    done = true;
                },
                None => {},
            }
        }
        if !done {
            let ghost before = out@;
            out.push(chars[i]);
            assert(out@ =~= before + seq![chars@[i as int]]);
            assert(spec_convert_bold(chars@) =~= out@ + bold_from(chars@, i + 1));
            i = i + 1;
        }
    }
    assert(bold_from(chars@, chars@.len() as int) =~= Seq::<char>::empty());
    assert(out@ =~= spec_convert_bold(chars@));
    out
}

/// `input` with every `**text**` turned into `*text*`. Two stars without
/// a closing pair behind them stay as they are.
pub fn convert_bold(input: &str) -> (out: String)
    ensures
        out@ == spec_convert_bold(input@),
{
    let chars = to_chars(input);
    let out = convert_bold_chars(&chars);
    from_chars(&out)
}

/// The link that begins at place `start`: its text, its address, and the
/// place behind it.
pub fn parse_link_chars(chars: &[char], start: usize) -> (r: Option<(Vec<char>, Vec<char>, usize)>)
    ensures
        match r {
            Some((text, url, end)) => parse_link(chars@, start as int) == Some(
                (text@, url@, end as int),
            ) && start < end <= chars@.len(),
            None => parse_link(chars@, start as int) is None,
        },
{
    if start >= chars.len() {
        return None;
    }
    let close = find_char(chars, start + 1, ']');
    if close >= chars.len() {
        return None;
    }
    if close + 1 >= chars.len() || chars[close + 1] != '(' {
        return None;
    }
    let paren = find_char(chars, close + 2, ')');
    if paren >= chars.len() {
        return None;
    }
    let text = slice_chars(chars, start + 1, close);
    let url = slice_chars(chars, close + 2, paren);
    Some((text, url, paren + 1))
}

/// Reads the markdown link `[text](url)` that begins at place `start`,
/// which should hold the `[`. Gives the text, the address and the place
/// behind the `)`, or nothing where no link stands there.
pub fn parse_md_link(chars: &[char], start: usize) -> (r: Option<(String, String, usize)>)
    ensures
        match r {
            Some((text, url, end)) => parse_link(chars@, start as int) == Some(
                (text@, url@, end as int),
            ),
            None => parse_link(chars@, start as int) is None,
        },
{
    match parse_link_chars(chars, start) {
        Some((text, url, end)) => Some((from_chars(&text), from_chars(&url), end)),
        None => None,
    }
}

/// `chars` with every `[text](url)` turned into `<url|text>`.
pub fn convert_links_chars(chars: &[char]) -> (out: Vec<char>)
    ensures
        out@ == spec_convert_links(chars@),
{
    let mut out: Vec<char> = Vec::new();
    let mut i: usize = 0;
    let open = to_chars("<");
    let bar = to_chars("|");
    let shut = to_chars(">");
    while i < chars.len()
        invariant
            i <= chars@.len(),
            open@ == "<"@,
            bar@ == "|"@,
            shut@ == ">"@,
            spec_convert_links(chars@) == out@ + links_from(chars@, i as int),
        decreases chars@.len() - i,
    {
        let mut done = false;
        if chars[i] == '[' {
            match parse_link_chars(chars, i) {
                Some((text, url, end)) => {
                    let ghost before = out@;
                    push_chars(&mut out, &open);
                    push_chars(&mut out, &url);
                    push_chars(&mut out, &bar);
                    push_chars(&mut out, &text);
                    push_chars(&mut out, &shut);
                    assert(out@ =~= before + ("<"@ + url@ + "|"@ + text@ + ">"@));
                    assert(spec_convert_links(chars@) =~= out@ + links_from(chars@, end as int));
                    i = end;
                    done = true;
                },
                None => {},
            }
        }
        if !done {
            let ghost before = out@;
            out.push(chars[i]);
            assert(out@ =~= before + seq![chars@[i as int]]);
            assert(spec_convert_links(chars@) =~= out@ + links_from(chars@, i + 1));
            i = i + 1;
        }
    }
    assert(links_from(chars@, chars@.len() as int) =~= Seq::<char>::empty());
    assert(out@ =~= spec_convert_links(chars@));
    out
}

/// `input` with every markdown link `[text](url)` turned into the Slack
/// link `<url|text>`. A `[` that begins no link stays as it is.
pub fn convert_links(input: &str) -> (out: String)
    ensures
        out@ == spec_convert_links(input@),
{
    let chars = to_chars(input);
    let out = convert_links_chars(&chars);
    from_chars(&out)
}

// ---------------------------------------------------------------------------
// Lines
// ---------------------------------------------------------------------------

/// What follows the header mark of a trimmed line.
pub fn header_rest_chars(t: &[char]) -> (r: Option<Vec<char>>)
    ensures
        match r {
            Some(rest) => header_rest(t@) == Some(rest@),
            None => header_rest(t@) is None,
        },
{
    match strip_prefix_chars(t, &to_chars("### ")) {
        Some(rest) => Some(rest),
        None => match strip_prefix_chars(t, &to_chars("## ")) {
            Some(rest) => Some(rest),
            None => strip_prefix_chars(t, &to_chars("# ")),
        },
    }
}

/// A bullet line with a round bullet in place of its mark; any other line
/// as it is.
pub fn bulleted_chars(line: &[char]) -> (r: Vec<char>)
    ensures
        r@ == bulleted(line@),
{
    let t = trim_chars(line);
    let rest = match strip_prefix_chars(&t, &to_chars("- ")) {
        Some(rest) => Some(rest),
        None => strip_prefix_chars(&t, &to_chars("* ")),
    };
    match rest {
        Some(rest) => {
            let mut r = to_chars("\u{2022} ");
            push_chars(&mut r, &rest);
            r
        },
        None => copy_chars(line),
    }
}

/// One line as mrkdwn.
pub fn slack_line_chars(line: &[char]) -> (r: Vec<char>)
    ensures
        r@ == slack_line(line@),
{
    let t = trim_chars(line);
    match header_rest_chars(&t) {
        Some(rest) => {
            let mut r = to_chars("*");
            push_chars(&mut r, &trim_chars(&rest));
            push_chars(&mut r, &to_chars("*"));
            r
        },
        None => bulleted_chars(line),
    }
}

/// Turns markdown into Slack mrkdwn: a header line becomes its text in
/// bold, a bullet mark becomes a round bullet, `[text](url)` becomes
/// `<url|text>` and `**text**` becomes `*text*`.
pub fn markdown_to_slack(input: &str) -> (out: String)
    ensures
        out@ == spec_markdown_to_slack(input@),
{
    let chars = to_chars(input);
    let ls = split_lines(&chars);
    let mut converted: Vec<Vec<char>> = Vec::new();
    let mut i: usize = 0;
    while i < ls.len()
        invariant
            i <= ls@.len(),
            char_seqs(converted@) == slack_lines(char_seqs(ls@)).take(i as int),
        decreases ls@.len() - i,
    {
        let line = slack_line_chars(&ls[i]);
        let ghost before = char_seqs(converted@);
        converted.push(line);
        proof {
            let target = slack_lines(char_seqs(ls@));
            assert(target[i as int] == slack_line(ls@[i as int]@));
            assert(char_seqs(converted@) =~= before.push(target[i as int]));
            assert(target.take(i + 1) =~= target.take(i as int).push(target[i as int]));
        }
        i = i + 1;
    }
    assert(slack_lines(char_seqs(ls@)).take(ls@.len() as int) =~= slack_lines(char_seqs(ls@)));
    let joined = join_lines(&converted);
    let linked = convert_links_chars(&joined);
    let bold = convert_bold_chars(&linked);
    from_chars(&bold)
}

// ---------------------------------------------------------------------------
// Blocks
// ---------------------------------------------------------------------------

/// The header is cut at the place `k` up to which it fits and behind which
/// it does not.
proof fn lemma_truncate_header_at(h: Seq<char>, k: int)
    requires
        0 <= k <= h.len(),
        utf8_len(h.take(k)) <= MAX_HEADER_LEN,
        k < h.len() ==> utf8_len(h.take(k + 1)) > MAX_HEADER_LEN,
    ensures
        truncate_header(h) == h.take(k),
    decreases h.len() - k,
{
    if k == h.len() {
        assert(h.take(k) == h);
    } else {
        lemma_utf8_len_take(h, k + 1);
        let rest = h.drop_last();
        assert(rest.take(k) == h.take(k));
        if k + 1 < h.len() {
            assert(rest.take(k + 1) == h.take(k + 1));
        }
        lemma_truncate_header_at(rest, k);
    }
}

/// The longest prefix of `h` that takes at most `MAX_HEADER_LEN` bytes.
pub fn truncate_header_chars(h: &[char]) -> (r: Vec<char>)
    ensures
        r@ == truncate_header(h@),
{
    let mut k: usize = 0;
    let mut bytes: usize = 0;
    while k < h.len() && bytes + char_width(h[k]) <= MAX_HEADER_LEN
        invariant
            k <= h@.len(),
            bytes == utf8_len(h@.take(k as int)),
            bytes <= MAX_HEADER_LEN,
        decreases h@.len() - k,
    {
        proof {
            lemma_utf8_len_take(h@, k as int);
        }
        bytes = bytes + char_width(h[k]);
        k = k + 1;
    }
    proof {
        lemma_utf8_len_take(h@, k as int);
        lemma_truncate_header_at(h@, k as int);
    }
    let r = slice_chars(h, 0, k);
    assert(r@ =~= h@.take(k as int));
    r
}

/// Whether a trimmed line is a horizontal rule.
pub fn is_rule_chars(t: &[char]) -> (b: bool)
    ensures
        b == is_rule(t@),
{
    same_chars(t, &to_chars("---")) || same_chars(t, &to_chars("***")) || same_chars(
        t,
        &to_chars("___"),
    )
}

/// Adds the section block for `chunk`, unless its trimmed text is empty.
pub fn push_section_chars(blocks: &mut Vec<Block>, chunk: &[char])
    ensures
        block_models(final(blocks)@) == block_models(old(blocks)@) + section_of(chunk@),
{
    let trimmed = trim_chars(chunk);
    if trimmed.len() == 0 {
        assert(block_models(blocks@) =~= block_models(old(blocks)@) + section_of(chunk@));
        return;
    }
    let block = Block::Section { text: TextObject { kind: "mrkdwn", text: from_chars(&trimmed) } };
    assert(block@ == section_block(trim(chunk@)));
    blocks.push(block);
    assert(block_models(blocks@) =~= block_models(old(blocks)@) + section_of(chunk@));
}

/// Adds a section block with the trimmed `text`, unless that is empty.
pub fn push_section_block(blocks: &mut Vec<Block>, text: &str)
    ensures
        block_models(final(blocks)@) == block_models(old(blocks)@) + section_of(text@),
{
    let chars = to_chars(text);
    push_section_chars(blocks, &chars);
}

/// Adds the sections for the formatted text.
pub fn push_sections(blocks: &mut Vec<Block>, formatted: &[char])
    ensures
        block_models(final(blocks)@) == with_sections(block_models(old(blocks)@), formatted@),
{
    let ghost start = Chunking { blocks: block_models(blocks@), chunk: Seq::empty() };
    let ls = split_lines(formatted);
    let ghost all = char_seqs(ls@);
    let mut chunk: Vec<char> = Vec::new();
    let mut i: usize = 0;
    while i < ls.len()
        invariant
            i <= ls@.len(),
            all == char_seqs(ls@),
            chunk_all(start, all.take(i as int)) == (Chunking {
                blocks: block_models(blocks@),
                chunk: chunk@,
            }),
        decreases ls@.len() - i,
    {
        let line = &ls[i];
        proof {
            assert(all.take(i + 1).drop_last() == all.take(i as int));
            assert(all.take(i + 1).last() == line@);
        }
        let ghost prev = Chunking { blocks: block_models(blocks@), chunk: chunk@ };
        let ghost next = chunk_step(prev, line@);
        let held = utf8_len_up_to(&chunk, MAX_SECTION_LEN + 1);
        let more = utf8_len_up_to(line, MAX_SECTION_LEN + 1);
        let full = chunk.len() > 0 && held + 1 + more > MAX_SECTION_LEN;
        assert(full == (prev.chunk.len() > 0 && utf8_len(prev.chunk) + 1 + utf8_len(line@)
            > MAX_SECTION_LEN));
        if full {
            push_section_chars(blocks, &chunk);
            chunk = Vec::new();
        }
        assert(block_models(blocks@) == next.blocks);
        let ghost kept = chunk@;
        if chunk.len() > 0 {
            chunk.push('\n');
        }
        push_chars(&mut chunk, line);
        assert(chunk@ =~= next.chunk) by {
            if kept.len() > 0 {
                assert(chunk@ =~= kept + newline() + line@);
            } else {
                assert(chunk@ =~= line@);
            }
        }
        assert(chunk_all(start, all.take(i + 1)) == next);
        i = i + 1;
    }
    assert(all.take(ls@.len() as int) == all);
    if chunk.len() > 0 {
        push_section_chars(blocks, &chunk);
    }
}

/// Turns the gathered lines into section blocks and forgets them.
pub fn flush_pending(blocks: &mut Vec<Block>, pending: &mut Vec<Vec<char>>)
    ensures
        block_models(final(blocks)@) == spec_flush(
            block_models(old(blocks)@),
            char_seqs(old(pending)@),
        ),
        final(pending)@.len() == 0,
{
    if pending.len() == 0 {
        return;
    }
    let joined = join_lines(pending);
    pending.clear();
    let formatted = convert_bold_chars(&convert_links_chars(&joined));
    push_sections(blocks, &formatted);
}

/// Turns the gathered lines into section blocks and clears them: the lines
/// are joined, links and bold spans are rewritten, and the text is cut at
/// line ends into sections of at most `MAX_SECTION_LEN` bytes, as far as
/// its lines allow.
pub fn flush_section(blocks: &mut Vec<Block>, lines: &mut Vec<String>)
    ensures
        block_models(final(blocks)@) == spec_flush(
            block_models(old(blocks)@),
            string_seqs(old(lines)@),
        ),
        final(lines)@.len() == 0,
{
    let mut pending: Vec<Vec<char>> = Vec::new();
    let mut i: usize = 0;
    while i < lines.len()
        invariant
            i <= lines@.len(),
            char_seqs(pending@) == string_seqs(lines@).take(i as int),
        decreases lines@.len() - i,
    {
        let ghost before = char_seqs(pending@);
        pending.push(to_chars(lines[i].as_str()));
        proof {
            let target = string_seqs(lines@);
            assert(char_seqs(pending@) =~= before.push(target[i as int]));
            assert(target.take(i + 1) =~= target.take(i as int).push(target[i as int]));
        }
        i = i + 1;
    }
    assert(string_seqs(lines@).take(lines@.len() as int) =~= string_seqs(lines@));
    lines.clear();
    flush_pending(blocks, &mut pending);
}

/// Turns markdown into Block Kit blocks. A horizontal rule becomes a
/// divider and a header line a header block, cut to `MAX_HEADER_LEN`
/// bytes; the lines between them become section blocks of mrkdwn.
pub fn markdown_to_blocks(text: &str) -> (blocks: Vec<Block>)
    ensures
        block_models(blocks@) == spec_markdown_to_blocks(text@),
{
    let chars = to_chars(text);
    let ls = split_lines(&chars);
    let ghost all = char_seqs(ls@);
    let mut blocks: Vec<Block> = Vec::new();
    let mut pending: Vec<Vec<char>> = Vec::new();
    let mut i: usize = 0;
    assert(block_models(blocks@) =~= Seq::<BlockModel>::empty());
    assert(char_seqs(pending@) =~= Seq::<Seq<char>>::empty());
    while i < ls.len()
        invariant
            i <= ls@.len(),
            all == char_seqs(ls@),
            gather_all(all.take(i as int)) == (Gathering {
                blocks: block_models(blocks@),
                pending: char_seqs(pending@),
            }),
        decreases ls@.len() - i,
    {
        let line = &ls[i];
        proof {
            assert(all.take(i + 1).drop_last() == all.take(i as int));
            assert(all.take(i + 1).last() == line@);
        }
        let trimmed = trim_chars(line);
        if is_rule_chars(&trimmed) {
            flush_pending(&mut blocks, &mut pending);
            let ghost before = block_models(blocks@);
            blocks.push(Block::Divider);
            assert(block_models(blocks@) =~= before.push(BlockModel::Divider));
            assert(char_seqs(pending@) =~= Seq::<Seq<char>>::empty());
        } else {
            match header_rest_chars(&trimmed) {
                Some(rest) => {
                    flush_pending(&mut blocks, &mut pending);
                    let h = truncate_header_chars(&trim_chars(&rest));
                    let block = Block::Header {
                        text: TextObject { kind: "plain_text", text: from_chars(&h) },
                    };
                    assert(block@ == header_block(truncate_header(trim(rest@))));
                    let ghost before = block_models(blocks@);
                    blocks.push(block);
                    assert(block_models(blocks@) =~= before.push(block@));
                    assert(char_seqs(pending@) =~= Seq::<Seq<char>>::empty());
                },
                None => {
                    let ghost before = char_seqs(pending@);
                    let entry = bulleted_chars(line);
                    pending.push(entry);
                    assert(char_seqs(pending@) =~= before.push(bulleted(line@)));
                },
            }
        }
        i = i + 1;
    }
    assert(all.take(ls@.len() as int) == all);
    flush_pending(&mut blocks, &mut pending);
    blocks
}

// ---------------------------------------------------------------------------
// Messages
// ---------------------------------------------------------------------------

/// The mark that parts the main message from its thread reply.
pub open spec fn thread_mark() -> Seq<char> {
    "---THREAD---"@
}

/// The main message of a text: what stands before the first thread mark,
/// or all of it where there is none, trimmed.
pub open spec fn spec_main_text(s: Seq<char>) -> Seq<char> {
    match find_sub(s, 0, thread_mark()) {
        Some(k) => trim(s.take(k)),
        None => trim(s),
    }
}

/// The thread reply of a text: what stands behind the first thread mark,
/// trimmed, where that is not empty.
pub open spec fn spec_reply_text(s: Seq<char>) -> Option<Seq<char>> {
    match find_sub(s, 0, thread_mark()) {
        Some(k) => {
            let reply = trim(s.skip(k + thread_mark().len()));
            if reply.len() > 0 {
                Some(reply)
            } else {
                None
            }
        },
        None => None,
    }
}

/// Parts a text at the first `---THREAD---` into the main message and the
/// reply to post in its thread. Both are trimmed; an empty reply is no
/// reply.
pub fn split_thread(full_text: &str) -> (r: (String, Option<String>))
    ensures
        r.0@ == spec_main_text(full_text@),
        match r.1 {
            Some(reply) => spec_reply_text(full_text@) == Some(reply@),
            None => spec_reply_text(full_text@) is None,
        },
{
    let chars = to_chars(full_text);
    let mark = to_chars("---THREAD---");
    match find_sub_chars(&chars, 0, &mark) {
        Some(k) => {
            let head = slice_chars(&chars, 0, k);
            assert(head@ == chars@.take(k as int));
            let n: usize = chars.len();
            assert(k + mark@.len() <= n);
            let tail = slice_chars(&chars, k + mark.len(), n);
            assert(tail@ == chars@.skip(k + mark@.len()));
            let reply = trim_chars(&tail);
            let main = from_chars(&trim_chars(&head));
            if reply.len() > 0 {
                (main, Some(from_chars(&reply)))
            } else {
                (main, None)
            }
        },
        None => (from_chars(&trim_chars(&chars)), None),
    }
}

/// The block that stands for the blocks that were cut off.
pub open spec fn truncation_notice() -> BlockModel {
    section_block("_Message truncated \u{2014} too many blocks._"@)
}

/// The blocks of one message: all of them where they are at most
/// `MAX_BLOCKS_PER_MESSAGE`, else the first of them and, in the last
/// place, a notice.
pub open spec fn spec_cap_blocks(blocks: Seq<BlockModel>) -> Seq<BlockModel> {
    if blocks.len() > MAX_BLOCKS_PER_MESSAGE {
        blocks.take(MAX_BLOCKS_PER_MESSAGE - 1).push(truncation_notice())
    } else {
        blocks
    }
}

/// The texts of the header and section blocks, in order.
pub open spec fn block_texts(blocks: Seq<BlockModel>) -> Seq<Seq<char>>
    decreases blocks.len(),
{
    if blocks.len() == 0 {
        Seq::empty()
    } else {
        match blocks.last() {
            BlockModel::Header { kind, text } => block_texts(blocks.drop_last()).push(text),
            BlockModel::Section { kind, text } => block_texts(blocks.drop_last()).push(text),
            BlockModel::Divider => block_texts(blocks.drop_last()),
        }
    }
}

/// The plain text that stands in for the blocks where blocks cannot be
/// shown: the texts of the header and section blocks, one per line.
pub open spec fn spec_fallback_text(blocks: Seq<BlockModel>) -> Seq<char> {
    join(block_texts(blocks), newline())
}

impl Block {
    /// A copy of the block.
    pub fn duplicate(&self) -> (copy: Block)
        ensures
            copy@ == self@,
    {
        match self {
            Block::Header { text } => Block::Header {
                text: TextObject { kind: text.kind, text: text.text.clone() },
            },
            Block::Section { text } => Block::Section {
                text: TextObject { kind: text.kind, text: text.text.clone() },
            },
            Block::Divider => Block::Divider,
        }
    }
}

/// The blocks of one message: at most `MAX_BLOCKS_PER_MESSAGE`, the last
/// of them a notice where blocks had to be cut off.
pub fn cap_blocks(blocks: &[Block]) -> (capped: Vec<Block>)
    ensures
        block_models(capped@) == spec_cap_blocks(block_models(blocks@)),
{
    let keep: usize = if blocks.len() > MAX_BLOCKS_PER_MESSAGE {
        MAX_BLOCKS_PER_MESSAGE - 1
    } else {
        blocks.len()
    };
    let mut capped: Vec<Block> = Vec::new();
    let mut i: usize = 0;
    while i < keep
        invariant
            i <= keep <= blocks@.len(),
            block_models(capped@) == block_models(blocks@).take(i as int),
        decreases keep - i,
    {
        let ghost before = block_models(capped@);
        capped.push(blocks[i].duplicate());
        assert(block_models(capped@) =~= before.push(blocks@[i as int]@));
        assert(block_models(blocks@).take(i + 1) =~= block_models(blocks@).take(i as int).push(
            blocks@[i as int]@,
        ));
        i = i + 1;
    }
    if blocks.len() > MAX_BLOCKS_PER_MESSAGE {
        let notice = Block::Section {
            text: TextObject {
                kind: "mrkdwn",
                text: String::from_str("_Message truncated \u{2014} too many blocks._"),
            },
        };
        let ghost before = block_models(capped@);
        capped.push(notice);
        assert(block_models(capped@) =~= before.push(truncation_notice()));
    } else {
        assert(block_models(blocks@).take(blocks@.len() as int) =~= block_models(blocks@));
    }
    capped
}

/// The plain text that stands in for the blocks.
pub fn fallback_text(blocks: &[Block]) -> (text: String)
    ensures
        text@ == spec_fallback_text(block_models(blocks@)),
{
    let ghost all = block_models(blocks@);
    let mut text = String::new();
    let mut any = false;
    let mut i: usize = 0;
    while i < blocks.len()
        invariant
            i <= blocks@.len(),
            all == block_models(blocks@),
            any == (block_texts(all.take(i as int)).len() > 0),
            text@ == join(block_texts(all.take(i as int)), newline()),
        decreases blocks@.len() - i,
    {
        proof {
            assert(all.take(i + 1).drop_last() == all.take(i as int));
            assert(all.take(i + 1).last() == blocks@[i as int]@);
        }
        let piece: Option<&String> = match &blocks[i] {
            Block::Header { text } => Some(&text.text),
            Block::Section { text } => Some(&text.text),
            Block::Divider => None,
        };
        match piece {
            Some(t) => {
                proof {
                    lemma_join_push(block_texts(all.take(i as int)), newline(), t@);
                }
                if any {
                    push_char(&mut text, '\n');
                }
                text.append(t.as_str());
                any = true;
                assert(text@ =~= join(block_texts(all.take(i + 1)), newline()));
            },
            None => {},
        }
        i = i + 1;
    }
    assert(all.take(blocks@.len() as int) == all);
    text
}

/// Why a message was not posted.
#[derive(Clone, Debug)]
pub enum PostError {
    /// Slack refused the message, with this reason.
    Rejected { reason: String },
    /// Slack accepted the message but named no timestamp for it.
    MissingTimestamp,
}

/// Reads the answer to a posted message: the timestamp of the message,
/// under which replies go into its thread. The answer counts as accepted
/// where the status of the response is a success and its `ok` is true;
/// a refusal without a reason has the reason `unknown error`.
pub fn check_post_response(
    status_is_success: bool,
    ok: Option<bool>,
    error: Option<String>,
    ts: Option<String>,
) -> (r: Result<String, PostError>)
    ensures
        match r {
            Ok(stamp) => status_is_success && ok == Some(true) && ts == Some(stamp),
            Err(PostError::Rejected { reason }) => !(status_is_success && ok == Some(true))
                && reason@ == match error {
                Some(e) => e@,
                None => "unknown error"@,
            },
            Err(PostError::MissingTimestamp) => status_is_success && ok == Some(true) && ts
                is None,
        },
{
    let accepted = status_is_success && match ok {
        Some(b) => b,
        None => false,
    };
    if !accepted {
        let reason = match error {
            Some(e) => e,
            None => String::from_str("unknown error"),
        };
        return Err(PostError::Rejected { reason });
    }
    match ts {
        Some(stamp) => Ok(stamp),
        None => Err(PostError::MissingTimestamp),
    }
}

} // verus!
