use vstd::prelude::*;

verus! {

/// `String::push` of the standard library: the string grows by exactly the
/// given character at its end.
#[verifier::external_body]
pub(crate) fn push_char(s: &mut String, c: char)
    ensures
        final(s)@ == old(s)@.push(c),
{
    s.push(c)
}

/// Whether two string slices hold the same characters.
pub fn str_eq(a: &str, b: &str) -> (r: bool)
    ensures
        r == (a@ == b@),
{
    a.to_owned() == b.to_owned()
}

/// The characters of a string slice, in order.
pub fn to_chars(s: &str) -> (v: Vec<char>)
    ensures
        v@ == s@,
{
    let mut v: Vec<char> = Vec::new();
    for c in it: s.chars()
        invariant
            v@ == it.seq().take(it.index() as int),
            it.seq() == s@,
    {
        v.push(c);
    }
    v
}

/// The string made of the given characters.
pub fn from_chars(v: &[char]) -> (s: String)
    ensures
        s@ == v@,
{
    let mut s = String::new();
    let mut i: usize = 0;
    while i < v.len()
        invariant
            i <= v.len(),
            s@ == v@.take(i as int),
        decreases v.len() - i,
    {
        push_char(&mut s, v[i]);
        i = i + 1;
    }
    s
}

/// The character that writes the digit `d`.
pub open spec fn digit_char(d: int) -> char {
    if d == 0 {
        '0'
    } else if d == 1 {
        '1'
    } else if d == 2 {
        '2'
    } else if d == 3 {
        '3'
    } else if d == 4 {
        '4'
    } else if d == 5 {
        '5'
    } else if d == 6 {
        '6'
    } else if d == 7 {
        '7'
    } else if d == 8 {
        '8'
    } else {
        '9'
    }
}

/// `n` written in decimal, without sign or leading zeros.
pub open spec fn spec_decimal(n: nat) -> Seq<char>
    decreases n,
{
    if n < 10 {
        seq![digit_char(n as int)]
    } else {
        spec_decimal(n / 10).push(digit_char((n % 10) as int))
    }
}

/// The character that writes the digit `d`.
fn digit(d: u64) -> (c: char)
    requires
        d < 10,
    ensures
        c == digit_char(d as int),
{
    if d == 0 {
        '0'
    } else if d == 1 {
        '1'
    } else if d == 2 {
        '2'
    } else if d == 3 {
        '3'
    } else if d == 4 {
        '4'
    } else if d == 5 {
        '5'
    } else if d == 6 {
        '6'
    } else if d == 7 {
        '7'
    } else if d == 8 {
        '8'
    } else {
        '9'
    }
}

/// The decimal digits of `n`.
pub fn decimal_chars(n: u64) -> (v: Vec<char>)
    ensures
        v@ == spec_decimal(n as nat),
    decreases n,
{
    if n < 10 {
        let mut v: Vec<char> = Vec::new();
        v.push(digit(n));
        assert(v@ =~= seq![digit_char(n as int)]);
        v
    } else {
        let mut v = decimal_chars(n / 10);
        v.push(digit(n % 10));
        v
    }
}

/// `n` written in decimal.
pub fn decimal(n: u64) -> (s: String)
    ensures
        s@ == spec_decimal(n as nat),
{
    let v = decimal_chars(n);
    from_chars(&v)
}

/// The line feed, as a sequence of one character.
pub open spec fn newline() -> Seq<char> {
    seq!['\n']
}

/// The parts put one after the other with `sep` between each two.
pub open spec fn join(parts: Seq<Seq<char>>, sep: Seq<char>) -> Seq<char>
    decreases parts.len(),
{
    if parts.len() == 0 {
        Seq::empty()
    } else if parts.len() == 1 {
        parts[0]
    } else {
        join(parts.drop_last(), sep) + sep + parts.last()
    }
}

/// Joining one more part: the separator comes only between parts.
pub proof fn lemma_join_push(parts: Seq<Seq<char>>, sep: Seq<char>, part: Seq<char>)
    ensures
        join(parts.push(part), sep) == if parts.len() == 0 {
            part
        } else {
            join(parts, sep) + sep + part
        },
{
    assert(parts.push(part).drop_last() == parts);
}

/// Appends the characters of `tail` to `s`.
pub fn push_chars(s: &mut Vec<char>, tail: &[char])
    ensures
        final(s)@ == old(s)@ + tail@,
{
    let mut i: usize = 0;
    while i < tail.len()
        invariant
            i <= tail@.len(),
            s@ == old(s)@ + tail@.take(i as int),
        decreases tail@.len() - i,
    {
        s.push(tail[i]);
        i = i + 1;
    }
}

// ---------------------------------------------------------------------------
// Whitespace and trimming
// ---------------------------------------------------------------------------

/// Whether `c` is whitespace: whether it has the Unicode property
/// `White_Space`. These are the tab, the line feed, the vertical tab, the
/// form feed and the carriage return (U+0009 to U+000D), the space
/// (U+0020), the next line (U+0085), the no-break space (U+00A0), the
/// ogham space mark (U+1680), the spaces of fixed width (U+2000 to
/// U+200A), the line and the paragraph separator (U+2028, U+2029), the
/// narrow no-break space (U+202F), the medium mathematical space (U+205F)
/// and the ideographic space (U+3000).
pub open spec fn char_is_whitespace(c: char) -> bool {
    let n = c as u32;
    ||| 0x0009 <= n <= 0x000D
    ||| n == 0x0020
    ||| n == 0x0085
    ||| n == 0x00A0
    ||| n == 0x1680
    ||| 0x2000 <= n <= 0x200A
    ||| n == 0x2028
    ||| n == 0x2029
    ||| n == 0x202F
    ||| n == 0x205F
    ||| n == 0x3000
}

/// `char::is_whitespace` of the standard library: it tells whether the
/// character has the Unicode property `White_Space`, which is the set
/// that `char_is_whitespace` writes out.
#[verifier::external_body]
pub(crate) fn is_whitespace(c: char) -> (b: bool)
    ensures
        b == char_is_whitespace(c),
{
    c.is_whitespace()
}

/// `s` without the whitespace at its start.
pub open spec fn trim_start(s: Seq<char>) -> Seq<char>
    decreases s.len(),
{
    if s.len() > 0 && char_is_whitespace(s[0]) {
        trim_start(s.drop_first())
    } else {
        s
    }
}

/// `s` without the whitespace at its end.
pub open spec fn trim_end(s: Seq<char>) -> Seq<char>
    decreases s.len(),
{
    if s.len() > 0 && char_is_whitespace(s.last()) {
        trim_end(s.drop_last())
    } else {
        s
    }
}

/// `s` without the whitespace at its start and at its end.
pub open spec fn trim(s: Seq<char>) -> Seq<char> {
    trim_end(trim_start(s))
}

/// `trim_start` cuts at the first place that holds no whitespace.
proof fn lemma_trim_start_at(s: Seq<char>, i: int)
    requires
        0 <= i <= s.len(),
        forall|j: int| 0 <= j < i ==> char_is_whitespace(#[trigger] s[j]),
        i == s.len() || !char_is_whitespace(s[i]),
    ensures
        trim_start(s) == s.skip(i),
    decreases i,
{
    if i == 0 {
        assert(s.skip(0) == s);
    } else {
        let rest = s.drop_first();
        assert forall|j: int| 0 <= j < i - 1 implies char_is_whitespace(#[trigger] rest[j]) by {
            assert(rest[j] == s[j + 1]);
        }
        lemma_trim_start_at(rest, i - 1);
        assert(rest.skip(i - 1) == s.skip(i));
    }
}

/// `trim_end` cuts behind the last place that holds no whitespace.
proof fn lemma_trim_end_at(s: Seq<char>, k: int)
    requires
        0 <= k <= s.len(),
        forall|j: int| k <= j < s.len() ==> char_is_whitespace(#[trigger] s[j]),
        k == 0 || !char_is_whitespace(s[k - 1]),
    ensures
        trim_end(s) == s.take(k),
    decreases s.len() - k,
{
    if k == s.len() {
        assert(s.take(k) == s);
    } else {
        let rest = s.drop_last();
        lemma_trim_end_at(rest, k);
        assert(rest.take(k) == s.take(k));
    }
}

/// The characters of `s` from place `from` up to, not including, place
/// `to`.
pub fn slice_chars(s: &[char], from: usize, to: usize) -> (r: Vec<char>)
    requires
        from <= to <= s@.len(),
    ensures
        r@ == s@.subrange(from as int, to as int),
{
    let mut r: Vec<char> = Vec::new();
    let mut i: usize = from;
    while i < to
        invariant
            from <= i <= to <= s@.len(),
            r@ == s@.subrange(from as int, i as int),
        decreases to - i,
    {
        r.push(s[i]);
        assert(r@ =~= s@.subrange(from as int, i + 1));
        i = i + 1;
    }
    r
}

/// A copy of the characters of `s`.
pub fn copy_chars(s: &[char]) -> (r: Vec<char>)
    ensures
        r@ == s@,
{
    let r = slice_chars(s, 0, s.len());
    assert(r@ =~= s@);
    r
}

/// `s` without the whitespace at its start and at its end.
pub fn trim_chars(s: &[char]) -> (r: Vec<char>)
    ensures
        r@ == trim(s@),
{
    let mut i: usize = 0;
    while i < s.len() && is_whitespace(s[i])
        invariant
            i <= s@.len(),
            forall|j: int| 0 <= j < i ==> char_is_whitespace(#[trigger] s@[j]),
        decreases s@.len() - i,
    {
        i = i + 1;
    }
    let mut k: usize = s.len();
    while k > i && is_whitespace(s[k - 1])
        invariant
            i <= k <= s@.len(),
            forall|j: int| k <= j < s@.len() ==> char_is_whitespace(#[trigger] s@[j]),
        decreases k,
    {
        k = k - 1;
    }
    proof {
        lemma_trim_start_at(s@, i as int);
        let rest = s@.skip(i as int);
        assert forall|j: int| k - i <= j < rest.len() implies char_is_whitespace(
            #[trigger] rest[j],
        ) by {
            assert(rest[j] == s@[j + i]);
        }
        if k > i {
            assert(rest[k - i - 1] == s@[k - 1]);
        }
        lemma_trim_end_at(rest, k - i);
        assert(rest.take(k - i) == s@.subrange(i as int, k as int));
    }
    slice_chars(s, i, k)
}

// ---------------------------------------------------------------------------
// Prefixes
// ---------------------------------------------------------------------------

/// `s` without the prefix `p`, where it begins with `p`.
pub open spec fn strip_prefix(s: Seq<char>, p: Seq<char>) -> Option<Seq<char>> {
    if p.len() <= s.len() && s.take(p.len() as int) == p {
        Some(s.skip(p.len() as int))
    } else {
        None
    }
}

/// `s` without the prefix `p`, where it begins with `p`.
pub fn strip_prefix_chars(s: &[char], p: &[char]) -> (r: Option<Vec<char>>)
    ensures
        match r {
            Some(rest) => strip_prefix(s@, p@) == Some(rest@),
            None => strip_prefix(s@, p@) is None,
        },
{
    if p.len() > s.len() {
        return None;
    }
    let mut i: usize = 0;
    while i < p.len()
        invariant
            i <= p@.len() <= s@.len(),
            s@.take(i as int) == p@.take(i as int),
        decreases p@.len() - i,
    {
        if s[i] != p[i] {
            assert(s@.take(p@.len() as int)[i as int] != p@[i as int]);
            return None;
        }
        assert(s@.take(i + 1) =~= s@.take(i as int).push(s@[i as int]));
        assert(p@.take(i + 1) =~= p@.take(i as int).push(p@[i as int]));
        i = i + 1;
    }
    assert(p@.take(p@.len() as int) == p@);
    let rest = slice_chars(s, p.len(), s.len());
    assert(rest@ == s@.skip(p@.len() as int));
    Some(rest)
}

// ---------------------------------------------------------------------------
// Lines
// ---------------------------------------------------------------------------

/// The first place at or after `from` where `s` holds `c`, or the length of
/// `s` where it holds none.
pub open spec fn find_from(s: Seq<char>, from: int, c: char) -> int
    decreases s.len() - from,
{
    if from >= s.len() {
        s.len() as int
    } else if s[from] == c {
        from
    } else {
        find_from(s, from + 1, c)
    }
}

/// `find_from` gives the place before which `c` does not occur from `from`
/// on, and which holds `c` or is the end.
proof fn lemma_find_from(s: Seq<char>, from: int, c: char, at: int)
    requires
        0 <= from <= at <= s.len(),
        forall|j: int| from <= j < at ==> #[trigger] s[j] != c,
        at == s.len() || s[at] == c,
    ensures
        find_from(s, from, c) == at,
    decreases at - from,
{
    if from < at {
        lemma_find_from(s, from + 1, c, at);
    }
}

/// The first place at or after `from` where `s` holds `c`, or the length of
/// `s` where it holds none.
pub fn find_char(s: &[char], from: usize, c: char) -> (at: usize)
    requires
        from <= s@.len(),
    ensures
        at == find_from(s@, from as int, c),
        from <= at <= s@.len(),
        at < s@.len() ==> s@[at as int] == c,
{
    let mut i: usize = from;
    while i < s.len() && s[i] != c
        invariant
            from <= i <= s@.len(),
            forall|j: int| from <= j < i ==> #[trigger] s@[j] != c,
        decreases s@.len() - i,
    {
        i = i + 1;
    }
    proof {
        lemma_find_from(s@, from as int, c, i as int);
    }
    i
}

/// `line` without a carriage return at its end.
pub open spec fn without_cr(line: Seq<char>) -> Seq<char> {
    if line.len() > 0 && line.last() == '\r' {
        line.drop_last()
    } else {
        line
    }
}

/// The lines of `s`. A line ends at a line feed; a carriage return just
/// before that line feed belongs to the line ending. The last line needs no
/// line feed, and a text that ends in one has no empty line after it.
pub open spec fn lines(s: Seq<char>) -> Seq<Seq<char>>
    decreases s.len(),
{
    if s.len() == 0 {
        Seq::empty()
    } else {
        let end = find_from(s, 0, '\n');
        if end < 0 || end >= s.len() {
            seq![s]
        } else {
            seq![without_cr(s.take(end))] + lines(s.skip(end + 1))
        }
    }
}

/// The characters of each vector of `v`.
pub open spec fn char_seqs(v: Seq<Vec<char>>) -> Seq<Seq<char>> {
    Seq::new(v.len(), |i: int| v[i]@)
}

/// Searching in what is left of `s` from `pos` on is searching in `s`.
proof fn lemma_find_from_skip(s: Seq<char>, pos: int, from: int, c: char)
    requires
        0 <= pos <= from <= s.len(),
    ensures
        find_from(s.skip(pos), from - pos, c) == find_from(s, from, c) - pos,
    decreases s.len() - from,
{
    if from < s.len() {
        assert(s.skip(pos)[from - pos] == s[from]);
        if s[from] != c {
            lemma_find_from_skip(s, pos, from + 1, c);
        }
    }
}

/// The lines of `s`.
pub fn split_lines(s: &[char]) -> (r: Vec<Vec<char>>)
    ensures
        char_seqs(r@) == lines(s@),
{
    let mut r: Vec<Vec<char>> = Vec::new();
    let mut pos: usize = 0;
    assert(s@.skip(0) == s@);
    while pos < s.len()
        invariant
            pos <= s@.len(),
            lines(s@) == char_seqs(r@) + lines(s@.skip(pos as int)),
        decreases s@.len() - pos,
    {
        let end = find_char(s, pos, '\n');
        let ghost rest = s@.skip(pos as int);
        proof {
            lemma_find_from_skip(s@, pos as int, pos as int, '\n');
        }
        if end >= s.len() {
            let line = slice_chars(s, pos, s.len());
            assert(line@ == rest);
            r.push(line);
            assert(char_seqs(r@) =~= lines(s@)) by {
                assert(lines(rest) =~= seq![rest]);
            }
            assert(lines(s@.skip(s@.len() as int)) =~= Seq::<Seq<char>>::empty());
            pos = s.len();
        } else {
            let stop: usize = if end > pos && s[end - 1] == '\r' {
                end - 1
            } else {
                end
            };
            let line = slice_chars(s, pos, stop);
            proof {
                let cut = rest.take(end - pos);
                assert(cut == s@.subrange(pos as int, end as int));
                if end > pos {
                    assert(cut.last() == s@[end - 1]);
                }
                assert(line@ =~= without_cr(cut));
                assert(rest.skip(end - pos + 1) =~= s@.skip(end + 1));
                assert(lines(rest) == seq![without_cr(cut)] + lines(s@.skip(end + 1)));
            }
            let ghost before = char_seqs(r@);
            r.push(line);
            assert(char_seqs(r@) =~= before + seq![line@]);
            assert(lines(s@) =~= char_seqs(r@) + lines(s@.skip(end + 1)));
            pos = end + 1;
        }
    }
    assert(lines(s@.skip(s@.len() as int)) =~= Seq::<Seq<char>>::empty());
    assert(char_seqs(r@) =~= lines(s@));
    r
}

/// The parts put one after the other with a line feed between each two.
pub fn join_lines(parts: &Vec<Vec<char>>) -> (r: Vec<char>)
    ensures
        r@ == join(char_seqs(parts@), newline()),
{
    let ghost all = char_seqs(parts@);
    let mut r: Vec<char> = Vec::new();
    let mut i: usize = 0;
    while i < parts.len()
        invariant
            i <= parts@.len(),
            all == char_seqs(parts@),
            r@ == join(all.take(i as int), newline()),
        decreases parts@.len() - i,
    {
        proof {
            lemma_join_push(all.take(i as int), newline(), all[i as int]);
            assert(all.take(i + 1) == all.take(i as int).push(all[i as int]));
        }
        if i > 0 {
            r.push('\n');
        }
        push_chars(&mut r, &parts[i]);
        assert(r@ =~= join(all.take(i + 1), newline()));
        i = i + 1;
    }
    assert(all.take(parts@.len() as int) == all);
    r
}

// ---------------------------------------------------------------------------
// Lengths in bytes
// ---------------------------------------------------------------------------

/// The number of bytes that `c` takes in UTF-8.
pub open spec fn utf8_width(c: char) -> nat {
    if (c as u32) < 0x80 {
        1
    } else if (c as u32) < 0x800 {
        2
    } else if (c as u32) < 0x10000 {
        3
    } else {
        4
    }
}

/// The number of bytes that `s` takes in UTF-8.
pub open spec fn utf8_len(s: Seq<char>) -> nat
    decreases s.len(),
{
    if s.len() == 0 {
        0
    } else {
        utf8_len(s.drop_last()) + utf8_width(s.last())
    }
}

/// The number of bytes that `c` takes in UTF-8.
pub fn char_width(c: char) -> (n: usize)
    ensures
        n == utf8_width(c),
        1 <= n <= 4,
{
    let code: u32 = c as u32;
    if code < 0x80 {
        1
    } else if code < 0x800 {
        2
    } else if code < 0x10000 {
        3
    } else {
        4
    }
}

/// The least of `a` and `b`.
pub open spec fn least(a: nat, b: nat) -> nat {
    if a < b {
        a
    } else {
        b
    }
}

/// The byte length grows with the text.
pub proof fn lemma_utf8_len_take(s: Seq<char>, i: int)
    requires
        0 <= i <= s.len(),
    ensures
        utf8_len(s.take(i)) <= utf8_len(s),
        i < s.len() ==> utf8_len(s.take(i + 1)) == utf8_len(s.take(i)) + utf8_width(s[i]),
    decreases s.len() - i,
{
    if i < s.len() {
        assert(s.take(i + 1).drop_last() == s.take(i));
        lemma_utf8_len_take(s, i + 1);
    } else {
        assert(s.take(i) == s);
    }
}

/// The number of bytes that `s` takes in UTF-8, counted up to `cap`.
pub fn utf8_len_up_to(s: &[char], cap: usize) -> (n: usize)
    requires
        cap <= usize::MAX - 4,
    ensures
        n == least(utf8_len(s@), cap as nat),
{
    let mut n: usize = 0;
    let mut i: usize = 0;
    while i < s.len() && n < cap
        invariant
            i <= s@.len(),
            n == utf8_len(s@.take(i as int)),
            n <= cap + 4,
            cap <= usize::MAX - 4,
        decreases s@.len() - i,
    {
        proof {
            lemma_utf8_len_take(s@, i as int);
        }
        n = n + char_width(s[i]);
        i = i + 1;
    }
    proof {
        lemma_utf8_len_take(s@, i as int);
        if i == s@.len() {
            assert(s@.take(i as int) == s@);
        }
    }
    if n < cap {
        n
    } else {
        cap
    }
}

/// Whether `a` and `b` hold the same characters.
pub fn same_chars(a: &[char], b: &[char]) -> (r: bool)
    ensures
        r == (a@ == b@),
{
    if a.len() != b.len() {
        return false;
    }
    let mut i: usize = 0;
    while i < a.len()
        invariant
            i <= a@.len(),
            a@.len() == b@.len(),
            forall|j: int| 0 <= j < i ==> a@[j] == b@[j],
        decreases a@.len() - i,
    {
        if a[i] != b[i] {
            return false;
        }
        i = i + 1;
    }
    assert(a@ =~= b@);
    true
}

/// The text of each string of `v`.
pub open spec fn string_seqs(v: Seq<String>) -> Seq<Seq<char>> {
    Seq::new(v.len(), |i: int| v[i]@)
}

// ---------------------------------------------------------------------------
// Splitting and replacing
// ---------------------------------------------------------------------------

/// The pieces of `s` between the occurrences of `c`. There is always at
/// least one piece; a text that ends in `c` has an empty last piece.
pub open spec fn split_on(s: Seq<char>, c: char) -> Seq<Seq<char>>
    decreases s.len(),
{
    let end = find_from(s, 0, c);
    if end < 0 || end >= s.len() {
        seq![s]
    } else {
        seq![s.take(end)] + split_on(s.skip(end + 1), c)
    }
}

/// The pieces of `s` between the occurrences of `c`.
pub fn split_chars(s: &[char], c: char) -> (r: Vec<Vec<char>>)
    ensures
        char_seqs(r@) == split_on(s@, c),
{
    let mut r: Vec<Vec<char>> = Vec::new();
    let mut pos: usize = 0;
    assert(s@.skip(0) == s@);
    loop
        invariant
            pos <= s@.len(),
            split_on(s@, c) == char_seqs(r@) + split_on(s@.skip(pos as int), c),
        decreases s@.len() - pos,
    {
        let end = find_char(s, pos, c);
        let ghost rest = s@.skip(pos as int);
        proof {
            lemma_find_from_skip(s@, pos as int, pos as int, c);
        }
        if end >= s.len() {
            let piece = slice_chars(s, pos, s.len());
            assert(piece@ == rest);
            let ghost before = char_seqs(r@);
            r.push(piece);
            assert(char_seqs(r@) =~= before + seq![rest]);
            assert(split_on(rest, c) =~= seq![rest]);
            return r;
        }
        let piece = slice_chars(s, pos, end);
        proof {
            assert(piece@ == rest.take(end - pos));
            assert(rest.skip(end - pos + 1) =~= s@.skip(end + 1));
        }
        let ghost before = char_seqs(r@);
        r.push(piece);
        assert(char_seqs(r@) =~= before + seq![piece@]);
        assert(split_on(s@, c) =~= char_seqs(r@) + split_on(s@.skip(end + 1), c));
        pos = end + 1;
    }
}

/// The first place at or after `from` where `a` stands with `b` right
/// behind it.
pub open spec fn find_pair(s: Seq<char>, from: int, a: char, b: char) -> Option<int>
    decreases s.len() - from,
{
    if from < 0 || from + 1 >= s.len() {
        None
    } else if s[from] == a && s[from + 1] == b {
        Some(from)
    } else {
        find_pair(s, from + 1, a, b)
    }
}

/// The first place at or after `from` where `a` stands with `b` right
/// behind it.
pub fn find_pair_chars(s: &[char], from: usize, a: char, b: char) -> (r: Option<usize>)
    ensures
        match r {
            Some(i) => find_pair(s@, from as int, a, b) == Some(i as int) && from <= i && i + 1
                < s@.len(),
            None => find_pair(s@, from as int, a, b) is None,
        },
{
    let mut i: usize = from;
    while i < s.len() && i + 1 < s.len()
        invariant
            from <= i,
            find_pair(s@, i as int, a, b) == find_pair(s@, from as int, a, b),
        decreases s@.len() - i,
    {
        if s[i] == a && s[i + 1] == b {
            return Some(i);
        }
        i = i + 1;
    }
    None
}

/// Whether `pat` stands in `s` at place `i`.
pub open spec fn stands_at(s: Seq<char>, i: int, pat: Seq<char>) -> bool {
    0 <= i && i + pat.len() <= s.len() && s.subrange(i, i + pat.len()) == pat
}

/// `s` from place `i` on, with every occurrence of `pat` replaced by `to`.
/// Occurrences are found from left to right and do not overlap. Without
/// a pattern nothing is replaced.
pub open spec fn replace_from(s: Seq<char>, i: int, pat: Seq<char>, to: Seq<char>) -> Seq<char>
    decreases s.len() - i,
{
    if i < 0 || i >= s.len() {
        Seq::empty()
    } else if pat.len() > 0 && stands_at(s, i, pat) {
        to + replace_from(s, i + pat.len(), pat, to)
    } else {
        seq![s[i]] + replace_from(s, i + 1, pat, to)
    }
}

/// `s` with every occurrence of `pat` replaced by `to`.
pub open spec fn replace_all(s: Seq<char>, pat: Seq<char>, to: Seq<char>) -> Seq<char> {
    replace_from(s, 0, pat, to)
}

/// Whether `pat` stands in `s` at place `i`.
pub fn stands_at_chars(s: &[char], i: usize, pat: &[char]) -> (b: bool)
    ensures
        b == stands_at(s@, i as int, pat@),
{
    if i > s.len() || pat.len() > s.len() - i {
        return false;
    }
    let mut k: usize = 0;
    while k < pat.len()
        invariant
            k <= pat@.len(),
            i + pat@.len() <= s@.len() <= usize::MAX,
            forall|j: int| 0 <= j < k ==> s@[i + j] == pat@[j],
        decreases pat@.len() - k,
    {
        if s[i + k] != pat[k] {
            assert(s@.subrange(i as int, i + pat@.len())[k as int] != pat@[k as int]);
            return false;
        }
        k = k + 1;
    }
    assert(s@.subrange(i as int, i + pat@.len()) =~= pat@);
    true
}

/// `s` with every occurrence of `pat` replaced by `to`.
pub fn replace_chars(s: &[char], pat: &[char], to: &[char]) -> (out: Vec<char>)
    ensures
        out@ == replace_all(s@, pat@, to@),
{
    let mut out: Vec<char> = Vec::new();
    let mut i: usize = 0;
    while i < s.len()
        invariant
            i <= s@.len(),
            replace_all(s@, pat@, to@) == out@ + replace_from(s@, i as int, pat@, to@),
        decreases s@.len() - i,
    {
        let ghost before = out@;
        if pat.len() > 0 && stands_at_chars(s, i, pat) {
            push_chars(&mut out, to);
            assert(replace_all(s@, pat@, to@) =~= out@ + replace_from(
                s@,
                i + pat@.len(),
                pat@,
                to@,
            ));
            i = i + pat.len();
        } else {
            out.push(s[i]);
            assert(out@ =~= before + seq![s@[i as int]]);
            assert(replace_all(s@, pat@, to@) =~= out@ + replace_from(s@, i + 1, pat@, to@));
            i = i + 1;
        }
    }
    assert(replace_from(s@, s@.len() as int, pat@, to@) =~= Seq::<char>::empty());
    assert(out@ =~= replace_all(s@, pat@, to@));
    out
}

/// The first place at or after `from` where `pat` stands in `s`.
pub open spec fn find_sub(s: Seq<char>, from: int, pat: Seq<char>) -> Option<int>
    decreases s.len() - from,
{
    if from < 0 || from + pat.len() > s.len() {
        None
    } else if stands_at(s, from, pat) {
        Some(from)
    } else if from < s.len() {
        find_sub(s, from + 1, pat)
    } else {
        None
    }
}

/// The first place at or after `from` where `pat` stands in `s`.
pub fn find_sub_chars(s: &[char], from: usize, pat: &[char]) -> (r: Option<usize>)
    ensures
        match r {
            Some(i) => find_sub(s@, from as int, pat@) == Some(i as int) && from <= i && i
                + pat@.len() <= s@.len(),
            None => find_sub(s@, from as int, pat@) is None,
        },
{
    if pat.len() > s.len() {
        return None;
    }
    let last: usize = s.len() - pat.len();
    let mut i: usize = from;
    while i <= last
        invariant
            from <= i,
            last == s@.len() - pat@.len(),
            find_sub(s@, i as int, pat@) == find_sub(s@, from as int, pat@),
        decreases last - i,
    {
        if stands_at_chars(s, i, pat) {
            return Some(i);
        }
        if i == last {
            assert(find_sub(s@, i + 1, pat@) is None);
            return None;
        }
        i = i + 1;
    }
    None
}

/// `s` without every copy of `pat` at its start.
pub open spec fn strip_all_prefixes(s: Seq<char>, pat: Seq<char>) -> Seq<char>
    decreases s.len(),
{
    if pat.len() > 0 && stands_at(s, 0, pat) {
        strip_all_prefixes(s.skip(pat.len() as int), pat)
    } else {
        s
    }
}

/// `s` without every `c` at its end.
pub open spec fn strip_all_trailing(s: Seq<char>, c: char) -> Seq<char>
    decreases s.len(),
{
    if s.len() > 0 && s.last() == c {
        strip_all_trailing(s.drop_last(), c)
    } else {
        s
    }
}

/// `s` without every `c` at its start.
pub open spec fn strip_all_leading(s: Seq<char>, c: char) -> Seq<char>
    decreases s.len(),
{
    if s.len() > 0 && s[0] == c {
        strip_all_leading(s.drop_first(), c)
    } else {
        s
    }
}

/// `s` without every copy of `pat` at its start.
pub fn strip_all_prefixes_chars(s: &[char], pat: &[char]) -> (r: Vec<char>)
    ensures
        r@ == strip_all_prefixes(s@, pat@),
{
    let mut i: usize = 0;
    let n: usize = s.len();
    assert(s@.skip(0) == s@);
    while pat.len() > 0 && stands_at_chars(s, i, pat)
        invariant
            i <= s@.len(),
            n == s@.len(),
            strip_all_prefixes(s@, pat@) == strip_all_prefixes(s@.skip(i as int), pat@),
        decreases s@.len() - i,
    {
        proof {
            let rest = s@.skip(i as int);
            assert(rest.subrange(0, pat@.len() as int) == s@.subrange(
                i as int,
                i + pat@.len(),
            ));
            assert(rest.skip(pat@.len() as int) == s@.skip(i + pat@.len()));
        }
        i = i + pat.len();
    }
    proof {
        let rest = s@.skip(i as int);
        if pat@.len() > 0 && i + pat@.len() <= s@.len() {
            assert(rest.subrange(0, pat@.len() as int) == s@.subrange(
                i as int,
                i + pat@.len(),
            ));
        }
    }
    let r = slice_chars(s, i, s.len());
    assert(r@ == s@.skip(i as int));
    r
}

/// `s` without every `c` at its end.
pub fn strip_all_trailing_chars(s: &[char], c: char) -> (r: Vec<char>)
    ensures
        r@ == strip_all_trailing(s@, c),
{
    let mut k: usize = s.len();
    assert(s@.take(k as int) == s@);
    while k > 0 && s[k - 1] == c
        invariant
            k <= s@.len(),
            strip_all_trailing(s@, c) == strip_all_trailing(s@.take(k as int), c),
        decreases k,
    {
        assert(s@.take(k as int).drop_last() == s@.take(k - 1));
        k = k - 1;
    }
    let r = slice_chars(s, 0, k);
    assert(r@ == s@.take(k as int));
    r
}

/// `s` without every `c` at its start.
pub fn strip_all_leading_chars(s: &[char], c: char) -> (r: Vec<char>)
    ensures
        r@ == strip_all_leading(s@, c),
{
    let mut i: usize = 0;
    assert(s@.skip(0) == s@);
    while i < s.len() && s[i] == c
        invariant
            i <= s@.len(),
            strip_all_leading(s@, c) == strip_all_leading(s@.skip(i as int), c),
        decreases s@.len() - i,
    {
        assert(s@.skip(i as int).drop_first() == s@.skip(i + 1));
        i = i + 1;
    }
    let r = slice_chars(s, i, s.len());
    assert(r@ == s@.skip(i as int));
    r
}

/// The pieces of `s` between the occurrences of `c`, but at most `n`
/// pieces: the last piece holds all that is left.
pub open spec fn split_up_to(s: Seq<char>, n: nat, c: char) -> Seq<Seq<char>>
    decreases n,
{
    let end = find_from(s, 0, c);
    if n == 0 {
        Seq::empty()
    } else if n == 1 || end < 0 || end >= s.len() {
        seq![s]
    } else {
        seq![s.take(end)] + split_up_to(s.skip(end + 1), (n - 1) as nat, c)
    }
}

/// The pieces of `s` between the occurrences of `c`, but at most `n`
/// pieces.
pub fn split_up_to_chars(s: &[char], n: usize, c: char) -> (r: Vec<Vec<char>>)
    ensures
        char_seqs(r@) == split_up_to(s@, n as nat, c),
{
    let mut r: Vec<Vec<char>> = Vec::new();
    if n == 0 {
        assert(char_seqs(r@) =~= split_up_to(s@, 0, c));
        return r;
    }
    let mut pos: usize = 0;
    let mut left: usize = n;
    assert(s@.skip(0) == s@);
    loop
        invariant
            pos <= s@.len(),
            left >= 1,
            split_up_to(s@, n as nat, c) == char_seqs(r@) + split_up_to(
                s@.skip(pos as int),
                left as nat,
                c,
            ),
        decreases left,
    {
        let end = find_char(s, pos, c);
        let ghost rest = s@.skip(pos as int);
        proof {
            lemma_find_from_skip(s@, pos as int, pos as int, c);
        }
        if left == 1 || end >= s.len() {
            let piece = slice_chars(s, pos, s.len());
            assert(piece@ == rest);
            let ghost before = char_seqs(r@);
            r.push(piece);
            assert(char_seqs(r@) =~= before + seq![rest]);
            return r;
        }
        let piece = slice_chars(s, pos, end);
        proof {
            assert(piece@ == rest.take(end - pos));
            assert(rest.skip(end - pos + 1) =~= s@.skip(end + 1));
        }
        let ghost before = char_seqs(r@);
        r.push(piece);
        assert(char_seqs(r@) =~= before + seq![piece@]);
        assert(split_up_to(s@, n as nat, c) =~= char_seqs(r@) + split_up_to(
            s@.skip(end + 1),
            (left - 1) as nat,
            c,
        ));
        pos = end + 1;
        left = left - 1;
    }
}

/// Whether `s` ends with `suffix`.
pub open spec fn ends_with(s: Seq<char>, suffix: Seq<char>) -> bool {
    suffix.len() <= s.len() && s.skip(s.len() - suffix.len()) == suffix
}

/// Whether `s` ends with `suffix`.
pub fn ends_with_chars(s: &[char], suffix: &[char]) -> (b: bool)
    ensures
        b == ends_with(s@, suffix@),
{
    if suffix.len() > s.len() {
        return false;
    }
    let at: usize = s.len() - suffix.len();
    let b = stands_at_chars(s, at, suffix);
    assert(s@.subrange(at as int, at + suffix@.len()) == s@.skip(at as int));
    b
}

// ---------------------------------------------------------------------------
// Shortening
// ---------------------------------------------------------------------------

/// The longest prefix of `s` that takes at most `limit` bytes in UTF-8.
pub open spec fn fitting_prefix(s: Seq<char>, limit: nat) -> Seq<char>
    decreases s.len(),
{
    if s.len() == 0 || utf8_len(s) <= limit {
        s
    } else {
        fitting_prefix(s.drop_last(), limit)
    }
}

/// `s` as it is where it takes at most `limit` bytes; else its longest
/// prefix of at most `limit` bytes, with three dots behind it.
pub open spec fn spec_shorten(s: Seq<char>, limit: nat) -> Seq<char> {
    if utf8_len(s) <= limit {
        s
    } else {
        fitting_prefix(s, limit) + "..."@
    }
}

/// The prefix that fits ends at the place `k` up to which `s` fits and
/// behind which it does not.
proof fn lemma_fitting_prefix_at(s: Seq<char>, limit: nat, k: int)
    requires
        0 <= k <= s.len(),
        utf8_len(s.take(k)) <= limit,
        k < s.len() ==> utf8_len(s.take(k + 1)) > limit,
    ensures
        fitting_prefix(s, limit) == s.take(k),
        k < s.len() ==> utf8_len(s) > limit,
        k == s.len() ==> utf8_len(s) <= limit,
    decreases s.len() - k,
{
    if k == s.len() {
        assert(s.take(k) == s);
    } else {
        lemma_utf8_len_take(s, k + 1);
        let rest = s.drop_last();
        assert(rest.take(k) == s.take(k));
        if k + 1 < s.len() {
            assert(rest.take(k + 1) == s.take(k + 1));
        }
        lemma_fitting_prefix_at(rest, limit, k);
    }
}

/// Shortens a text for a log line: a text of more than `limit` bytes is
/// cut back to the last character that ends within `limit` bytes, and
/// three dots mark the cut.
pub fn shorten(text: &str, limit: usize) -> (short: String)
    ensures
        short@ == spec_shorten(text@, limit as nat),
{
    let chars = to_chars(text);
    let mut k: usize = 0;
    let mut bytes: usize = 0;
    while k < chars.len() && char_width(chars[k]) <= limit - bytes
        invariant
            k <= chars@.len(),
            bytes == utf8_len(chars@.take(k as int)),
            bytes <= limit,
        decreases chars@.len() - k,
    {
        proof {
            lemma_utf8_len_take(chars@, k as int);
        }
        bytes = bytes + char_width(chars[k]);
        k = k + 1;
    }
    proof {
        lemma_utf8_len_take(chars@, k as int);
        lemma_fitting_prefix_at(chars@, limit as nat, k as int);
    }
    if k == chars.len() {
        assert(chars@.take(k as int) == chars@);
        from_chars(&chars)
    } else {
        let mut short = slice_chars(&chars, 0, k);
        assert(short@ == chars@.take(k as int));
        push_chars(&mut short, &to_chars("..."));
        from_chars(&short)
    }
}

} // verus!
