//! `@path` references in Markdown text.

use vstd::prelude::*;
use vstd::string::*;
use crate::stdlib::unicode_alphanumeric;
use crate::text::{
    byte_len, byte_pos, char_at, char_before, char_pos, find_from, find_pos, first_char,
    is_white_space, is_whitespace, law_lines_distribute, lemma_byte_pos_mono, lemma_char_pos,
    lemma_char_pos_of_byte_pos, lemma_find_from, lemma_find_in_rest, lemma_found_at, len_utf8,
    lines_of, slice_pos, split_lines, split_pos, stands_at, starts_with, strings, strs, trim_start,
    trimmed_start,
};

verus! {

/// How many times `c` stands in a row in `s` from character `k` on.
pub open spec fn run_length(s: Seq<char>, k: int, c: char) -> int
    decreases s.len() - k,
{
    if 0 <= k < s.len() && s[k] == c {
        1 + run_length(s, k + 1, c)
    } else {
        0
    }
}

pub(crate) proof fn lemma_run_length(s: Seq<char>, k: int, c: char)
    requires
        0 <= k <= s.len(),
    ensures
        0 <= run_length(s, k, c) <= s.len() - k,
        forall|i: int| k <= i < k + run_length(s, k, c) ==> s[i] == c,
    decreases s.len() - k,
{
    if k < s.len() && s[k] == c {
        lemma_run_length(s, k + 1, c);
    }
}

/// The character after the inline code that begins at character `k` of `s`: the backticks there,
/// up to and with the next occurrence of as many backticks, or the end of `s` where they do not
/// occur again.
pub open spec fn after_inline_code(s: Seq<char>, k: int) -> int {
    let marker = run_length(s, k, '`');
    match find_from(s, k + marker, s.subrange(k, k + marker)) {
        Some(end) => end + marker,
        None => s.len() as int,
    }
}

/// Inline code ends within the line, and not before it began; with a backtick at `k` it holds at
/// least that one.
pub proof fn lemma_after_inline_code(s: Seq<char>, k: int)
    requires
        0 <= k < s.len(),
    ensures
        k <= after_inline_code(s, k) <= s.len(),
        s[k] == '`' ==> k < after_inline_code(s, k),
{
    let marker = run_length(s, k, '`');
    lemma_run_length(s, k, '`');
    lemma_run_length(s, k + 1, '`');
    lemma_find_from(s, k + marker, s.subrange(k, k + marker));
}

/// The byte offset after the inline code that begins at byte offset `start` of `line`.
pub fn skip_inline_code(line: &str, start: usize) -> (r: usize)
    requires
        line.is_char_boundary(start),
    ensures
        r == byte_pos(line@, after_inline_code(line@, char_pos(line@, start as int))),
{
    let ghost k = char_pos(line@, start as int);
    proof {
        lemma_char_pos(line, start as int);
        lemma_run_length(line@, k, '`');
    }
    let n = byte_len(line);
    let mut search_start: usize = start;
    let ghost mut j: int = k;
    while search_start < n && char_at(line, search_start, Ghost(j)) == '`'
        invariant
            0 <= k <= j <= line@.len(),
            start == byte_pos(line@, k),
            search_start == byte_pos(line@, j),
            n == byte_pos(line@, line@.len() as int),
            run_length(line@, k, '`') == (j - k) + run_length(line@, j, '`'),
        decreases n - search_start,
    {
        search_start = search_start + len_utf8('`');
        proof {
            lemma_byte_pos_mono(line@, j + 1, line@.len() as int);
            j = j + 1;
        }
    }
    proof {
        if search_start >= n {
            lemma_byte_pos_mono(line@, j, line@.len() as int);
        }
        assert(run_length(line@, j, '`') == 0);
        lemma_byte_pos_mono(line@, k, j);
    }
    let marker = slice_pos(line, start, search_start, Ghost(k), Ghost(j));
    match find_pos(line, search_start, marker, Ghost(j)) {
        Some(end) => {
            let ghost e = find_from(line@, j, marker@)->0;
            proof {
                lemma_byte_pos_mono(line@, e, line@.len() as int);
                lemma_find_from(line@, j, marker@);
                lemma_marker_width(line@, k, e, j - k);
                lemma_byte_pos_mono(line@, e + (j - k), line@.len() as int);
            }
            end + (search_start - start)
        },
        None => n,
    }
}

/// The same characters take the same number of bytes wherever they stand.
proof fn lemma_marker_width(s: Seq<char>, a: int, b: int, len: int)
    requires
        0 <= len,
        0 <= a,
        a + len <= s.len(),
        0 <= b,
        b + len <= s.len(),
        s.subrange(a, a + len) == s.subrange(b, b + len),
    ensures
        byte_pos(s, a + len) - byte_pos(s, a) == byte_pos(s, b + len) - byte_pos(s, b),
    decreases len,
{
    if len > 0 {
        assert(s[a + len - 1] == s.subrange(a, a + len)[len - 1]);
        assert(s[b + len - 1] == s.subrange(b, b + len)[len - 1]);
        assert(s.subrange(a, a + len - 1) =~= s.subrange(a, a + len).take(len - 1));
        assert(s.subrange(b, b + len - 1) =~= s.subrange(b, b + len).take(len - 1));
        lemma_marker_width(s, a, b, len - 1);
    }
}

/// Whether an `@` at character `k` of `s` can begin a reference: at the start of the line or
/// after white space.
pub open spec fn at_reference_start(s: Seq<char>, k: int) -> bool {
    k == 0 || is_white_space(s[k - 1])
}

/// Whether an `@` at byte offset `at_index` of `line` can begin a reference.
pub fn is_reference_start_boundary(line: &str, at_index: usize) -> (r: bool)
    requires
        line.is_char_boundary(at_index),
    ensures
        r == at_reference_start(line@, char_pos(line@, at_index as int)),
{
    let ghost k = char_pos(line@, at_index as int);
    proof {
        lemma_char_pos(line, at_index as int);
    }
    if at_index == 0 {
        proof {
            if k > 0 {
                lemma_byte_pos_mono(line@, 0, k);
            }
        }
        true
    } else {
        let (c, _) = char_before(line, at_index, Ghost(k));
        is_whitespace(c)
    }
}

/// What is read as the target of a reference from character `k` of `s` on, and the character
/// after it: everything up to white space, where white space behind a backslash belongs to the
/// target and the backslash does not.
pub open spec fn raw_target(s: Seq<char>, k: int) -> (Seq<char>, int)
    decreases s.len() - k,
{
    if k < 0 || k >= s.len() {
        (Seq::empty(), k)
    } else if s[k] == '\\' && k + 1 < s.len() && is_white_space(s[k + 1]) {
        let (rest, end) = raw_target(s, k + 2);
        (seq![s[k + 1]] + rest, end)
    } else if is_white_space(s[k]) {
        (Seq::empty(), k)
    } else {
        let (rest, end) = raw_target(s, k + 1);
        (seq![s[k]] + rest, end)
    }
}

/// A target ends within the line, and not before it began.
pub proof fn lemma_raw_target(s: Seq<char>, k: int)
    requires
        0 <= k <= s.len(),
    ensures
        k <= raw_target(s, k).1 <= s.len(),
    decreases s.len() - k,
{
    if k < s.len() {
        if s[k] == '\\' && k + 1 < s.len() && is_white_space(s[k + 1]) {
            lemma_raw_target(s, k + 2);
        } else if !is_white_space(s[k]) {
            lemma_raw_target(s, k + 1);
        }
    }
}

/// Punctuation that ends a sentence or a bracket, not a target.
pub open spec fn is_closing_punctuation(c: char) -> bool {
    ||| c == '.'
    ||| c == ','
    ||| c == ';'
    ||| c == ':'
    ||| c == '!'
    ||| c == '?'
    ||| c == ')'
    ||| c == ']'
    ||| c == '}'
    ||| c == '"'
    ||| c == '\''
}

/// `s` without the closing punctuation at its end.
pub open spec fn without_closing_punctuation(s: Seq<char>) -> Seq<char>
    decreases s.len(),
{
    if s.len() > 0 && is_closing_punctuation(s.last()) {
        without_closing_punctuation(s.drop_last())
    } else {
        s
    }
}

/// Whether `c` is a letter or a digit.
pub open spec fn is_letter_or_digit(c: char) -> bool {
    if c as u32 <= 0x7f {
        ('a' <= c <= 'z') || ('A' <= c <= 'Z') || ('0' <= c <= '9')
    } else {
        unicode_alphanumeric(c)
    }
}

/// Whether a target can begin with `c`.
pub open spec fn can_begin_target(c: char) -> bool {
    ||| is_letter_or_digit(c)
    ||| c == '.'
    ||| c == '/'
    ||| c == '\\'
    ||| c == '~'
    ||| c == '_'
    ||| c == '-'
}

/// Whether `target` names something that can be referenced.
pub open spec fn names_target(target: Seq<char>) -> bool {
    target.len() > 0 && can_begin_target(target[0])
}

/// The reference whose `@` stands before character `k` of `s`, and the character after it.
pub open spec fn reference_at(s: Seq<char>, k: int) -> Option<(Seq<char>, int)> {
    let (raw, end) = raw_target(s, k);
    let target = without_closing_punctuation(raw);
    if names_target(target) {
        Some((target, end))
    } else {
        None
    }
}

fn is_alphanumeric(c: char) -> (r: bool)
    ensures
        r == is_letter_or_digit(c),
{
    if c as u32 <= 0x7f {
        ('a' <= c && c <= 'z') || ('A' <= c && c <= 'Z') || ('0' <= c && c <= '9')
    } else {
        c.is_alphanumeric()
    }
}

/// Whether `target` names something that can be referenced: it is not empty and begins with a
/// letter, a digit or one of `./\~_-`.
pub fn is_reference_target(target: &str) -> (r: bool)
    ensures
        r == names_target(target@),
{
    match first_char(target) {
        Some(c) => is_alphanumeric(c) || c == '.' || c == '/' || c == '\\' || c == '~' || c == '_'
            || c == '-',
        None => false,
    }
}

fn closes(c: char) -> (r: bool)
    ensures
        r == is_closing_punctuation(c),
{
    c == '.' || c == ',' || c == ';' || c == ':' || c == '!' || c == '?' || c == ')' || c == ']'
        || c == '}' || c == '"' || c == '\''
}

fn trim_closing_punctuation<'a>(s: &'a str) -> (r: &'a str)
    ensures
        r@ == without_closing_punctuation(s@),
{
    let mut at: usize = byte_len(s);
    let ghost mut k: int = s@.len() as int;
    assert(s@.take(k) =~= s@);
    while at > 0
        invariant
            0 <= k <= s@.len(),
            at == byte_pos(s@, k),
            without_closing_punctuation(s@) == without_closing_punctuation(s@.take(k)),
        decreases at,
    {
        let (c, i) = char_before(s, at, Ghost(k));
        if !closes(c) {
            let (rest, _) = split_pos(s, at, Ghost(k));
            return rest;
        }
        proof {
            assert(s@.take(k).drop_last() =~= s@.take(k - 1));
            lemma_byte_pos_mono(s@, k - 1, k);
            k = k - 1;
        }
        at = i;
    }
    proof {
        lemma_byte_pos_mono(s@, 0, k);
    }
    let (rest, _) = split_pos(s, at, Ghost(k));
    rest
}

/// Reads the target of a reference from byte offset `start` of `line` on, behind its `@`. Returns
/// the target and the offset after it, or `None` where no target stands there.
pub fn consume_reference_target(line: &str, start: usize) -> (r: Option<(String, usize)>)
    requires
        line.is_char_boundary(start),
    ensures
        match (reference_at(line@, char_pos(line@, start as int)), r) {
            (Some((target, end)), Some((text, index))) => text@ == target && index == byte_pos(
                line@,
                end,
            ),
            (None, None) => true,
            _ => false,
        },
{
    let ghost k = char_pos(line@, start as int);
    proof {
        lemma_char_pos(line, start as int);
        lemma_raw_target(line@, k);
    }
    let n = byte_len(line);
    let mut target = String::new();
    let mut index: usize = start;
    let ghost mut j: int = k;
    assert(target@ + raw_target(line@, j).0 =~= raw_target(line@, k).0);
    loop
        invariant
            0 <= k <= j <= line@.len(),
            index == byte_pos(line@, j),
            n == byte_pos(line@, line@.len() as int),
            target@ + raw_target(line@, j).0 == raw_target(line@, k).0,
            raw_target(line@, j).1 == raw_target(line@, k).1,
        ensures
            0 <= j <= line@.len(),
            index == byte_pos(line@, j),
            target@ == raw_target(line@, k).0,
            j == raw_target(line@, k).1,
        decreases n - index,
    {
        if index >= n {
            proof {
                lemma_byte_pos_mono(line@, j, line@.len() as int);
                assert(target@ + raw_target(line@, j).0 =~= target@);
            }
            break ;
        }
        let ch = char_at(line, index, Ghost(j));
        let next = index + len_utf8(ch);
        let ghost before = target@;
        if ch == '\\' && next < n {
            let escaped = char_at(line, next, Ghost(j + 1));
            if is_whitespace(escaped) {
                let after = next + len_utf8(escaped);
                target.append(slice_pos(line, next, after, Ghost(j + 1), Ghost(j + 2)));
                index = after;
                proof {
                    assert(target@ + raw_target(line@, j + 2).0 =~= before + (seq![line@[j + 1]]
                        + raw_target(line@, j + 2).0));
                    j = j + 2;
                }
                continue ;
            }
        }
        proof {
            if next >= n {
                lemma_byte_pos_mono(line@, j + 1, line@.len() as int);
            }
        }
        if is_whitespace(ch) {
            assert(target@ + raw_target(line@, j).0 =~= target@);
            break ;
        }
        target.append(slice_pos(line, index, next, Ghost(j), Ghost(j + 1)));
        index = next;
        proof {
            assert(target@ + raw_target(line@, j + 1).0 =~= before + (seq![line@[j]] + raw_target(
                line@,
                j + 1,
            ).0));
            j = j + 1;
        }
    }
    let trimmed = trim_closing_punctuation(target.as_str());
    if is_reference_target(trimmed) {
        Some((trimmed.to_owned(), index))
    } else {
        None
    }
}

/// The targets of the references in `s` from character `k` on, in order. Inline code holds none.
pub open spec fn targets_from(s: Seq<char>, k: int) -> Seq<Seq<char>>
    decreases s.len() - k,
{
    if k < 0 || k >= s.len() {
        Seq::empty()
    } else if s[k] == '`' {
        proof {
            lemma_after_inline_code(s, k);
        }
        targets_from(s, after_inline_code(s, k))
    } else if s[k] == '@' && at_reference_start(s, k) && reference_at(s, k + 1) is Some {
        proof {
            lemma_raw_target(s, k + 1);
        }
        let (target, end) = reference_at(s, k + 1)->0;
        seq![target] + targets_from(s, end)
    } else {
        targets_from(s, k + 1)
    }
}

/// Appends the targets of the references in `line` to `targets`.
pub fn extract_reference_targets_from_line(line: &str, targets: &mut Vec<String>)
    ensures
        strings(final(targets)@) == strings(old(targets)@) + targets_from(line@, 0),
{
    let n = byte_len(line);
    let mut index: usize = 0;
    let ghost mut k: int = 0;
    while index < n
        invariant
            0 <= k <= line@.len(),
            index == byte_pos(line@, k),
            n == byte_pos(line@, line@.len() as int),
            strings(targets@) + targets_from(line@, k) == strings(old(targets)@) + targets_from(
                line@,
                0,
            ),
        decreases line@.len() - k,
    {
        let ch = char_at(line, index, Ghost(k));
        proof {
            lemma_char_pos(line, index as int);
            lemma_char_pos_of_byte_pos(line@, k);
            lemma_after_inline_code(line@, k);
            lemma_raw_target(line@, k + 1);
            lemma_byte_pos_mono(line@, k + 1, line@.len() as int);
        }
        if ch == '`' {
            index = skip_inline_code(line, index);
            proof {
                k = after_inline_code(line@, k);
            }
            continue ;
        }
        let next = index + len_utf8(ch);
        if ch == '@' && is_reference_start_boundary(line, index) {
            proof {
                lemma_char_pos(line, next as int);
                lemma_char_pos_of_byte_pos(line@, k + 1);
            }
            if let Some((reference, next_index)) = consume_reference_target(line, next) {
                let ghost before = targets@;
                targets.push(reference);
                index = next_index;
                proof {
                    let (target, end) = reference_at(line@, k + 1)->0;
                    assert(strings(targets@) =~= strings(before) + seq![target]);
                    assert(strings(targets@) + targets_from(line@, end) =~= strings(before) + (seq![
                        target,
                    ] + targets_from(line@, end)));
                    k = end;
                }
                continue ;
            }
        }
        index = next;
        proof {
            k = k + 1;
        }
    }
    proof {
        lemma_byte_pos_mono(line@, k, line@.len() as int);
        assert(strings(targets@) + targets_from(line@, k) =~= strings(targets@));
    }
}

/// The character whose code fence `line` opens or closes.
pub open spec fn fence_of(line: Seq<char>) -> Option<char> {
    let rest = trimmed_start(line);
    if stands_at(rest, 0, seq!['`', '`', '`']) {
        Some('`')
    } else if stands_at(rest, 0, seq!['~', '~', '~']) {
        Some('~')
    } else {
        None
    }
}

/// The character of the code fence that `line` begins with, behind white space.
pub fn markdown_fence_marker(line: &str) -> (r: Option<char>)
    ensures
        r == fence_of(line@),
{
    let rest = trim_start(line);
    let backticks = "```";
    let tildes = "~~~";
    proof {
        reveal_strlit("```");
        reveal_strlit("~~~");
        assert(backticks@ =~= seq!['`', '`', '`']);
        assert(tildes@ =~= seq!['~', '~', '~']);
    }
    if starts_with(rest, backticks) {
        Some('`')
    } else if starts_with(rest, tildes) {
        Some('~')
    } else {
        None
    }
}

/// The parts of `s` from character `k` on that stand outside of HTML comments, and whether a
/// comment is still open at the end; `inside` says whether one is open at `k`.
pub open spec fn segments_from(s: Seq<char>, k: int, inside: bool) -> (Seq<Seq<char>>, bool)
    decreases s.len() - k,
{
    if k < 0 || k >= s.len() {
        (Seq::empty(), inside)
    } else if inside {
        proof {
            lemma_find_from(s, k, seq!['-', '-', '>']);
        }
        match find_from(s, k, seq!['-', '-', '>']) {
            Some(end) => segments_from(s, end + 3, false),
            None => (Seq::empty(), true),
        }
    } else {
        proof {
            lemma_find_from(s, k, seq!['<', '!', '-', '-']);
        }
        match find_from(s, k, seq!['<', '!', '-', '-']) {
            Some(start) => {
                let (rest, open) = segments_from(s, start + 4, true);
                if k < start {
                    (seq![s.subrange(k, start)] + rest, open)
                } else {
                    (rest, open)
                }
            },
            None => (seq![s.skip(k)], false),
        }
    }
}

/// The parts of `line` that stand outside of HTML comments. `in_comment` says whether a comment
/// is open at the start of the line, and after the call whether one is open at its end.
pub fn markdown_segments_outside_html_comments<'a>(
    line: &'a str,
    in_comment: &mut bool,
) -> (r: Vec<&'a str>)
    ensures
        strs(r@) == segments_from(line@, 0, *old(in_comment)).0,
        *final(in_comment) == segments_from(line@, 0, *old(in_comment)).1,
{
    let n = byte_len(line);
    let opening = "<!--";
    let closing = "-->";
    proof {
        reveal_strlit("<!--");
        reveal_strlit("-->");
        assert(opening@ =~= seq!['<', '!', '-', '-']);
        assert(closing@ =~= seq!['-', '-', '>']);
    }
    let mut segments: Vec<&'a str> = Vec::new();
    let mut start: usize = 0;
    let ghost mut k: int = 0;
    let ghost was_inside = *in_comment;
    assert(strs(segments@) + segments_from(line@, k, *in_comment).0 =~= segments_from(
        line@,
        0,
        was_inside,
    ).0);
    loop
        invariant_except_break
            opening@ == seq!['<', '!', '-', '-'],
            closing@ == seq!['-', '-', '>'],
            0 <= k <= line@.len(),
            start == byte_pos(line@, k),
            n == byte_pos(line@, line@.len() as int),
            strs(segments@) + segments_from(line@, k, *in_comment).0 == segments_from(
                line@,
                0,
                was_inside,
            ).0,
            segments_from(line@, k, *in_comment).1 == segments_from(line@, 0, was_inside).1,
        ensures
            strs(segments@) == segments_from(line@, 0, was_inside).0,
            *in_comment == segments_from(line@, 0, was_inside).1,
        decreases line@.len() - k,
    {
        if start >= n {
            proof {
                lemma_byte_pos_mono(line@, k, line@.len() as int);
                assert(strs(segments@) + segments_from(line@, k, *in_comment).0 =~= strs(
                    segments@,
                ));
            }
            break ;
        }
        let ghost before = segments@;
        if *in_comment {
            proof {
                lemma_find_from(line@, k, closing@);
            }
            match find_pos(line, start, closing, Ghost(k)) {
                Some(end) => {
                    let ghost e = find_from(line@, k, closing@)->0;
                    *in_comment = false;
                    proof {
                        lemma_ascii_run(line@, e, closing@);
                        lemma_byte_pos_mono(line@, e + 3, line@.len() as int);
                        k = e + 3;
                    }
                    start = end + 3;
                },
                None => {
                    assert(strs(segments@) + segments_from(line@, k, true).0 =~= strs(segments@));
                    break ;
                },
            }
        } else {
            proof {
                lemma_find_from(line@, k, opening@);
            }
            match find_pos(line, start, opening, Ghost(k)) {
                Some(comment_start) => {
                    let ghost c = find_from(line@, k, opening@)->0;
                    proof {
                        lemma_byte_pos_mono(line@, k, c);
                        lemma_ascii_run(line@, c, opening@);
                        lemma_byte_pos_mono(line@, c + 4, line@.len() as int);
                    }
                    if start < comment_start {
                        segments.push(slice_pos(line, start, comment_start, Ghost(k), Ghost(c)));
                        proof {
                            assert(strs(segments@) =~= strs(before) + seq![line@.subrange(k, c)]);
                            let rest = segments_from(line@, c + 4, true).0;
                            assert(strs(segments@) + rest =~= strs(before) + (seq![
                                line@.subrange(k, c),
                            ] + rest));
                        }
                    }
                    start = comment_start + 4;
                    *in_comment = true;
                    proof {
                        k = c + 4;
                    }
                },
                None => {
                    let (_, rest) = split_pos(line, start, Ghost(k));
                    segments.push(rest);
                    assert(strs(segments@) =~= strs(before) + seq![line@.skip(k)]);
                    break ;
                },
            }
        }
    }
    segments
}

/// An ASCII pattern takes one byte for each of its characters.
proof fn lemma_ascii_run(s: Seq<char>, k: int, pat: Seq<char>)
    requires
        stands_at(s, k, pat),
        forall|i: int| 0 <= i < pat.len() ==> (#[trigger] pat[i]) as u32 <= 0x7f,
    ensures
        byte_pos(s, k + pat.len()) == byte_pos(s, k) + pat.len(),
    decreases pat.len(),
{
    if pat.len() > 0 {
        let n = pat.len() as int;
        assert(s[k + n - 1] == s.subrange(k, k + n)[n - 1]);
        assert(s.subrange(k, k + n - 1) =~= pat.drop_last());
        lemma_ascii_run(s, k, pat.drop_last());
    }
}

/// The targets of the references in a series of segments, in order.
pub open spec fn targets_in_segments(segments: Seq<Seq<char>>) -> Seq<Seq<char>>
    decreases segments.len(),
{
    if segments.len() == 0 {
        Seq::empty()
    } else {
        targets_from(segments[0], 0) + targets_in_segments(segments.drop_first())
    }
}

/// The code fence that is open after a line with the fence `marker`: the fence that is open stays
/// open unless the same character closes it.
pub open spec fn fence_after(open: Option<char>, marker: char) -> Option<char> {
    if open == Some(marker) {
        None
    } else if open is None {
        Some(marker)
    } else {
        open
    }
}

/// The targets of the references in `lines`, in order; `fence` is the code fence that is open
/// before the first line, and `inside` says whether an HTML comment is. A line that opens, closes
/// or stands in a code fence holds none.
pub open spec fn targets_in_lines(
    lines: Seq<Seq<char>>,
    fence: Option<char>,
    inside: bool,
) -> Seq<Seq<char>>
    decreases lines.len(),
{
    if lines.len() == 0 {
        Seq::empty()
    } else {
        let rest = lines.drop_first();
        match fence_of(lines[0]) {
            Some(marker) => targets_in_lines(rest, fence_after(fence, marker), inside),
            None => if fence is Some {
                targets_in_lines(rest, fence, inside)
            } else {
                let (segments, open) = segments_from(lines[0], 0, inside);
                targets_in_segments(segments) + targets_in_lines(rest, fence, open)
            },
        }
    }
}

/// The targets of the references in a Markdown text, in order.
pub open spec fn reference_targets(text: Seq<char>) -> Seq<Seq<char>> {
    targets_in_lines(lines_of(text), None, false)
}

/// The targets of the `@path` references in a Markdown text, in order. Code fences, inline code
/// and HTML comments hold none.
pub fn extract_reference_targets(text: &str) -> (r: Vec<String>)
    ensures
        strings(r@) == reference_targets(text@),
{
    let mut targets: Vec<String> = Vec::new();
    let mut fence_marker: Option<char> = None;
    let mut in_html_comment = false;
    let lines = split_lines(text);
    let ghost all = lines_of(text@);
    assert(all.skip(0) =~= all);
    assert(strings(targets@) + reference_targets(text@) =~= reference_targets(text@));
    for i in 0..lines.len()
        invariant
            strs(lines@) == all,
            strings(targets@) + targets_in_lines(all.skip(i as int), fence_marker, in_html_comment)
                == targets_in_lines(all, None, false),
    {
        let line = lines[i];
        proof {
            assert(strs(lines@)[i as int] == line@);
            assert(all.skip(i as int)[0] == line@);
            assert(all.skip(i as int).drop_first() =~= all.skip(i + 1));
        }
        match markdown_fence_marker(line) {
            Some(marker) => {
                fence_marker = match fence_marker {
                    Some(open) => if open == marker {
                        None
                    } else {
                        Some(open)
                    },
                    None => Some(marker),
                };
            },
            None => if fence_marker.is_none() {
                let ghost before = targets@;
                let ghost inside = in_html_comment;
                let segments = markdown_segments_outside_html_comments(line, &mut in_html_comment);
                let ghost parts = segments_from(line@, 0, inside).0;
                assert(parts.skip(0) =~= parts);
                assert(strings(targets@) + targets_in_segments(parts.skip(0)) =~= strings(before)
                    + targets_in_segments(parts));
                for j in 0..segments.len()
                    invariant
                        strs(segments@) == parts,
                        strings(targets@) + targets_in_segments(parts.skip(j as int)) == strings(
                            before,
                        ) + targets_in_segments(parts),
                {
                    let ghost so_far = targets@;
                    extract_reference_targets_from_line(segments[j], &mut targets);
                    proof {
                        assert(strs(segments@)[j as int] == segments[j as int]@);
                        assert(parts.skip(j as int)[0] == segments[j as int]@);
                        assert(parts.skip(j as int).drop_first() =~= parts.skip(j + 1));
                        assert(strings(targets@) + targets_in_segments(parts.skip(j + 1))
                            =~= strings(so_far) + (targets_from(segments[j as int]@, 0)
                            + targets_in_segments(parts.skip(j + 1))));
                    }
                }
                proof {
                    assert(strings(targets@) + targets_in_segments(
                        parts.skip(segments@.len() as int),
                    ) =~= strings(targets@));
                    let rest = targets_in_lines(all.skip(i + 1), None, in_html_comment);
                    assert(strings(targets@) + rest =~= strings(before) + (targets_in_segments(
                        parts,
                    ) + rest));
                }
            },
        }
    }
    assert(strings(targets@) + targets_in_lines(
        all.skip(lines@.len() as int),
        fence_marker,
        in_html_comment,
    ) =~= strings(targets@));
    targets
}

/// Whether `target` is one that a reference can have: it begins like the name of something, and
/// does not end with closing punctuation.
pub open spec fn is_clean_target(target: Seq<char>) -> bool {
    names_target(target) && !is_closing_punctuation(target.last())
}

/// Whether all of `targets` are such that a reference can have them.
pub open spec fn all_clean(targets: Seq<Seq<char>>) -> bool {
    forall|i: int| 0 <= i < targets.len() ==> is_clean_target(#[trigger] targets[i])
}

proof fn lemma_without_closing_punctuation(s: Seq<char>)
    ensures
        without_closing_punctuation(s).len() > 0 ==> !is_closing_punctuation(
            without_closing_punctuation(s).last(),
        ),
    decreases s.len(),
{
    if s.len() > 0 && is_closing_punctuation(s.last()) {
        lemma_without_closing_punctuation(s.drop_last());
    }
}

proof fn lemma_targets_from_clean(s: Seq<char>, k: int)
    ensures
        all_clean(targets_from(s, k)),
    decreases s.len() - k,
{
    if 0 <= k < s.len() {
        if s[k] == '`' {
            lemma_after_inline_code(s, k);
            lemma_targets_from_clean(s, after_inline_code(s, k));
        } else if s[k] == '@' && at_reference_start(s, k) && reference_at(s, k + 1) is Some {
            lemma_raw_target(s, k + 1);
            let (target, end) = reference_at(s, k + 1)->0;
            lemma_without_closing_punctuation(raw_target(s, k + 1).0);
            lemma_targets_from_clean(s, end);
            assert forall|i: int| 0 <= i < targets_from(s, k).len() implies is_clean_target(
                #[trigger] targets_from(s, k)[i],
            ) by {
                if i > 0 {
                    assert(targets_from(s, k)[i] == targets_from(s, end)[i - 1]);
                }
            }
        } else {
            lemma_targets_from_clean(s, k + 1);
        }
    }
}

proof fn lemma_targets_in_segments_clean(segments: Seq<Seq<char>>)
    ensures
        all_clean(targets_in_segments(segments)),
    decreases segments.len(),
{
    if segments.len() > 0 {
        lemma_targets_from_clean(segments[0], 0);
        lemma_targets_in_segments_clean(segments.drop_first());
    }
}

proof fn lemma_targets_in_lines_clean(lines: Seq<Seq<char>>, fence: Option<char>, inside: bool)
    ensures
        all_clean(targets_in_lines(lines, fence, inside)),
    decreases lines.len(),
{
    if lines.len() > 0 {
        let rest = lines.drop_first();
        match fence_of(lines[0]) {
            Some(marker) => lemma_targets_in_lines_clean(rest, fence_after(fence, marker), inside),
            None => if fence is Some {
                lemma_targets_in_lines_clean(rest, fence, inside);
            } else {
                let (segments, open) = segments_from(lines[0], 0, inside);
                lemma_targets_in_segments_clean(segments);
                lemma_targets_in_lines_clean(rest, fence, open);
            },
        }
    }
}

/// Every target of a text begins like the name of something, and none ends with closing
/// punctuation.
pub proof fn law_targets_are_clean(text: Seq<char>)
    ensures
        all_clean(reference_targets(text)),
{
    lemma_targets_in_lines_clean(lines_of(text), None, false);
}

/// Without an `@` there is no reference in a line, wherever one begins to look.
pub proof fn law_no_at_no_targets(s: Seq<char>, k: int)
    requires
        !s.contains('@'),
    ensures
        targets_from(s, k).len() == 0,
    decreases s.len() - k,
{
    if 0 <= k < s.len() {
        if s[k] == '`' {
            lemma_after_inline_code(s, k);
            law_no_at_no_targets(s, after_inline_code(s, k));
        } else {
            assert(s.contains(s[k]));
            law_no_at_no_targets(s, k + 1);
        }
    }
}

/// Lines that stand in a code fence, and do not close it, are passed over: nothing in them counts,
/// not even an HTML comment.
pub proof fn law_fenced_lines_pass(
    body: Seq<Seq<char>>,
    rest: Seq<Seq<char>>,
    marker: char,
    inside: bool,
)
    requires
        forall|i: int| 0 <= i < body.len() ==> fence_of(#[trigger] body[i]) != Some(marker),
    ensures
        targets_in_lines(body + rest, Some(marker), inside) == targets_in_lines(
            rest,
            Some(marker),
            inside,
        ),
    decreases body.len(),
{
    if body.len() == 0 {
        assert(body + rest =~= rest);
    } else {
        assert((body + rest)[0] == body[0]);
        assert((body + rest).drop_first() =~= body.drop_first() + rest);
        law_fenced_lines_pass(body.drop_first(), rest, marker, inside);
    }
}

/// A whole code block counts for nothing: from the line that opens its fence to the first line
/// that closes it.
pub proof fn law_code_block_holds_no_targets(
    open: Seq<char>,
    body: Seq<Seq<char>>,
    close: Seq<char>,
    rest: Seq<Seq<char>>,
    marker: char,
    inside: bool,
)
    requires
        fence_of(open) == Some(marker),
        fence_of(close) == Some(marker),
        forall|i: int| 0 <= i < body.len() ==> fence_of(#[trigger] body[i]) != Some(marker),
    ensures
        targets_in_lines(seq![open] + body + seq![close] + rest, None, inside) == targets_in_lines(
            rest,
            None,
            inside,
        ),
{
    let lines = seq![open] + body + seq![close] + rest;
    assert(lines[0] == open);
    assert(lines.drop_first() =~= body + (seq![close] + rest));
    law_fenced_lines_pass(body, seq![close] + rest, marker, inside);
    assert((seq![close] + rest)[0] == close);
    assert((seq![close] + rest).drop_first() =~= rest);
}

/// A line inside of an HTML comment that it does not close holds no reference, and leaves the
/// comment open.
pub proof fn law_comment_line_holds_no_targets(line: Seq<char>)
    requires
        find_from(line, 0, seq!['-', '-', '>']) is None,
    ensures
        segments_from(line, 0, true) == (Seq::<Seq<char>>::empty(), true),
{
}

/// What stands outside of HTML comments opens none: no segment is empty, and none holds `<!--`.
pub proof fn law_segments_hold_no_comment(s: Seq<char>, k: int, inside: bool)
    requires
        0 <= k,
    ensures
        forall|i: int|
            0 <= i < segments_from(s, k, inside).0.len() ==> {
                &&& (#[trigger] segments_from(s, k, inside).0[i]).len() > 0
                &&& find_from(segments_from(s, k, inside).0[i], 0, seq!['<', '!', '-', '-']) is None
            },
    decreases s.len() - k,
{
    let opening = seq!['<', '!', '-', '-'];
    let segments = segments_from(s, k, inside).0;
    if k < s.len() {
        if inside {
            lemma_find_from(s, k, seq!['-', '-', '>']);
            if let Some(end) = find_from(s, k, seq!['-', '-', '>']) {
                law_segments_hold_no_comment(s, end + 3, false);
            }
        } else {
            lemma_find_from(s, k, opening);
            match find_from(s, k, opening) {
                Some(start) => {
                    law_segments_hold_no_comment(s, start + 4, true);
                    let rest = segments_from(s, start + 4, true).0;
                    if k < start {
                        lemma_part_without(s, k, start, opening);
                        assert forall|i: int| 0 <= i < segments.len() implies (
                        #[trigger] segments[i]).len() > 0 && find_from(
                            segments[i],
                            0,
                            opening,
                        ) is None by {
                            if i > 0 {
                                assert(segments[i] == rest[i - 1]);
                            }
                        }
                    }
                },
                None => {
                    assert(s.skip(k) =~= s.subrange(k, s.len() as int));
                    lemma_part_without(s, k, s.len() as int, opening);
                },
            }
        }
    }
}

/// A part of a text holds no pattern that begins nowhere in it.
proof fn lemma_part_without(s: Seq<char>, from: int, to: int, pat: Seq<char>)
    requires
        0 <= from <= to <= s.len(),
        forall|j: int| from <= j < to ==> !stands_at(s, j, pat),
        pat.len() > 0,
    ensures
        find_from(s.subrange(from, to), 0, pat) is None,
{
    let part = s.subrange(from, to);
    lemma_find_from(part, 0, pat);
    if let Some(i) = find_from(part, 0, pat) {
        assert(s.subrange(from + i, from + i + pat.len()) =~= part.subrange(i, i + pat.len()));
        assert(stands_at(s, from + i, pat));
    }
}

/// The code fence that is open after `lines`, and whether an HTML comment is.
pub open spec fn state_after_lines(
    lines: Seq<Seq<char>>,
    fence: Option<char>,
    inside: bool,
) -> (Option<char>, bool)
    decreases lines.len(),
{
    if lines.len() == 0 {
        (fence, inside)
    } else {
        let rest = lines.drop_first();
        match fence_of(lines[0]) {
            Some(marker) => state_after_lines(rest, fence_after(fence, marker), inside),
            None => if fence is Some {
                state_after_lines(rest, fence, inside)
            } else {
                state_after_lines(rest, fence, segments_from(lines[0], 0, inside).1)
            },
        }
    }
}

/// The references of lines, and then of others, are those of the former and then those of the
/// latter, looked at with the fence and the comment that the former leave open.
pub proof fn law_line_targets_distribute(
    a: Seq<Seq<char>>,
    b: Seq<Seq<char>>,
    fence: Option<char>,
    inside: bool,
)
    ensures
        targets_in_lines(a + b, fence, inside) == targets_in_lines(a, fence, inside)
            + targets_in_lines(
            b,
            state_after_lines(a, fence, inside).0,
            state_after_lines(a, fence, inside).1,
        ),
    decreases a.len(),
{
    let all = a + b;
    if a.len() == 0 {
        assert(all =~= b);
        assert(Seq::<Seq<char>>::empty() + targets_in_lines(b, fence, inside) =~= targets_in_lines(
            b,
            fence,
            inside,
        ));
    } else {
        let rest = a.drop_first();
        assert(all[0] == a[0]);
        assert(all.drop_first() =~= rest + b);
        match fence_of(a[0]) {
            Some(marker) => law_line_targets_distribute(
                rest,
                b,
                fence_after(fence, marker),
                inside,
            ),
            None => if fence is Some {
                law_line_targets_distribute(rest, b, fence, inside);
            } else {
                let (segments, open) = segments_from(a[0], 0, inside);
                law_line_targets_distribute(rest, b, fence, open);
                let (after, still) = state_after_lines(rest, fence, open);
                let here = targets_in_segments(segments);
                let mine = targets_in_lines(rest, fence, open);
                let theirs = targets_in_lines(b, after, still);
                assert(here + (mine + theirs) =~= (here + mine) + theirs);
            },
        }
    }
}

/// A text that ends with a line break, and leaves neither a code fence nor an HTML comment open,
/// can be put before another: the references of the two together are those of the one and then
/// those of the other.
pub proof fn law_references_distribute(a: Seq<char>, b: Seq<char>)
    requires
        a.len() > 0 ==> a.last() == '\n',
        state_after_lines(lines_of(a), None, false) == (None::<char>, false),
    ensures
        reference_targets(a + b) == reference_targets(a) + reference_targets(b),
{
    law_lines_distribute(a, b);
    law_line_targets_distribute(lines_of(a), lines_of(b), None, false);
}

/// What stands outside of comments from some place on depends on the rest of the text alone.
pub proof fn law_segments_of_rest(s: Seq<char>, k: int, j: int, inside: bool)
    requires
        0 <= k <= s.len(),
        0 <= j,
    ensures
        segments_from(s, k + j, inside) == segments_from(s.skip(k), j, inside),
    decreases s.len() - k - j,
{
    let rest = s.skip(k);
    if k + j < s.len() {
        if inside {
            let closing = seq!['-', '-', '>'];
            lemma_find_in_rest(s, k, j, closing);
            lemma_find_from(rest, j, closing);
            if let Some(end) = find_from(rest, j, closing) {
                law_segments_of_rest(s, k, end + 3, false);
            }
        } else {
            let opening = seq!['<', '!', '-', '-'];
            lemma_find_in_rest(s, k, j, opening);
            lemma_find_from(rest, j, opening);
            match find_from(rest, j, opening) {
                Some(start) => {
                    law_segments_of_rest(s, k, start + 4, true);
                    assert(s.subrange(k + j, k + start) =~= rest.subrange(j, start));
                },
                None => {
                    assert(s.skip(k + j) =~= rest.skip(j));
                },
            }
        }
    }
}

/// An HTML comment is cut out of a line: what stands before it is one segment, unless it is empty,
/// and what stands behind it is looked at for itself. The comment begins with the first `<!--` of
/// the line, and ends with the first `-->` behind that.
pub proof fn law_comment_is_cut_out(before: Seq<char>, comment: Seq<char>, after: Seq<char>)
    requires
        find_from(before + seq!['<', '!', '-', '-'], 0, seq!['<', '!', '-', '-']) == Some(
            before.len() as int,
        ),
        find_from(comment + seq!['-', '-', '>'], 0, seq!['-', '-', '>']) == Some(
            comment.len() as int,
        ),
    ensures
        ({
            let line = before + seq!['<', '!', '-', '-'] + comment + seq!['-', '-', '>'] + after;
            let (rest, open) = segments_from(after, 0, false);
            segments_from(line, 0, false) == (
                if before.len() > 0 {
                    seq![before] + rest
                } else {
                    rest
                },
                open,
            )
        }),
{
    let opening = seq!['<', '!', '-', '-'];
    let closing = seq!['-', '-', '>'];
    let line = before + opening + comment + closing + after;
    let start = before.len() as int;
    let inner = start + 4;
    let end = inner + comment.len();
    let head = before + opening;
    let body = comment + closing;
    lemma_find_from(head, 0, opening);
    assert forall|j: int| 0 <= j <= start implies stands_at(line, j, opening) == stands_at(
        head,
        j,
        opening,
    ) by {
        assert(line.subrange(j, j + 4) =~= head.subrange(j, j + 4));
    }
    lemma_found_at(line, 0, opening, start);
    lemma_find_from(body, 0, closing);
    assert forall|j: int| inner <= j <= end implies stands_at(line, j, closing) == stands_at(
        body,
        j - inner,
        closing,
    ) by {
        assert(line.subrange(j, j + 3) =~= body.subrange(j - inner, j - inner + 3));
    }
    assert(stands_at(body, end - inner, closing));
    assert forall|j: int| inner <= j < end implies !stands_at(line, j, closing) by {
        assert(!stands_at(body, j - inner, closing));
    }
    lemma_found_at(line, inner, closing, end);
    assert(line.skip(end + 3) =~= after);
    law_segments_of_rest(line, end + 3, 0, false);
    assert(line.subrange(0, start) =~= before);
    reveal_with_fuel(segments_from, 3);
}

} // verus!
