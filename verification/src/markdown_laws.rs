//! What the references in a Markdown text are, seen from how they are written.

use vstd::prelude::*;
use crate::markdown::{
    after_inline_code, at_reference_start, fence_of, is_closing_punctuation, law_fenced_lines_pass,
    law_segments_of_rest, lemma_after_inline_code, lemma_raw_target, lemma_run_length, names_target,
    raw_target, reference_at, reference_targets, run_length, segments_from, state_after_lines,
    targets_from, targets_in_lines, targets_in_segments, without_closing_punctuation,
};
use crate::paths::{
    law_reference_leads_somewhere, law_references_lead_on_their_own, relative_paths,
};
use crate::stdlib::unicode_alphanumeric;
use crate::text::{
    find_from, is_white_space, law_line_is_kept, law_trimmed_start_of, lemma_find_from,
    lemma_find_in_rest, lemma_found_at, lines_of, stands_at,
};

verus! {

/// How a target is written: a backslash stands before every white space character of it.
pub open spec fn escaped(target: Seq<char>) -> Seq<char>
    decreases target.len(),
{
    if target.len() == 0 {
        Seq::empty()
    } else {
        let rest = escaped(target.drop_first());
        if is_white_space(target[0]) {
            seq!['\\', target[0]] + rest
        } else {
            seq![target[0]] + rest
        }
    }
}

/// Whether a name can begin with `c`.
pub open spec fn starts_a_name(c: char) -> bool {
    ||| 'a' <= c <= 'z'
    ||| 'A' <= c <= 'Z'
    ||| '0' <= c <= '9'
    ||| c as u32 > 0x7f && unicode_alphanumeric(c)
    ||| seq!['.', '/', '\\', '~', '_', '-'].contains(c)
}

/// Whether `c` closes a sentence, a bracket or a quotation.
pub open spec fn closes(c: char) -> bool {
    seq!['.', ',', ';', ':', '!', '?', ')', ']', '}', '"', '\''].contains(c)
}

/// Whether a new word begins behind `before`: there is nothing, or white space that no backslash
/// makes part of a word; and no inline code.
pub open spec fn ends_a_word(before: Seq<char>) -> bool {
    &&& before.len() > 0 ==> is_white_space(before.last())
    &&& before.len() > 1 ==> before[before.len() - 2] != '\\'
    &&& !before.contains('`')
}

/// Whether a word ends before `after`.
pub open spec fn begins_behind_a_word(after: Seq<char>) -> bool {
    after.len() > 0 ==> is_white_space(after[0])
}

proof fn lemma_marks(c: char)
    ensures
        is_closing_punctuation(c) == closes(c),
{
    let marks = seq!['.', ',', ';', ':', '!', '?', ')', ']', '}', '"', '\''];
    if closes(c) {
        let i = choose|i: int| 0 <= i < marks.len() && marks[i] == c;
        assert(marks[i] == c);
    }
    if is_closing_punctuation(c) {
        assert(marks[0] == '.' && marks[1] == ',' && marks[2] == ';' && marks[3] == ':');
        assert(marks[4] == '!' && marks[5] == '?' && marks[6] == ')' && marks[7] == ']');
        assert(marks[8] == '}' && marks[9] == '"' && marks[10] == '\'');
    }
}

/// A target names something if and only if it begins like a name; what follows does not matter.
pub proof fn law_names_begin_like_names(target: Seq<char>)
    ensures
        names_target(target) <==> target.len() > 0 && starts_a_name(target[0]),
{
    let signs = seq!['.', '/', '\\', '~', '_', '-'];
    if target.len() > 0 {
        let c = target[0];
        if signs.contains(c) {
            let i = choose|i: int| 0 <= i < signs.len() && signs[i] == c;
            assert(signs[i] == c);
        }
        assert(signs[0] == '.' && signs[1] == '/' && signs[2] == '\\');
        assert(signs[3] == '~' && signs[4] == '_' && signs[5] == '-');
    }
}

proof fn lemma_without_closing(target: Seq<char>, marks: Seq<char>)
    requires
        target.len() > 0 ==> !closes(target.last()),
        forall|i: int| 0 <= i < marks.len() ==> closes(#[trigger] marks[i]),
    ensures
        without_closing_punctuation(target + marks) == target,
    decreases marks.len(),
{
    let all = target + marks;
    if marks.len() == 0 {
        assert(all =~= target);
        if target.len() > 0 {
            lemma_marks(target.last());
        }
    } else {
        lemma_marks(marks.last());
        assert(all.last() == marks.last());
        assert(all.drop_last() =~= target + marks.drop_last());
        lemma_without_closing(target, marks.drop_last());
    }
}

proof fn lemma_escaped_plain(marks: Seq<char>)
    requires
        forall|i: int| 0 <= i < marks.len() ==> !is_white_space(#[trigger] marks[i]),
    ensures
        escaped(marks) == marks,
    decreases marks.len(),
{
    if marks.len() > 0 {
        lemma_escaped_plain(marks.drop_first());
        assert(seq![marks[0]] + marks.drop_first() =~= marks);
    } else {
        assert(escaped(marks) =~= marks);
    }
}

proof fn lemma_escaped_concat(a: Seq<char>, b: Seq<char>)
    ensures
        escaped(a + b) == escaped(a) + escaped(b),
    decreases a.len(),
{
    if a.len() == 0 {
        assert(a + b =~= b);
        assert(escaped(a) + escaped(b) =~= escaped(b));
    } else {
        lemma_escaped_concat(a.drop_first(), b);
        assert((a + b).drop_first() =~= a.drop_first() + b);
        assert(escaped(a + b) =~= escaped(a) + escaped(b));
    }
}

proof fn lemma_raw_of_escaped(s: Seq<char>, k: int, target: Seq<char>)
    requires
        0 <= k,
        k + escaped(target).len() <= s.len(),
        s.subrange(k, k + escaped(target).len()) == escaped(target),
        k + escaped(target).len() < s.len() ==> is_white_space(s[k + escaped(target).len()]),
        target.len() > 0 && target.last() == '\\' ==> k + escaped(target).len() == s.len(),
    ensures
        raw_target(s, k) == (target, k + escaped(target).len()),
    decreases target.len(),
{
    let written = escaped(target);
    let part = s.subrange(k, k + written.len());
    if target.len() == 0 {
        assert(raw_target(s, k).0 =~= target);
    } else {
        let rest = target.drop_first();
        let tail = escaped(rest);
        if rest.len() > 0 {
            assert(rest.last() == target.last());
        }
        if is_white_space(target[0]) {
            assert(s[k] == part[0]);
            assert(s[k + 1] == part[1]);
            assert(s.subrange(k + 2, k + 2 + tail.len()) =~= tail) by {
                assert forall|i: int| 0 <= i < tail.len() implies s[k + 2 + i] == tail[i] by {
                    assert(s[k + 2 + i] == part[2 + i]);
                }
            }
            lemma_raw_of_escaped(s, k + 2, rest);
        } else {
            assert(s[k] == part[0]);
            assert(s.subrange(k + 1, k + 1 + tail.len()) =~= tail) by {
                assert forall|i: int| 0 <= i < tail.len() implies s[k + 1 + i] == tail[i] by {
                    assert(s[k + 1 + i] == part[1 + i]);
                }
            }
            if target[0] == '\\' && k + 1 < s.len() {
                if rest.len() > 0 {
                    assert(s[k + 1] == part[1]);
                    assert(tail[0] == part[1]);
                } else {
                    assert(target.last() == '\\');
                }
                assert(!is_white_space(s[k + 1]));
            }
            lemma_raw_of_escaped(s, k + 1, rest);
        }
        assert(seq![target[0]] + rest =~= target);
    }
}

proof fn lemma_raw_before(a: Seq<char>, b: Seq<char>, k: int)
    requires
        ends_a_word(a),
        0 <= k < a.len(),
    ensures
        raw_target(a + b, k) == raw_target(a, k),
        k <= raw_target(a, k).1 < a.len(),
    decreases a.len() - k,
{
    let s = a + b;
    assert(s[k] == a[k]);
    if k + 1 < a.len() {
        assert(s[k + 1] == a[k + 1]);
        if s[k] == '\\' && is_white_space(s[k + 1]) {
            assert(k + 2 < a.len());
            lemma_raw_before(a, b, k + 2);
        } else if !is_white_space(s[k]) {
            lemma_raw_before(a, b, k + 1);
        }
    }
}

proof fn lemma_targets_before(a: Seq<char>, b: Seq<char>, k: int)
    requires
        ends_a_word(a),
        0 <= k <= a.len(),
    ensures
        targets_from(a + b, k) == targets_from(a, k) + targets_from(a + b, a.len() as int),
    decreases a.len() - k,
{
    let s = a + b;
    let behind = targets_from(s, a.len() as int);
    if k == a.len() {
        assert(Seq::<Seq<char>>::empty() + behind =~= behind);
    } else {
        assert(s[k] == a[k]);
        assert(a.contains(a[k]));
        assert(k > 0 ==> s[k - 1] == a[k - 1]);
        assert(at_reference_start(s, k) == at_reference_start(a, k));
        if a[k] == '@' && k + 1 < a.len() {
            lemma_raw_before(a, b, k + 1);
        }
        if a[k] == '@' && k + 1 == a.len() {
            assert(!is_white_space('@'));
        }
        if s[k] == '@' && at_reference_start(s, k) && reference_at(s, k + 1) is Some {
            let (target, end) = reference_at(s, k + 1)->0;
            lemma_targets_before(a, b, end);
            assert(seq![target] + (targets_from(a, end) + behind) =~= (seq![target]
                + targets_from(a, end)) + behind);
        } else {
            lemma_targets_before(a, b, k + 1);
        }
    }
}

proof fn lemma_raw_behind(s: Seq<char>, k: int, j: int)
    requires
        0 <= k <= s.len(),
        0 <= j,
    ensures
        raw_target(s, k + j).0 == raw_target(s.skip(k), j).0,
        raw_target(s, k + j).1 == k + raw_target(s.skip(k), j).1,
    decreases s.len() - k - j,
{
    if k + j < s.len() {
        lemma_raw_behind(s, k, j + 1);
        if k + j + 1 < s.len() {
            lemma_raw_behind(s, k, j + 2);
        }
    }
}

proof fn lemma_run_behind(s: Seq<char>, k: int, j: int, c: char)
    requires
        0 <= k <= s.len(),
        0 <= j,
    ensures
        run_length(s, k + j, c) == run_length(s.skip(k), j, c),
    decreases s.len() - k - j,
{
    if k + j < s.len() {
        lemma_run_behind(s, k, j + 1, c);
    }
}

proof fn lemma_code_behind(s: Seq<char>, k: int, j: int)
    requires
        0 <= k <= s.len(),
        0 <= j,
        k + j < s.len(),
    ensures
        after_inline_code(s, k + j) == k + after_inline_code(s.skip(k), j),
{
    let rest = s.skip(k);
    lemma_run_behind(s, k, j, '`');
    lemma_run_length(rest, j, '`');
    let n = run_length(rest, j, '`');
    assert(s.subrange(k + j, k + j + n) =~= rest.subrange(j, j + n));
    lemma_find_in_rest(s, k, j + n, rest.subrange(j, j + n));
}

proof fn lemma_targets_behind(s: Seq<char>, k: int, j: int)
    requires
        0 <= k <= s.len(),
        0 <= j,
        j == 0 && 0 < k < s.len() && s[k] == '@' ==> is_white_space(s[k - 1]),
    ensures
        targets_from(s, k + j) == targets_from(s.skip(k), j),
    decreases s.len() - k - j,
{
    let rest = s.skip(k);
    if k + j < s.len() {
        assert(rest[j] == s[k + j]);
        if s[k + j] == '`' {
            lemma_after_inline_code(rest, j);
            lemma_code_behind(s, k, j);
            lemma_targets_behind(s, k, after_inline_code(rest, j));
        } else {
            assert(s[k + j] == '@' ==> at_reference_start(s, k + j) == at_reference_start(rest, j));
            lemma_raw_behind(s, k, j + 1);
            lemma_raw_target(rest, j + 1);
            let found = reference_at(rest, j + 1);
            if s[k + j] == '@' && at_reference_start(s, k + j) && found is Some {
                let (target, end) = found->0;
                lemma_targets_behind(s, k, end);
            } else {
                lemma_targets_behind(s, k, j + 1);
            }
        }
    }
}

/// What is written as a reference is one, and leads to what was written: behind the start of the
/// line or white space, an `@` and a target that begins like a name and does not end with closing
/// punctuation, in which white space is escaped, give exactly that target, whatever characters it
/// holds. Closing punctuation behind it does not belong to it, and what stands before and behind
/// it gives what it gives by itself.
pub proof fn law_reference_is_found(
    before: Seq<char>,
    target: Seq<char>,
    marks: Seq<char>,
    after: Seq<char>,
)
    requires
        ends_a_word(before),
        target.len() > 0,
        starts_a_name(target[0]),
        !closes(target.last()),
        forall|i: int| 0 <= i < marks.len() ==> closes(#[trigger] marks[i]),
        begins_behind_a_word(after),
        target.last() == '\\' ==> marks.len() > 0 || after.len() == 0,
    ensures
        targets_from(before + seq!['@'] + escaped(target) + marks + after, 0) == targets_from(
            before,
            0,
        ) + seq![target] + targets_from(after, 0),
        reference_at(
            before + seq!['@'] + escaped(target) + marks + after,
            before.len() as int + 1,
        ) == Some((target, before.len() as int + 1 + escaped(target).len() + marks.len())),
{
    let line = before + seq!['@'] + escaped(target) + marks + after;
    let k = before.len() as int;
    let rest = seq!['@'] + escaped(target) + marks + after;
    assert(line =~= before + rest);
    lemma_targets_before(before, rest, 0);
    let whole = target + marks;
    assert forall|i: int| 0 <= i < marks.len() implies !is_white_space(#[trigger] marks[i])
        && marks[i] != '\\' by {
        lemma_marks(marks[i]);
    }
    lemma_escaped_plain(marks);
    lemma_escaped_concat(target, marks);
    let written = escaped(whole);
    let end = k + 1 + written.len();
    assert(line.subrange(k + 1, end) =~= written);
    assert(after.len() > 0 ==> line[end] == after[0]);
    assert(whole.last() == if marks.len() > 0 {
        marks.last()
    } else {
        target.last()
    });
    lemma_raw_of_escaped(line, k + 1, whole);
    lemma_without_closing(target, marks);
    law_names_begin_like_names(target);
    assert(line[k] == '@');
    assert(k > 0 ==> line[k - 1] == before.last());
    assert(reference_at(line, k + 1) == Some((target, end)));
    assert(line.skip(end) =~= after);
    assert(after.len() > 0 ==> after[0] != '@');
    lemma_targets_behind(line, end, 0);
    assert(targets_from(line, k) == seq![target] + targets_from(after, 0));
    assert(targets_from(before, 0) + (seq![target] + targets_from(after, 0)) =~= targets_from(
        before,
        0,
    ) + seq![target] + targets_from(after, 0));
}

proof fn lemma_walk_through_word(line: Seq<char>, from: int, to: int)
    requires
        0 < from <= to <= line.len(),
        forall|i: int| from - 1 <= i < to ==> !is_white_space(#[trigger] line[i]),
        forall|i: int| from <= i < to ==> #[trigger] line[i] != '`',
    ensures
        targets_from(line, from) == targets_from(line, to),
    decreases to - from,
{
    if from < to {
        assert(!is_white_space(line[from - 1]));
        assert(line[from] != '`');
        lemma_walk_through_word(line, from + 1, to);
    }
}

/// A word that does not begin with an `@` is no reference, whatever it holds, an `@` included.
pub proof fn law_word_is_no_reference(before: Seq<char>, word: Seq<char>, after: Seq<char>)
    requires
        ends_a_word(before),
        word.len() > 0,
        word[0] != '@',
        forall|i: int|
            0 <= i < word.len() ==> !is_white_space(#[trigger] word[i]) && word[i] != '`',
        begins_behind_a_word(after),
    ensures
        targets_from(before + word + after, 0) == targets_from(before, 0) + targets_from(after, 0),
{
    let line = before + word + after;
    let k = before.len() as int;
    let end = k + word.len();
    assert(line =~= before + (word + after));
    lemma_targets_before(before, word + after, 0);
    assert forall|i: int| k <= i < end implies !is_white_space(#[trigger] line[i]) && line[i]
        != '`' by {
        assert(line[i] == word[i - k]);
    }
    assert(line[k] == word[0]);
    lemma_walk_through_word(line, k + 1, end);
    assert(line.skip(end) =~= after);
    lemma_targets_behind(line, end, 0);
}

/// An `@` behind which nothing stands that begins like a name is no reference.
pub proof fn law_word_names_nothing(
    before: Seq<char>,
    word: Seq<char>,
    marks: Seq<char>,
    after: Seq<char>,
)
    requires
        ends_a_word(before),
        forall|i: int|
            0 <= i < word.len() ==> !is_white_space(#[trigger] word[i]) && word[i] != '`',
        word.len() > 0 ==> !starts_a_name(word[0]) && !closes(word.last()) && (word.last() == '\\'
            ==> marks.len() > 0 || after.len() == 0),
        forall|i: int| 0 <= i < marks.len() ==> closes(#[trigger] marks[i]),
        begins_behind_a_word(after),
    ensures
        targets_from(before + seq!['@'] + word + marks + after, 0) == targets_from(before, 0)
            + targets_from(after, 0),
{
    let whole = word + marks;
    let line = before + seq!['@'] + word + marks + after;
    let k = before.len() as int;
    let end = k + 1 + whole.len();
    let rest = seq!['@'] + word + marks + after;
    assert(line =~= before + rest);
    lemma_targets_before(before, rest, 0);
    assert(line[k] == '@');
    assert(line.subrange(k + 1, end) =~= whole);
    assert(after.len() > 0 ==> line[end] == after[0]);
    assert(end < line.len() ==> after.len() > 0);
    lemma_names_nothing(line, k + 1, word, marks);
    assert forall|i: int| k + 1 <= i < end implies !is_white_space(#[trigger] line[i]) && line[i]
        != '`' by {
        assert(line[i] == line.subrange(k + 1, end)[i - k - 1]);
        lemma_plain_word(word, marks, i - k - 1);
    }
    lemma_walk_through_word(line, k + 1, end);
    assert(line.skip(end) =~= after);
    lemma_targets_behind(line, end, 0);
}

proof fn lemma_plain_word(word: Seq<char>, marks: Seq<char>, i: int)
    requires
        forall|j: int|
            0 <= j < word.len() ==> !is_white_space(#[trigger] word[j]) && word[j] != '`',
        forall|j: int| 0 <= j < marks.len() ==> closes(#[trigger] marks[j]),
        0 <= i < word.len() + marks.len(),
    ensures
        !is_white_space((word + marks)[i]),
        (word + marks)[i] != '`',
        i >= word.len() ==> (word + marks)[i] != '\\',
{
    if i >= word.len() {
        lemma_marks(marks[i - word.len()]);
    }
}

proof fn lemma_names_nothing(line: Seq<char>, k: int, word: Seq<char>, marks: Seq<char>)
    requires
        0 <= k,
        forall|i: int|
            0 <= i < word.len() ==> !is_white_space(#[trigger] word[i]) && word[i] != '`',
        forall|i: int| 0 <= i < marks.len() ==> closes(#[trigger] marks[i]),
        word.len() > 0 ==> !starts_a_name(word[0]) && !closes(word.last()),
        k + (word + marks).len() <= line.len(),
        line.subrange(k, k + (word + marks).len()) == word + marks,
        k + (word + marks).len() < line.len() ==> is_white_space(line[k + (word + marks).len()]),
        word.len() > 0 && word.last() == '\\' ==> marks.len() > 0 || k + (word + marks).len()
            == line.len(),
    ensures
        reference_at(line, k) is None,
{
    let whole = word + marks;
    assert forall|i: int| 0 <= i < whole.len() implies !is_white_space(#[trigger] whole[i]) by {
        lemma_plain_word(word, marks, i);
    }
    lemma_escaped_plain(whole);
    if whole.len() > 0 {
        lemma_plain_word(word, marks, whole.len() - 1);
        assert(marks.len() == 0 ==> whole.last() == word.last());
    }
    lemma_raw_of_escaped(line, k, whole);
    lemma_without_closing(word, marks);
    law_names_begin_like_names(word);
}

/// Whether `word` is the part of a word before inline code in which no reference begins: it does
/// not begin with an `@`, or nothing that begins like a name stands behind the `@`.
pub open spec fn begins_no_reference(word: Seq<char>) -> bool {
    &&& forall|i: int|
        0 <= i < word.len() ==> !is_white_space(#[trigger] word[i]) && word[i] != '`'
    &&& word.len() > 1 && word[0] == '@' ==> !starts_a_name(word[1])
}

proof fn lemma_without_closing_prefix(s: Seq<char>)
    ensures
        without_closing_punctuation(s).is_prefix_of(s),
    decreases s.len(),
{
    if s.len() > 0 && is_closing_punctuation(s.last()) {
        lemma_without_closing_prefix(s.drop_last());
    }
}

proof fn lemma_no_name_no_reference(s: Seq<char>, k: int)
    requires
        0 <= k < s.len(),
        !starts_a_name(s[k]),
        !is_white_space(s[k]),
    ensures
        reference_at(s, k) is None,
{
    assert(seq!['.', '/', '\\', '~', '_', '-'][2] == '\\');
    let raw = raw_target(s, k).0;
    assert(raw[0] == s[k]);
    lemma_without_closing_prefix(raw);
    law_names_begin_like_names(without_closing_punctuation(raw));
}

proof fn lemma_walk_to_code(line: Seq<char>, k: int, word: Seq<char>)
    requires
        0 <= k,
        begins_no_reference(word),
        k + word.len() < line.len(),
        line[k + word.len()] == '`',
        forall|i: int| 0 <= i < word.len() ==> line[k + i] == #[trigger] word[i],
    ensures
        targets_from(line, k) == targets_from(line, k + word.len()),
{
    if word.len() > 0 {
        let end = k + word.len();
        assert(line[k] == word[0]);
        if word[0] == '@' {
            if word.len() > 1 {
                assert(line[k + 1] == word[1]);
            } else {
                assert(!starts_a_name('`')) by {
                    let signs = seq!['.', '/', '\\', '~', '_', '-'];
                    if signs.contains('`') {
                        let i = choose|i: int| 0 <= i < signs.len() && signs[i] == '`';
                        assert(signs[i] == '`');
                    }
                }
            }
            lemma_no_name_no_reference(line, k + 1);
        }
        assert forall|i: int| k <= i < end implies !is_white_space(#[trigger] line[i]) && line[i]
            != '`' by {
            assert(line[k + (i - k)] == word[i - k]);
        }
        lemma_walk_through_word(line, k + 1, end);
    }
}

proof fn lemma_targets_of_same_rest(s: Seq<char>, k: int, t: Seq<char>, l: int)
    requires
        0 < k <= s.len(),
        0 < l <= t.len(),
        s.skip(k) == t.skip(l),
        is_white_space(s[k - 1]) == is_white_space(t[l - 1]),
    ensures
        targets_from(s, k) == targets_from(t, l),
{
    let rest = s.skip(k);
    if rest.len() > 0 {
        assert(rest[0] == s[k]);
        assert(rest[0] == t[l]);
        if s[k] != '@' || is_white_space(s[k - 1]) {
            lemma_targets_behind(s, k, 0);
            lemma_targets_behind(t, l, 0);
        } else {
            lemma_targets_behind(s, k, 1);
            lemma_targets_behind(t, l, 1);
        }
    }
}

/// Backticks in a row.
pub open spec fn backticks(n: nat) -> Seq<char> {
    Seq::new(n, |i: int| '`')
}

proof fn lemma_run_of_backticks(line: Seq<char>, k: int, n: int)
    requires
        0 <= k,
        0 <= n,
        k + n <= line.len(),
        forall|i: int| k <= i < k + n ==> #[trigger] line[i] == '`',
        k + n < line.len() ==> line[k + n] != '`',
    ensures
        run_length(line, k, '`') == n,
    decreases n,
{
    if n > 0 {
        assert(line[k] == '`');
        lemma_run_of_backticks(line, k + 1, n - 1);
    }
}

/// Inline code holds no reference: backticks, and what stands between them and the next occurrence
/// of as many, count for nothing. What stands behind gives what it gives behind a letter: an `@`
/// right behind the code begins no reference.
pub proof fn law_inline_code_is_skipped(
    before: Seq<char>,
    word: Seq<char>,
    n: nat,
    code: Seq<char>,
    after: Seq<char>,
)
    requires
        ends_a_word(before),
        begins_no_reference(word),
        n > 0,
        code.len() > 0,
        code[0] != '`',
        find_from(code + backticks(n), 0, backticks(n)) == Some(code.len() as int),
    ensures
        targets_from(before + word + backticks(n) + code + backticks(n) + after, 0)
            == targets_from(before, 0) + targets_from(seq!['x'] + after, 0),
        after.len() > 0 && after[0] != '@' ==> targets_from(seq!['x'] + after, 0) == targets_from(
            after,
            0,
        ),
        after_inline_code(
            before + word + backticks(n) + code + backticks(n) + after,
            (before.len() + word.len()) as int,
        ) == before.len() + word.len() + n + code.len() + n,
{
    let ticks = backticks(n);
    let line = before + word + ticks + code + ticks + after;
    let k = (before.len() + word.len()) as int;
    let inner = k + n;
    let end = inner + code.len();
    assert(line =~= before + (word + ticks + code + ticks + after));
    lemma_targets_before(before, word + ticks + code + ticks + after, 0);
    assert(line[k] == ticks[0]);
    lemma_walk_to_code(line, before.len() as int, word);
    assert forall|i: int| k <= i < inner implies #[trigger] line[i] == '`' by {
        assert(line[i] == ticks[i - k]);
    }
    assert(line[inner] == code[0]);
    assert(line[k] == '`');
    lemma_run_of_backticks(line, k, n as int);
    assert(line.subrange(k, inner) =~= ticks);
    let closed = code + ticks;
    lemma_find_from(closed, 0, ticks);
    assert forall|j: int| inner <= j <= end implies stands_at(line, j, ticks) == stands_at(
        closed,
        j - inner,
        ticks,
    ) by {
        assert(line.subrange(j, j + n) =~= closed.subrange(j - inner, j - inner + n));
    }
    assert(stands_at(closed, end - inner, ticks));
    assert forall|j: int| inner <= j < end implies !stands_at(line, j, ticks) by {
        assert(!stands_at(closed, j - inner, ticks));
    }
    lemma_found_at(line, inner, ticks, end);
    assert(after_inline_code(line, k) == end + n);
    let letter = seq!['x'] + after;
    assert(line.skip(end + n) =~= after);
    assert(letter.skip(1) =~= after);
    assert(line[end + n - 1] == ticks[n - 1]);
    lemma_targets_of_same_rest(line, end + n, letter, 1);
    assert(targets_from(letter, 0) == targets_from(letter, 1));
    if after.len() > 0 && after[0] != '@' {
        lemma_targets_behind(letter, 1, 0);
    }
}

/// Backticks that do not occur again leave nothing to look at in the rest of the line.
pub proof fn law_unclosed_code_hides_the_rest(
    before: Seq<char>,
    word: Seq<char>,
    n: nat,
    rest: Seq<char>,
)
    requires
        ends_a_word(before),
        begins_no_reference(word),
        n > 0,
        rest.len() > 0 ==> rest[0] != '`',
        find_from(rest, 0, backticks(n)) is None,
    ensures
        targets_from(before + word + backticks(n) + rest, 0) == targets_from(before, 0),
        after_inline_code(
            before + word + backticks(n) + rest,
            (before.len() + word.len()) as int,
        ) == before.len() + word.len() + n + rest.len(),
{
    let ticks = backticks(n);
    let line = before + word + ticks + rest;
    let k = (before.len() + word.len()) as int;
    let inner = k + n;
    assert(line =~= before + (word + ticks + rest));
    lemma_targets_before(before, word + ticks + rest, 0);
    assert(line[k] == ticks[0]);
    lemma_walk_to_code(line, before.len() as int, word);
    assert forall|i: int| k <= i < inner implies #[trigger] line[i] == '`' by {
        assert(line[i] == ticks[i - k]);
    }
    assert(rest.len() > 0 ==> line[inner] == rest[0]);
    assert(line[k] == '`');
    lemma_run_of_backticks(line, k, n as int);
    assert(line.subrange(k, inner) =~= ticks);
    assert(line.skip(inner) =~= rest);
    lemma_find_in_rest(line, inner, 0, ticks);
    assert(after_inline_code(line, k) == line.len());
    assert(targets_from(line, line.len() as int) =~= Seq::empty());
    assert(targets_from(line, k) == targets_from(line, line.len() as int));
    assert(targets_from(before, 0) + Seq::<Seq<char>>::empty() =~= targets_from(before, 0));
}

/// Where no backtick stands, there is no code to skip.
pub proof fn law_no_code_to_skip(s: Seq<char>, k: int)
    requires
        0 <= k <= s.len(),
        k < s.len() ==> s[k] != '`',
    ensures
        after_inline_code(s, k) == k,
{
    assert(s.subrange(k, k) =~= Seq::empty());
}

/// An `@` can begin a reference at the start of a line and behind white space, and nowhere else.
pub proof fn law_where_references_begin(line: Seq<char>, k: int)
    ensures
        at_reference_start(line, 0),
        0 < k <= line.len() ==> at_reference_start(line, k) == is_white_space(line[k - 1]),
{
}

/// A line begins a code fence if and only if three backticks or three tildes stand first in it,
/// behind any white space.
pub proof fn law_fence_stands_first(space: Seq<char>, rest: Seq<char>)
    requires
        forall|i: int| 0 <= i < space.len() ==> is_white_space(#[trigger] space[i]),
        rest.len() > 0 ==> !is_white_space(rest[0]),
    ensures
        fence_of(space + rest) == Some('`') <==> rest.len() >= 3 && rest[0] == '`' && rest[1] == '`'
            && rest[2] == '`',
        fence_of(space + rest) == Some('~') <==> rest.len() >= 3 && rest[0] == '~' && rest[1] == '~'
            && rest[2] == '~',
        fence_of(space + rest) matches Some(marker) ==> marker == '`' || marker == '~',
{
    law_trimmed_start_of(space, rest);
    if rest.len() >= 3 {
        let first = rest.subrange(0, 3);
        assert(first[0] == rest[0] && first[1] == rest[1] && first[2] == rest[2]);
        if rest[0] == '`' && rest[1] == '`' && rest[2] == '`' {
            assert(first =~= seq!['`', '`', '`']);
        }
        if rest[0] == '~' && rest[1] == '~' && rest[2] == '~' {
            assert(first =~= seq!['~', '~', '~']);
        }
    }
}

/// A line without a comment is one segment, the whole line.
pub proof fn law_line_without_comment(line: Seq<char>)
    requires
        find_from(line, 0, seq!['<', '!', '-', '-']) is None,
    ensures
        line.len() > 0 ==> segments_from(line, 0, false) == (seq![line], false),
        line.len() == 0 ==> segments_from(line, 0, false) == (Seq::<Seq<char>>::empty(), false),
{
    assert(line.skip(0) =~= line);
}

/// A comment that is not closed hides the rest of the line, and stays open.
pub proof fn law_unclosed_comment_hides_the_rest(before: Seq<char>, rest: Seq<char>)
    requires
        find_from(before + seq!['<', '!', '-', '-'], 0, seq!['<', '!', '-', '-']) == Some(
            before.len() as int,
        ),
        find_from(rest, 0, seq!['-', '-', '>']) is None,
    ensures
        segments_from(before + seq!['<', '!', '-', '-'] + rest, 0, false) == (
            if before.len() > 0 {
                seq![before]
            } else {
                Seq::empty()
            },
            true,
        ),
{
    let opening = seq!['<', '!', '-', '-'];
    let head = before + opening;
    let line = head + rest;
    let start = before.len() as int;
    lemma_find_from(head, 0, opening);
    assert forall|j: int| 0 <= j <= start implies stands_at(line, j, opening) == stands_at(
        head,
        j,
        opening,
    ) by {
        assert(line.subrange(j, j + 4) =~= head.subrange(j, j + 4));
    }
    lemma_found_at(line, 0, opening, start);
    assert(line.skip(start + 4) =~= rest);
    lemma_find_in_rest(line, start + 4, 0, seq!['-', '-', '>']);
    assert(line.subrange(0, start) =~= before);
    assert(segments_from(line, start + 4, true) == (Seq::<Seq<char>>::empty(), true));
    assert(seq![before] + Seq::<Seq<char>>::empty() =~= seq![before]);
}

/// Inside of a comment, everything up to its end is hidden, and what stands behind it is looked at
/// for itself.
pub proof fn law_comment_ends(comment: Seq<char>, after: Seq<char>)
    requires
        find_from(comment + seq!['-', '-', '>'], 0, seq!['-', '-', '>']) == Some(
            comment.len() as int,
        ),
    ensures
        segments_from(comment + seq!['-', '-', '>'] + after, 0, true) == segments_from(
            after,
            0,
            false,
        ),
{
    let closing = seq!['-', '-', '>'];
    let head = comment + closing;
    let line = head + after;
    let end = comment.len() as int;
    lemma_find_from(head, 0, closing);
    assert forall|j: int| 0 <= j <= end implies stands_at(line, j, closing) == stands_at(
        head,
        j,
        closing,
    ) by {
        assert(line.subrange(j, j + 3) =~= head.subrange(j, j + 3));
    }
    lemma_found_at(line, 0, closing, end);
    assert(line.skip(end + 3) =~= after);
    law_segments_of_rest(line, end + 3, 0, false);
}

/// The references of segments are those of each segment, in order.
pub proof fn law_segments_count_on_their_own(
    a: Seq<Seq<char>>,
    b: Seq<Seq<char>>,
    segment: Seq<char>,
)
    ensures
        targets_in_segments(a + b) == targets_in_segments(a) + targets_in_segments(b),
        targets_in_segments(seq![segment]) == targets_from(segment, 0),
        targets_in_segments(Seq::empty()).len() == 0,
    decreases a.len(),
{
    let none = Seq::<Seq<char>>::empty();
    reveal_with_fuel(targets_in_segments, 2);
    assert(seq![segment].drop_first() =~= none);
    assert(targets_from(segment, 0) + none =~= targets_from(segment, 0));
    if a.len() == 0 {
        assert(a + b =~= b);
        assert(none + targets_in_segments(b) =~= targets_in_segments(b));
    } else {
        let rest = a.drop_first();
        assert((a + b).drop_first() =~= rest + b);
        law_segments_count_on_their_own(rest, b, segment);
        assert(targets_from(a[0], 0) + (targets_in_segments(rest) + targets_in_segments(b))
            =~= targets_in_segments(a) + targets_in_segments(b));
    }
}

/// A line that neither begins a code fence nor stands in one gives the references of what stands
/// outside of comments in it, and leaves open what it leaves open of them.
pub proof fn law_line_outside_of_fences(line: Seq<char>, inside: bool)
    requires
        fence_of(line) is None,
    ensures
        targets_in_lines(seq![line], None, inside) == targets_in_segments(
            segments_from(line, 0, inside).0,
        ),
        state_after_lines(seq![line], None, inside) == (
            None::<char>,
            segments_from(line, 0, inside).1,
        ),
{
    let none = Seq::<Seq<char>>::empty();
    reveal_with_fuel(targets_in_lines, 2);
    reveal_with_fuel(state_after_lines, 2);
    assert(seq![line].drop_first() =~= none);
    let targets = targets_in_segments(segments_from(line, 0, inside).0);
    assert(targets + none =~= targets);
}

/// A code block, with the lines that open and close it, leaves nothing open.
pub proof fn law_code_block_is_closed(
    open: Seq<char>,
    body: Seq<Seq<char>>,
    close: Seq<char>,
    marker: char,
    inside: bool,
)
    requires
        fence_of(open) == Some(marker),
        fence_of(close) == Some(marker),
        forall|i: int| 0 <= i < body.len() ==> fence_of(#[trigger] body[i]) != Some(marker),
    ensures
        state_after_lines(seq![open] + body + seq![close], None, inside) == (None::<char>, inside),
{
    let lines = seq![open] + body + seq![close];
    assert(lines[0] == open);
    assert(lines.drop_first() =~= body + seq![close]);
    lemma_fence_stays_open(body, close, marker, inside);
}

proof fn lemma_fence_stays_open(
    body: Seq<Seq<char>>,
    close: Seq<char>,
    marker: char,
    inside: bool,
)
    requires
        fence_of(close) == Some(marker),
        forall|i: int| 0 <= i < body.len() ==> fence_of(#[trigger] body[i]) != Some(marker),
    ensures
        state_after_lines(body + seq![close], Some(marker), inside) == (None::<char>, inside),
    decreases body.len(),
{
    let lines = body + seq![close];
    if body.len() == 0 {
        assert(lines[0] == close);
        assert(lines.drop_first() =~= Seq::empty());
        reveal_with_fuel(state_after_lines, 2);
    } else {
        assert(lines[0] == body[0]);
        assert(lines.drop_first() =~= body.drop_first() + seq![close]);
        lemma_fence_stays_open(body.drop_first(), close, marker, inside);
    }
}

/// A text of one line, without code fence and comment, gives the references of the line.
pub proof fn law_text_of_one_line(line: Seq<char>)
    requires
        forall|i: int| 0 <= i < line.len() ==> #[trigger] line[i] != '\n',
        fence_of(line) is None,
        find_from(line, 0, seq!['<', '!', '-', '-']) is None,
    ensures
        reference_targets(line) == targets_from(line, 0),
{
    law_line_is_kept(line);
    law_line_without_comment(line);
    if line.len() > 0 {
        law_line_outside_of_fences(line, false);
        law_segments_count_on_their_own(Seq::empty(), Seq::empty(), line);
    } else {
        assert(lines_of(line) =~= Seq::empty());
        assert(reference_targets(line) =~= targets_from(line, 0));
    }
}

/// A reference in a text leads to what was written. In a line without code and comments, a target
/// is asked for as it stands, whether it begins with a letter, a dot or a slash, and whatever
/// stands in it; only a `#` cuts it off, and one that begins with `~` leads nowhere.
pub proof fn law_reference_leads_where_it_says(
    before: Seq<char>,
    target: Seq<char>,
    marks: Seq<char>,
    after: Seq<char>,
)
    requires
        ends_a_word(before),
        target.len() > 0,
        starts_a_name(target[0]),
        target[0] != '~',
        !target.contains('#'),
        !closes(target.last()),
        forall|i: int| 0 <= i < marks.len() ==> closes(#[trigger] marks[i]),
        begins_behind_a_word(after),
        target.last() == '\\' ==> marks.len() > 0 || after.len() == 0,
        ({
            let line = before + seq!['@'] + escaped(target) + marks + after;
            &&& forall|i: int| 0 <= i < line.len() ==> #[trigger] line[i] != '\n'
            &&& fence_of(line) is None
            &&& find_from(line, 0, seq!['<', '!', '-', '-']) is None
        }),
    ensures
        relative_paths(
            reference_targets(before + seq!['@'] + escaped(target) + marks + after),
        ) == relative_paths(targets_from(before, 0)) + seq![target] + relative_paths(
            targets_from(after, 0),
        ),
{
    let line = before + seq!['@'] + escaped(target) + marks + after;
    law_text_of_one_line(line);
    law_reference_is_found(before, target, marks, after);
    law_reference_leads_somewhere(target);
    let a = targets_from(before, 0);
    let b = targets_from(after, 0);
    law_references_lead_on_their_own(a + seq![target], b, target);
    law_references_lead_on_their_own(a, seq![target], target);
}

/// A code fence that is not closed hides everything behind it.
pub proof fn law_unclosed_fence_hides_the_rest(
    open: Seq<char>,
    body: Seq<Seq<char>>,
    marker: char,
    inside: bool,
)
    requires
        fence_of(open) == Some(marker),
        forall|i: int| 0 <= i < body.len() ==> fence_of(#[trigger] body[i]) != Some(marker),
    ensures
        targets_in_lines(seq![open] + body, None, inside).len() == 0,
{
    let lines = seq![open] + body;
    let none = Seq::<Seq<char>>::empty();
    assert(lines[0] == open);
    assert(lines.drop_first() =~= body);
    law_fenced_lines_pass(body, none, marker, inside);
    assert(body + none =~= body);
}

} // verus!
