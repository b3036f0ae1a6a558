//! Character classes, trimming, line splitting and searching in strings.

use vstd::prelude::*;
use vstd::utf8::*;
use vstd::string::*;

verus! {

/// The characters of the Unicode `White_Space` property.
pub open spec fn is_white_space(c: char) -> bool {
    ||| '\u{9}' <= c <= '\u{d}'
    ||| c == '\u{20}'
    ||| c == '\u{85}'
    ||| c == '\u{a0}'
    ||| c == '\u{1680}'
    ||| '\u{2000}' <= c <= '\u{200a}'
    ||| c == '\u{2028}'
    ||| c == '\u{2029}'
    ||| c == '\u{202f}'
    ||| c == '\u{205f}'
    ||| c == '\u{3000}'
}

/// Whether `c` has the Unicode `White_Space` property.
pub fn is_whitespace(c: char) -> (r: bool)
    ensures
        r == is_white_space(c),
{
    ('\u{9}' <= c && c <= '\u{d}') || c == '\u{20}' || c == '\u{85}' || c == '\u{a0}'
        || c == '\u{1680}' || ('\u{2000}' <= c && c <= '\u{200a}') || c == '\u{2028}'
        || c == '\u{2029}' || c == '\u{202f}' || c == '\u{205f}' || c == '\u{3000}'
}

/// The number of bytes that `c` takes in UTF-8.
pub open spec fn char_width(c: char) -> int {
    if c as u32 <= 0x7f {
        1
    } else if c as u32 <= 0x7ff {
        2
    } else if c as u32 <= 0xffff {
        3
    } else {
        4
    }
}

/// The byte offset at which the character with index `k` of `s` begins in UTF-8; for
/// `k == s.len()` the length of `s` in bytes.
pub open spec fn byte_pos(s: Seq<char>, k: int) -> int
    decreases k,
{
    if k <= 0 {
        0
    } else {
        byte_pos(s, k - 1) + char_width(s[k - 1])
    }
}

/// The index of the character that begins at byte offset `b` of `s`: the inverse of
/// [`byte_pos`].
pub open spec fn char_pos(s: Seq<char>, b: int) -> int {
    choose|k: int| 0 <= k <= s.len() && #[trigger] byte_pos(s, k) == b
}

proof fn lemma_encode_width(c: char)
    ensures
        encode_scalar(c as u32).len() == char_width(c),
{
    char_is_scalar(c);
}

proof fn lemma_encode_concat(a: Seq<char>, b: Seq<char>)
    ensures
        encode_utf8(a + b) == encode_utf8(a) + encode_utf8(b),
    decreases a.len(),
{
    if a.len() == 0 {
        assert(a + b =~= b);
        assert(encode_utf8(a) + encode_utf8(b) =~= encode_utf8(b));
    } else {
        assert((a + b).drop_first() =~= a.drop_first() + b);
        lemma_encode_concat(a.drop_first(), b);
        assert(encode_scalar(a[0] as u32) + (encode_utf8(a.drop_first()) + encode_utf8(b))
            =~= encode_scalar(a[0] as u32) + encode_utf8(a.drop_first()) + encode_utf8(b));
    }
}

/// Byte offsets grow with the character index.
pub proof fn lemma_byte_pos_mono(s: Seq<char>, j: int, k: int)
    requires
        0 <= j <= k <= s.len(),
    ensures
        byte_pos(s, j) + (k - j) <= byte_pos(s, k),
        0 <= byte_pos(s, j),
    decreases k,
{
    if j < k {
        lemma_byte_pos_mono(s, j, k - 1);
    } else if j > 0 {
        lemma_byte_pos_mono(s, j - 1, j - 1);
    }
}

proof fn lemma_byte_pos_front(s: Seq<char>, k: int)
    requires
        0 < k <= s.len(),
    ensures
        byte_pos(s, k) == char_width(s[0]) + byte_pos(s.drop_first(), k - 1),
    decreases k,
{
    if k > 1 {
        lemma_byte_pos_front(s, k - 1);
    }
    reveal_with_fuel(byte_pos, 2);
}

/// Byte offsets in a text depend only on what stands before them.
proof fn lemma_byte_pos_prefix(s: Seq<char>, t: Seq<char>, k: int)
    requires
        0 <= k <= s.len(),
        k <= t.len(),
        forall|i: int| 0 <= i < k ==> s[i] == t[i],
    ensures
        byte_pos(s, k) == byte_pos(t, k),
    decreases k,
{
    if k > 0 {
        lemma_byte_pos_prefix(s, t, k - 1);
    }
}

proof fn lemma_encode_len(s: Seq<char>)
    ensures
        encode_utf8(s).len() == byte_pos(s, s.len() as int),
    decreases s.len(),
{
    if s.len() > 0 {
        lemma_encode_width(s[0]);
        lemma_byte_pos_front(s, s.len() as int);
        lemma_encode_len(s.drop_first());
    }
}

proof fn lemma_encode_split(s: Seq<char>, k: int)
    requires
        0 <= k <= s.len(),
    ensures
        encode_utf8(s) == encode_utf8(s.take(k)) + encode_utf8(s.skip(k)),
        encode_utf8(s.take(k)).len() == byte_pos(s, k),
        encode_utf8(s).len() == byte_pos(s, s.len() as int),
{
    assert(s =~= s.take(k) + s.skip(k));
    lemma_encode_concat(s.take(k), s.skip(k));
    lemma_encode_len(s.take(k));
    lemma_encode_len(s);
    lemma_byte_pos_prefix(s, s.take(k), k);
}

proof fn lemma_pos_is_boundary(s: Seq<char>, k: int)
    requires
        0 <= k <= s.len(),
    ensures
        is_char_boundary(encode_utf8(s), byte_pos(s, k)),
    decreases s.len(),
{
    encode_utf8_valid_utf8(s);
    if k > 0 {
        let bytes = encode_utf8(s);
        encode_utf8_first_scalar(s);
        lemma_encode_width(s[0]);
        assert(pop_first_scalar(bytes) =~= encode_utf8(s.drop_first()));
        lemma_byte_pos_front(s, k);
        lemma_pos_is_boundary(s.drop_first(), k - 1);
        lemma_byte_pos_mono(s, k, s.len() as int);
        lemma_byte_pos_mono(s, 0, k);
        lemma_encode_len(s);
    }
}

proof fn lemma_boundary_is_pos(s: Seq<char>, b: int)
    requires
        is_char_boundary(encode_utf8(s), b),
    ensures
        exists|k: int| 0 <= k <= s.len() && #[trigger] byte_pos(s, k) == b,
    decreases s.len(),
{
    encode_utf8_valid_utf8(s);
    if b == 0 {
        assert(byte_pos(s, 0) == 0);
    } else {
        let bytes = encode_utf8(s);
        if s.len() > 0 {
            encode_utf8_first_scalar(s);
            lemma_encode_width(s[0]);
            assert(pop_first_scalar(bytes) =~= encode_utf8(s.drop_first()));
            let t = s.drop_first();
            lemma_boundary_is_pos(t, b - char_width(s[0]));
            let j = choose|j: int|
                0 <= j <= t.len() && #[trigger] byte_pos(t, j) == b - char_width(s[0]);
            lemma_byte_pos_front(s, j + 1);
            assert(byte_pos(s, j + 1) == b);
        }
    }
}

/// [`char_pos`] is the inverse of [`byte_pos`], and the offsets of characters are exactly the
/// character boundaries.
pub proof fn lemma_char_pos(s: &str, b: int)
    ensures
        is_char_boundary(s.spec_bytes(), b) <==> exists|k: int|
            0 <= k <= s@.len() && #[trigger] byte_pos(s@, k) == b,
        is_char_boundary(s.spec_bytes(), b) ==> {
            &&& 0 <= char_pos(s@, b) <= s@.len()
            &&& byte_pos(s@, char_pos(s@, b)) == b
        },
{
    if is_char_boundary(s.spec_bytes(), b) {
        lemma_boundary_is_pos(s@, b);
    }
    if exists|k: int| 0 <= k <= s@.len() && #[trigger] byte_pos(s@, k) == b {
        let k = choose|k: int| 0 <= k <= s@.len() && #[trigger] byte_pos(s@, k) == b;
        lemma_pos_is_boundary(s@, k);
    }
}

/// [`char_pos`] finds the character that [`byte_pos`] came from.
pub proof fn lemma_char_pos_of_byte_pos(s: Seq<char>, k: int)
    requires
        0 <= k <= s.len(),
    ensures
        char_pos(s, byte_pos(s, k)) == k,
{
    let j = char_pos(s, byte_pos(s, k));
    assert(0 <= j <= s.len() && byte_pos(s, j) == byte_pos(s, k));
    if j < k {
        lemma_byte_pos_mono(s, j, k);
    } else if k < j {
        lemma_byte_pos_mono(s, k, j);
    }
}

/// In ASCII text, byte offsets and character indices are the same.
pub proof fn law_ascii_byte_pos(s: Seq<char>, k: int)
    requires
        is_ascii_chars(s),
        0 <= k <= s.len(),
    ensures
        byte_pos(s, k) == k,
        char_pos(s, k) == k,
    decreases k,
{
    if k > 0 {
        law_ascii_byte_pos(s, k - 1);
        assert(s[k - 1] <= '\u{7f}');
    }
    lemma_char_pos_of_byte_pos(s, k);
}

proof fn lemma_encode_injective(a: Seq<char>, b: Seq<char>)
    requires
        encode_utf8(a) == encode_utf8(b),
    ensures
        a == b,
{
    encode_utf8_decode_utf8(a);
    encode_utf8_decode_utf8(b);
}

/// The number of bytes that `c` takes in UTF-8.
pub fn len_utf8(c: char) -> (r: usize)
    ensures
        r == char_width(c),
{
    let u: u32 = c as u32;
    if u <= 0x7f {
        1
    } else if u <= 0x7ff {
        2
    } else if u <= 0xffff {
        3
    } else {
        4
    }
}

/// The length of `s` in bytes.
pub(crate) fn byte_len(s: &str) -> (r: usize)
    ensures
        r == byte_pos(s@, s@.len() as int),
{
    proof {
        lemma_encode_len(s@);
    }
    s.as_bytes().len()
}

/// Splits `s` before its character `k`, which begins at byte offset `at`.
pub(crate) fn split_pos<'a>(s: &'a str, at: usize, Ghost(k): Ghost<int>) -> (r: (&'a str, &'a str))
    requires
        0 <= k <= s@.len(),
        at == byte_pos(s@, k),
    ensures
        r.0@ == s@.take(k),
        r.1@ == s@.skip(k),
{
    proof {
        lemma_pos_is_boundary(s@, k);
        lemma_encode_split(s@, k);
    }
    let r = s.split_at(at);
    proof {
        let bytes = encode_utf8(s@);
        assert(bytes.subrange(0, at as int) =~= encode_utf8(s@.take(k)));
        assert(bytes.subrange(at as int, bytes.len() as int) =~= encode_utf8(s@.skip(k)));
        lemma_encode_injective(r.0@, s@.take(k));
        lemma_encode_injective(r.1@, s@.skip(k));
    }
    r
}

/// The part of `s` from its character `j` up to its character `k`.
pub(crate) fn slice_pos<'a>(
    s: &'a str,
    from: usize,
    to: usize,
    Ghost(j): Ghost<int>,
    Ghost(k): Ghost<int>,
) -> (r: &'a str)
    requires
        0 <= j <= k <= s@.len(),
        from == byte_pos(s@, j),
        to == byte_pos(s@, k),
    ensures
        r@ == s@.subrange(j, k),
{
    let (head, _) = split_pos(s, to, Ghost(k));
    proof {
        lemma_byte_pos_prefix(s@, head@, j);
    }
    let (_, middle) = split_pos(head, from, Ghost(j));
    assert(middle@ =~= s@.subrange(j, k));
    middle
}

/// The character `k` of `s`, which begins at byte offset `at`.
pub(crate) fn char_at(s: &str, at: usize, Ghost(k): Ghost<int>) -> (c: char)
    requires
        0 <= k < s@.len(),
        at == byte_pos(s@, k),
    ensures
        c == s@[k],
        at + char_width(c) == byte_pos(s@, k + 1),
        at + char_width(c) <= byte_pos(s@, s@.len() as int) <= usize::MAX,
{
    let _ = byte_len(s);
    let (_, rest) = split_pos(s, at, Ghost(k));
    let mut chars = rest.chars();
    let first = chars.next();
    proof {
        lemma_byte_pos_mono(s@, k + 1, s@.len() as int);
    }
    match first {
        Some(c) => c,
        None => '\u{0}',
    }
}

/// Whether every character of `s` is white space.
pub open spec fn all_white_space(s: Seq<char>) -> bool {
    forall|i: int| 0 <= i < s.len() ==> is_white_space(#[trigger] s[i])
}

/// Whether nothing but white space stands in `s`.
pub fn is_blank(s: &str) -> (r: bool)
    ensures
        r == all_white_space(s@),
{
    let n = byte_len(s);
    let mut at: usize = 0;
    let ghost mut k: int = 0;
    while at < n
        invariant
            0 <= k <= s@.len(),
            at == byte_pos(s@, k),
            n == byte_pos(s@, s@.len() as int),
            forall|i: int| 0 <= i < k ==> is_white_space(#[trigger] s@[i]),
        decreases n - at,
    {
        let c = char_at(s, at, Ghost(k));
        if !is_whitespace(c) {
            return false;
        }
        at = at + len_utf8(c);
        proof {
            k = k + 1;
        }
    }
    proof {
        lemma_byte_pos_mono(s@, k, s@.len() as int);
    }
    true
}

/// `s` without its leading white space.
pub open spec fn trimmed_start(s: Seq<char>) -> Seq<char>
    decreases s.len(),
{
    if s.len() > 0 && is_white_space(s[0]) {
        trimmed_start(s.drop_first())
    } else {
        s
    }
}

/// `s` without its trailing white space.
pub open spec fn trimmed_end(s: Seq<char>) -> Seq<char>
    decreases s.len(),
{
    if s.len() > 0 && is_white_space(s.last()) {
        trimmed_end(s.drop_last())
    } else {
        s
    }
}

/// `s` without its leading and trailing white space.
pub open spec fn trimmed(s: Seq<char>) -> Seq<char> {
    trimmed_end(trimmed_start(s))
}

/// `s` without its leading white space.
pub fn trim_start<'a>(s: &'a str) -> (r: &'a str)
    ensures
        r@ == trimmed_start(s@),
{
    let n = byte_len(s);
    let mut at: usize = 0;
    let ghost mut k: int = 0;
    assert(s@.skip(0) =~= s@);
    while at < n
        invariant
            0 <= k <= s@.len(),
            at == byte_pos(s@, k),
            n == byte_pos(s@, s@.len() as int),
            trimmed_start(s@) == trimmed_start(s@.skip(k)),
        decreases n - at,
    {
        let c = char_at(s, at, Ghost(k));
        if !is_whitespace(c) {
            let (_, rest) = split_pos(s, at, Ghost(k));
            return rest;
        }
        at = at + len_utf8(c);
        proof {
            assert(s@.skip(k).drop_first() =~= s@.skip(k + 1));
            k = k + 1;
        }
    }
    proof {
        lemma_byte_pos_mono(s@, k, s@.len() as int);
    }
    let (_, rest) = split_pos(s, at, Ghost(k));
    rest
}

/// The last character of the part of `s` before its character `k`, which begins at byte offset
/// `at`, and the offset of that last character.
pub(crate) fn char_before(s: &str, at: usize, Ghost(k): Ghost<int>) -> (r: (char, usize))
    requires
        0 < k <= s@.len(),
        at == byte_pos(s@, k),
    ensures
        r.0 == s@[k - 1],
        r.1 == byte_pos(s@, k - 1),
{
    proof {
        lemma_byte_pos_mono(s@, 0, k - 1);
    }
    let mut i: usize = at - 1;
    while !s.is_char_boundary(i)
        invariant
            0 < k <= s@.len(),
            at == byte_pos(s@, k),
            0 <= byte_pos(s@, k - 1) <= i < at,
        decreases i,
    {
        proof {
            lemma_char_pos(s, i as int);
            assert(i != byte_pos(s@, k - 1));
        }
        i = i - 1;
    }
    proof {
        lemma_char_pos(s, i as int);
        let j = char_pos(s@, i as int);
        if j >= k {
            lemma_byte_pos_mono(s@, k, j);
        }
        if j < k - 1 {
            lemma_byte_pos_mono(s@, j, k - 1);
        }
    }
    (char_at(s, i, Ghost(k - 1)), i)
}

/// `s` without its trailing white space.
pub fn trim_end<'a>(s: &'a str) -> (r: &'a str)
    ensures
        r@ == trimmed_end(s@),
{
    let mut at: usize = byte_len(s);
    let ghost mut k: int = s@.len() as int;
    assert(s@.take(k) =~= s@);
    while at > 0
        invariant
            0 <= k <= s@.len(),
            at == byte_pos(s@, k),
            trimmed_end(s@) == trimmed_end(s@.take(k)),
        decreases at,
    {
        let (c, i) = char_before(s, at, Ghost(k));
        if !is_whitespace(c) {
            let (rest, _) = split_pos(s, at, Ghost(k));
            return rest;
        }
        proof {
            assert(s@.take(k).drop_last() =~= s@.take(k - 1));
            lemma_byte_pos_mono(s@, k - 1, k);
            k = k - 1;
        }
        at = i;
    }
    proof {
        lemma_byte_pos_mono(s@, 0, k);
    }
    let (rest, _) = split_pos(s, at, Ghost(k));
    rest
}

/// `s` without its leading and trailing white space.
pub fn trim<'a>(s: &'a str) -> (r: &'a str)
    ensures
        r@ == trimmed(s@),
{
    trim_end(trim_start(s))
}

/// A text is blank if and only if nothing is left of it between white space.
pub proof fn law_blank_is_trimmed_empty(s: Seq<char>)
    ensures
        all_white_space(s) <==> trimmed(s).len() == 0,
    decreases s.len(),
{
    if s.len() > 0 && is_white_space(s[0]) {
        law_blank_is_trimmed_empty(s.drop_first());
        assert(all_white_space(s) <==> all_white_space(s.drop_first())) by {
            if all_white_space(s.drop_first()) {
                assert forall|i: int| 0 <= i < s.len() implies is_white_space(#[trigger] s[i]) by {
                    if i > 0 {
                        assert(s[i] == s.drop_first()[i - 1]);
                    }
                }
            }
        }
    } else if s.len() > 0 {
        lemma_trimmed_end_keeps(s);
    }
}

proof fn lemma_trimmed_end_keeps(s: Seq<char>)
    requires
        s.len() > 0,
        !is_white_space(s[0]),
    ensures
        trimmed_end(s).len() > 0,
        trimmed_end(s)[0] == s[0],
    decreases s.len(),
{
    if is_white_space(s.last()) {
        lemma_trimmed_end_keeps(s.drop_last());
    }
}

proof fn lemma_trimmed_start_first(s: Seq<char>)
    ensures
        trimmed_start(s).len() > 0 ==> !is_white_space(trimmed_start(s)[0]),
    decreases s.len(),
{
    if s.len() > 0 && is_white_space(s[0]) {
        lemma_trimmed_start_first(s.drop_first());
    }
}

proof fn lemma_trimmed_end_last(s: Seq<char>)
    ensures
        trimmed_end(s).len() > 0 ==> !is_white_space(trimmed_end(s).last()),
    decreases s.len(),
{
    if s.len() > 0 && is_white_space(s.last()) {
        lemma_trimmed_end_last(s.drop_last());
    }
}

/// A trimmed text neither begins nor ends with white space.
pub proof fn law_trimmed_ends(s: Seq<char>)
    ensures
        trimmed(s).len() > 0 ==> !is_white_space(trimmed(s)[0]) && !is_white_space(
            trimmed(s).last(),
        ),
{
    lemma_trimmed_start_first(s);
    lemma_trimmed_end_last(trimmed_start(s));
    if trimmed_start(s).len() > 0 {
        lemma_trimmed_end_keeps(trimmed_start(s));
    }
}

/// Whether `pat` stands in `s` from character `k` on.
pub open spec fn stands_at(s: Seq<char>, k: int, pat: Seq<char>) -> bool {
    0 <= k && k + pat.len() <= s.len() && s.subrange(k, k + pat.len()) == pat
}

/// The first place at or after character `from` where `pat` stands in `s`.
pub open spec fn find_from(s: Seq<char>, from: int, pat: Seq<char>) -> Option<int>
    decreases s.len() + 1 - from,
{
    if from < 0 || from + pat.len() > s.len() {
        None
    } else if stands_at(s, from, pat) {
        Some(from)
    } else {
        find_from(s, from + 1, pat)
    }
}

/// What [`find_from`] finds: an occurrence, and none before it; `None` only where there is no
/// occurrence at all.
pub proof fn lemma_find_from(s: Seq<char>, from: int, pat: Seq<char>)
    requires
        0 <= from <= s.len(),
    ensures
        match find_from(s, from, pat) {
            Some(i) => {
                &&& from <= i
                &&& stands_at(s, i, pat)
                &&& forall|j: int| from <= j < i ==> !stands_at(s, j, pat)
            },
            None => forall|j: int| from <= j ==> !stands_at(s, j, pat),
        },
    decreases s.len() - from,
{
    if from + pat.len() <= s.len() && !stands_at(s, from, pat) {
        if from < s.len() {
            lemma_find_from(s, from + 1, pat);
        } else {
            assert(s.subrange(from, from + pat.len()) =~= pat);
        }
    }
}

/// Whether `pat` stands in `s` from its character `k` on, which begins at byte offset `at`.
pub(crate) fn stands_at_pos(s: &str, at: usize, pat: &str, Ghost(k): Ghost<int>) -> (r: bool)
    requires
        0 <= k <= s@.len(),
        at == byte_pos(s@, k),
    ensures
        r == stands_at(s@, k, pat@),
{
    let n = byte_len(s);
    let m = byte_len(pat);
    let mut i: usize = at;
    let mut j: usize = 0;
    let ghost mut d: int = 0;
    while j < m
        invariant
            0 <= k <= s@.len(),
            0 <= d <= pat@.len(),
            k + d <= s@.len(),
            i == byte_pos(s@, k + d),
            j == byte_pos(pat@, d),
            n == byte_pos(s@, s@.len() as int),
            m == byte_pos(pat@, pat@.len() as int),
            forall|t: int| 0 <= t < d ==> s@[k + t] == pat@[t],
        decreases m - j,
    {
        if i >= n {
            proof {
                lemma_byte_pos_mono(s@, k + d, s@.len() as int);
            }
            return false;
        }
        let a = char_at(s, i, Ghost(k + d));
        let b = char_at(pat, j, Ghost(d));
        if a != b {
            proof {
                if stands_at(s@, k, pat@) {
                    assert(s@.subrange(k, k + pat@.len())[d] == s@[k + d]);
                }
            }
            return false;
        }
        i = i + len_utf8(a);
        j = j + len_utf8(b);
        proof {
            d = d + 1;
        }
    }
    proof {
        lemma_byte_pos_mono(pat@, d, pat@.len() as int);
        assert(s@.subrange(k, k + pat@.len()) =~= pat@);
    }
    true
}

/// The byte offset of the first occurrence of `pat` in `s` at or after its character `k`, which
/// begins at byte offset `at`.
pub(crate) fn find_pos(s: &str, at: usize, pat: &str, Ghost(k): Ghost<int>) -> (r: Option<usize>)
    requires
        0 <= k <= s@.len(),
        at == byte_pos(s@, k),
    ensures
        match (find_from(s@, k, pat@), r) {
            (Some(i), Some(b)) => k <= i && i + pat@.len() <= s@.len() && b == byte_pos(s@, i),
            (None, None) => true,
            _ => false,
        },
{
    let n = byte_len(s);
    let mut i: usize = at;
    let ghost mut j: int = k;
    loop
        invariant
            0 <= k <= j <= s@.len(),
            i == byte_pos(s@, j),
            n == byte_pos(s@, s@.len() as int),
            find_from(s@, k, pat@) == find_from(s@, j, pat@),
        decreases n - i,
    {
        if stands_at_pos(s, i, pat, Ghost(j)) {
            return Some(i);
        }
        if i >= n {
            proof {
                lemma_byte_pos_mono(s@, j, s@.len() as int);
                lemma_find_from(s@, j, pat@);
                assert(find_from(s@, j, pat@) is None);
            }
            return None;
        }
        let c = char_at(s, i, Ghost(j));
        i = i + len_utf8(c);
        proof {
            j = j + 1;
        }
    }
}

/// Whether `s` begins with `pat`.
pub fn starts_with(s: &str, pat: &str) -> (r: bool)
    ensures
        r == stands_at(s@, 0, pat@),
{
    stands_at_pos(s, 0, pat, Ghost(0))
}

/// The first character of `s`, if there is one.
pub fn first_char(s: &str) -> (r: Option<char>)
    ensures
        r == (if s@.len() > 0 {
            Some(s@[0])
        } else {
            None
        }),
{
    if s.is_empty() {
        None
    } else {
        Some(char_at(s, 0, Ghost(0)))
    }
}

/// Whether two strings hold the same characters.
pub fn same_str(a: &str, b: &str) -> (r: bool)
    ensures
        r == (a@ == b@),
{
    let r = byte_len(a) == byte_len(b) && stands_at_pos(a, 0, b, Ghost(0));
    proof {
        if a@ == b@ {
            assert(a@.subrange(0, b@.len() as int) =~= b@);
        }
        if r {
            lemma_byte_pos_prefix(a@, b@, b@.len() as int);
            lemma_byte_pos_mono(a@, b@.len() as int, a@.len() as int);
            assert(a@.subrange(0, b@.len() as int) =~= a@);
        }
    }
    r
}

/// `line` without the carriage return that ends it, if one does.
pub open spec fn without_final_cr(line: Seq<char>) -> Seq<char> {
    if line.len() > 0 && line.last() == '\r' {
        line.drop_last()
    } else {
        line
    }
}

/// The lines of `s`: a line ends with `"\n"` or `"\r\n"`, neither of which belongs to it, and the
/// last one may end with the text.
pub open spec fn lines_of(s: Seq<char>) -> Seq<Seq<char>>
    decreases s.len(),
{
    if s.len() == 0 {
        Seq::empty()
    } else {
        match find_from(s, 0, seq!['\n']) {
            Some(i) if 0 <= i < s.len() => seq![without_final_cr(s.take(i))] + lines_of(
                s.skip(i + 1),
            ),
            _ => seq![s],
        }
    }
}

/// The characters of each string.
pub open spec fn strs(v: Seq<&str>) -> Seq<Seq<char>> {
    v.map_values(|s: &str| s@)
}

/// The characters of each string.
pub open spec fn strings(v: Seq<String>) -> Seq<Seq<char>> {
    v.map_values(|s: String| s@)
}

fn strip_final_cr<'a>(line: &'a str) -> (r: &'a str)
    ensures
        r@ == without_final_cr(line@),
{
    let n = byte_len(line);
    if n > 0 {
        let ghost k = line@.len() as int;
        proof {
            lemma_byte_pos_mono(line@, 0, k);
        }
        let (c, at) = char_before(line, n, Ghost(k));
        if c == '\r' {
            let (head, _) = split_pos(line, at, Ghost(k - 1));
            assert(head@ =~= line@.drop_last());
            return head;
        }
    }
    proof {
        if line@.len() > 0 {
            lemma_byte_pos_mono(line@, 0, line@.len() as int);
        }
    }
    line
}

/// The lines of `text`.
pub fn split_lines<'a>(text: &'a str) -> (r: Vec<&'a str>)
    ensures
        strs(r@) == lines_of(text@),
{
    let mut lines: Vec<&'a str> = Vec::new();
    let mut rest: &'a str = text;
    let newline = "\n";
    proof {
        reveal_strlit("\n");
        assert(newline@ =~= seq!['\n']);
        assert(strs(lines@) + lines_of(rest@) =~= lines_of(text@));
    }
    while !rest.is_empty()
        invariant
            newline@ == seq!['\n'],
            strs(lines@) + lines_of(rest@) == lines_of(text@),
        decreases rest@.len(),
    {
        let ghost before = lines@;
        let ghost whole = rest@;
        match find_pos(rest, 0, newline, Ghost(0)) {
            Some(at) => {
                let ghost i = find_from(rest@, 0, newline@)->0;
                proof {
                    lemma_find_from(rest@, 0, newline@);
                    assert(rest@.subrange(i, i + 1)[0] == rest@[i]);
                    assert(rest@[i] == '\n');
                }
                let (line, _) = split_pos(rest, at, Ghost(i));
                let _ = char_at(rest, at, Ghost(i));
                let (_, tail) = split_pos(rest, at + 1, Ghost(i + 1));
                lines.push(strip_final_cr(line));
                rest = tail;
                proof {
                    assert(strs(lines@) =~= strs(before) + seq![without_final_cr(whole.take(i))]);
                    assert(strs(lines@) + lines_of(rest@) =~= strs(before) + (seq![
                        without_final_cr(whole.take(i)),
                    ] + lines_of(rest@)));
                }
            },
            None => {
                lines.push(rest);
                proof {
                    assert(strs(lines@) =~= strs(before) + seq![whole]);
                    assert(strs(lines@) =~= strs(before) + lines_of(whole));
                }
                return lines;
            },
        }
    }
    assert(strs(lines@) =~= strs(lines@) + lines_of(rest@));
    lines
}

/// Searching in the rest of a text is searching in the text from there on.
pub proof fn lemma_find_in_rest(s: Seq<char>, k: int, from: int, pat: Seq<char>)
    requires
        0 <= k <= s.len(),
        0 <= from,
    ensures
        find_from(s, k + from, pat) == (match find_from(s.skip(k), from, pat) {
            Some(i) => Some(k + i),
            None => None,
        }),
    decreases s.len() + 1 - k - from,
{
    if k + from + pat.len() <= s.len() {
        assert(s.subrange(k + from, k + from + pat.len()) =~= s.skip(k).subrange(
            from,
            from + pat.len(),
        ));
        lemma_find_in_rest(s, k, from + 1, pat);
    }
}

/// Where the first occurrence is found: at the place where there is one and none before it.
pub proof fn lemma_found_at(s: Seq<char>, from: int, pat: Seq<char>, at: int)
    requires
        0 <= from <= at,
        stands_at(s, at, pat),
        forall|j: int| from <= j < at ==> !stands_at(s, j, pat),
    ensures
        find_from(s, from, pat) == Some(at),
{
    lemma_find_from(s, from, pat);
}

/// A text that ends with a line break can be put before another: the lines of the two together are
/// those of the one and then those of the other.
pub proof fn law_lines_distribute(a: Seq<char>, b: Seq<char>)
    requires
        a.len() > 0 ==> a.last() == '\n',
    ensures
        lines_of(a + b) == lines_of(a) + lines_of(b),
    decreases a.len(),
{
    let newline = seq!['\n'];
    let all = a + b;
    if a.len() == 0 {
        assert(all =~= b);
        assert(lines_of(a) + lines_of(b) =~= lines_of(b));
    } else {
        let n = a.len() as int;
        assert(a.subrange(n - 1, n) =~= newline);
        assert(stands_at(a, n - 1, newline));
        lemma_find_from(a, 0, newline);
        let i = find_from(a, 0, newline)->0;
        assert forall|j: int| 0 <= j < n implies stands_at(a, j, newline) == stands_at(
            all,
            j,
            newline,
        ) by {
            assert(a.subrange(j, j + 1) =~= all.subrange(j, j + 1));
        }
        lemma_found_at(all, 0, newline, i);
        let rest = a.skip(i + 1);
        assert(all.take(i) =~= a.take(i));
        assert(all.skip(i + 1) =~= rest + b);
        law_lines_distribute(rest, b);
        let first = seq![without_final_cr(a.take(i))];
        assert(first + (lines_of(rest) + lines_of(b)) =~= (first + lines_of(rest)) + lines_of(b));
    }
}

/// White space before a text that begins with none is all that is taken away at its start.
pub proof fn law_trimmed_start_of(a: Seq<char>, s: Seq<char>)
    requires
        forall|i: int| 0 <= i < a.len() ==> is_white_space(#[trigger] a[i]),
        s.len() > 0 ==> !is_white_space(s[0]),
    ensures
        trimmed_start(a + s) == s,
    decreases a.len(),
{
    if a.len() == 0 {
        assert(a + s =~= s);
    } else {
        assert((a + s)[0] == a[0]);
        assert((a + s).drop_first() =~= a.drop_first() + s);
        law_trimmed_start_of(a.drop_first(), s);
    }
}

/// White space behind a text that ends with none is all that is taken away at its end.
pub proof fn law_trimmed_end_of(s: Seq<char>, b: Seq<char>)
    requires
        forall|i: int| 0 <= i < b.len() ==> is_white_space(#[trigger] b[i]),
        s.len() > 0 ==> !is_white_space(s.last()),
    ensures
        trimmed_end(s + b) == s,
    decreases b.len(),
{
    if b.len() == 0 {
        assert(s + b =~= s);
    } else {
        assert((s + b).last() == b.last());
        assert((s + b).drop_last() =~= s + b.drop_last());
        law_trimmed_end_of(s, b.drop_last());
    }
}

/// Of a text between white space, the text itself is left, with the white space within it.
pub proof fn law_trimmed_between(a: Seq<char>, s: Seq<char>, b: Seq<char>)
    requires
        forall|i: int| 0 <= i < a.len() ==> is_white_space(#[trigger] a[i]),
        forall|i: int| 0 <= i < b.len() ==> is_white_space(#[trigger] b[i]),
        s.len() > 0,
        !is_white_space(s[0]),
        !is_white_space(s.last()),
    ensures
        trimmed(a + s + b) == s,
{
    assert(a + s + b =~= a + (s + b));
    law_trimmed_start_of(a, s + b);
    law_trimmed_end_of(s, b);
}

/// A text without a line break is one line, with a line break behind it and without; a carriage
/// return before the line break belongs to neither. Nothing has no lines.
pub proof fn law_line_is_kept(line: Seq<char>)
    requires
        forall|i: int| 0 <= i < line.len() ==> #[trigger] line[i] != '\n',
    ensures
        line.len() > 0 ==> lines_of(line) == seq![line],
        line.len() == 0 ==> lines_of(line).len() == 0,
        line.len() == 0 || line.last() != '\r' ==> lines_of(line + seq!['\n']) == seq![line],
        line.len() > 0 && line.last() == '\r' ==> lines_of(line + seq!['\n']) == seq![
            line.drop_last(),
        ],
{
    let newline = seq!['\n'];
    let broken = line + newline;
    let n = line.len() as int;
    lemma_find_from(line, 0, newline);
    assert forall|j: int| 0 <= j < n implies !stands_at(line, j, newline) && !stands_at(
        broken,
        j,
        newline,
    ) by {
        if stands_at(line, j, newline) {
            assert(line.subrange(j, j + 1)[0] == line[j]);
        }
        if stands_at(broken, j, newline) {
            assert(broken.subrange(j, j + 1)[0] == line[j]);
        }
    }
    assert(broken.subrange(n, n + 1) =~= newline);
    lemma_found_at(broken, 0, newline, n);
    assert(broken.take(n) =~= line);
    assert(broken.skip(n + 1) =~= Seq::empty());
    let first = seq![without_final_cr(line)];
    assert(lines_of(broken) == first + lines_of(broken.skip(n + 1)));
    assert(first + Seq::<Seq<char>>::empty() =~= first);
}

} // verus!
