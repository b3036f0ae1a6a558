//! Paths of instruction files, and which of them can be referenced.

use vstd::prelude::*;
use crate::markdown::{extract_reference_targets, reference_targets};
use crate::text::{
    byte_len, byte_pos, char_at, char_before, find_from, find_pos, first_char, lemma_byte_pos_mono,
    lemma_find_from, len_utf8, split_pos, stands_at, strings,
};

verus! {

/// A location in a file system, named by a URI. The other fields are readings of that URI, which
/// whoever makes the value takes from it.
#[derive(Debug)]
pub struct PathUri {
    /// The text of the URI; two locations are the same if and only if these texts are.
    pub uri: String,
    /// The path in the notation of the system that the URI seems to come from.
    pub native: String,
    /// The path on this system, where the URI names one.
    pub absolute: Option<String>,
    /// The last component of the path, where there is one.
    pub basename: Option<String>,
}

impl Clone for PathUri {
    fn clone(&self) -> (r: Self)
        ensures
            r == *self,
    {
        PathUri {
            uri: self.uri.clone(),
            native: self.native.clone(),
            absolute: match &self.absolute {
                Some(text) => Some(text.clone()),
                None => None,
            },
            basename: match &self.basename {
                Some(text) => Some(text.clone()),
                None => None,
            },
        }
    }
}

impl PartialEq for PathUri {
    fn eq(&self, other: &Self) -> (r: bool) {
        self.uri == other.uri
    }
}

impl vstd::std_specs::cmp::PartialEqSpecImpl for PathUri {
    open spec fn obeys_eq_spec() -> bool {
        true
    }

    open spec fn eq_spec(&self, other: &Self) -> bool {
        self.uri@ == other.uri@
    }
}

impl Eq for PathUri {
}

/// An absolute path on this system.
#[derive(Debug, PartialEq, Eq)]
pub struct AbsolutePathBuf {
    /// The path as it is shown.
    pub display: String,
    /// The URI of the path.
    pub uri: PathUri,
}

impl Clone for AbsolutePathBuf {
    fn clone(&self) -> (r: Self)
        ensures
            r == *self,
    {
        AbsolutePathBuf { display: self.display.clone(), uri: self.uri.clone() }
    }
}

/// Extensions of files that are taken to hold text.
pub const AGENTS_MD_REFERENCE_TEXT_EXTENSIONS: [&'static str; 106] = [
    "adoc", "asciidoc", "astro", "bash", "bat", "c", "cc", "cfg", "cjs", "clj", "cljs", "cljc",
    "cmake", "cmd", "conf", "config", "cpp", "cs", "css", "csv", "cts", "cxx", "dart", "diff",
    "edn", "ejs", "elm", "env", "erb", "erl", "ex", "exs", "f", "f90", "f95", "fish", "for", "go",
    "gql", "gradle", "graphql", "h", "hbs", "hpp", "hrl", "hs", "htm", "html", "hxx", "ini",
    "jade", "java", "js", "json", "jsx", "kt", "kts", "latex", "less", "lhs", "lock", "log", "lua",
    "make", "makefile", "md", "mjs", "ml", "mli", "mts", "org", "patch", "php", "pl", "pm",
    "properties", "proto", "ps1", "pug", "py", "pyi", "pyw", "r", "rake", "rb", "rs", "rst",
    "sass", "sbt", "scala", "scss", "sh", "sql", "svelte", "swift", "tex", "text", "toml", "ts",
    "tsx", "txt", "vue", "xml", "yaml", "yml", "zsh",
];

/// Whether `root` is `path` or one of its `ancestors`.
pub open spec fn within_root(path: PathUri, ancestors: Seq<PathUri>, root: PathUri) -> bool {
    ||| path.uri@ == root.uri@
    ||| exists|i: int| 0 <= i < ancestors.len() && (#[trigger] ancestors[i]).uri@ == root.uri@
}

/// Whether `path`, whose ancestors are `ancestors`, is `root` or lies under it.
pub fn is_uri_within_root(path: &PathUri, ancestors: &Vec<PathUri>, root: &PathUri) -> (r: bool)
    ensures
        r == within_root(*path, ancestors@, *root),
{
    if path == root {
        return true;
    }
    for i in 0..ancestors.len()
        invariant
            path.uri@ != root.uri@,
            forall|j: int| 0 <= j < i ==> (#[trigger] ancestors@[j]).uri@ != root.uri@,
    {
        if ancestors[i] == *root {
            return true;
        }
    }
    false
}

/// `c` in lower case, if it is an ASCII letter.
pub open spec fn ascii_lower(c: char) -> char {
    if 'A' <= c <= 'Z' {
        (c as u32 + 32) as char
    } else {
        c
    }
}

/// Whether `a` and `b` are the same but for the case of ASCII letters.
pub open spec fn same_ignoring_ascii_case(a: Seq<char>, b: Seq<char>) -> bool {
    &&& a.len() == b.len()
    &&& forall|i: int| 0 <= i < a.len() ==> ascii_lower(#[trigger] a[i]) == ascii_lower(b[i])
}

/// The index of the last `c` in `s`, or `-1` where there is none.
pub open spec fn last_index_of(s: Seq<char>, c: char) -> int
    decreases s.len(),
{
    if s.len() == 0 {
        -1
    } else if s.last() == c {
        s.len() - 1
    } else {
        last_index_of(s.drop_last(), c)
    }
}

/// What [`last_index_of`] finds: an occurrence with none after it, or `-1` where there is none.
pub proof fn law_last_index_of(s: Seq<char>, c: char)
    ensures
        -1 <= last_index_of(s, c) < s.len(),
        last_index_of(s, c) >= 0 ==> s[last_index_of(s, c)] == c,
        forall|i: int| last_index_of(s, c) < i < s.len() ==> s[i] != c,
    decreases s.len(),
{
    if s.len() > 0 && s.last() != c {
        law_last_index_of(s.drop_last(), c);
        assert forall|i: int| last_index_of(s, c) < i < s.len() implies s[i] != c by {
            if i < s.len() - 1 {
                assert(s.drop_last()[i] == s[i]);
            }
        }
    }
}

/// Whether `extension` is one of [`AGENTS_MD_REFERENCE_TEXT_EXTENSIONS`], in upper or lower case.
pub open spec fn is_text_extension(extension: Seq<char>) -> bool {
    exists|i: int|
        0 <= i < AGENTS_MD_REFERENCE_TEXT_EXTENSIONS@.len() && same_ignoring_ascii_case(
            extension,
            #[trigger] AGENTS_MD_REFERENCE_TEXT_EXTENSIONS@[i]@,
        )
}

/// Whether a file with this name is taken to hold text: one whose extension says so, or one that
/// has no extension. A name that ends with a dot, or whose only dot is its first character, has
/// none.
pub open spec fn is_text_name(name: Seq<char>) -> bool {
    let dot = last_index_of(name, '.');
    dot <= 0 || dot == name.len() - 1 || is_text_extension(name.skip(dot + 1))
}

/// Whether `path` is taken to name a text file; one without a name is.
pub open spec fn is_text_path(path: PathUri) -> bool {
    match path.basename {
        Some(name) => is_text_name(name@),
        None => true,
    }
}

fn lower(c: char) -> (r: char)
    ensures
        r == ascii_lower(c),
{
    if 'A' <= c && c <= 'Z' {
        let b: u8 = c as u8;
        (b + 32) as char
    } else {
        c
    }
}

/// Whether `a` and `b` are the same but for the case of ASCII letters.
pub fn eq_ignore_ascii_case(a: &str, b: &str) -> (r: bool)
    ensures
        r == same_ignoring_ascii_case(a@, b@),
{
    let n = byte_len(a);
    let m = byte_len(b);
    let mut i: usize = 0;
    let mut j: usize = 0;
    let ghost mut k: int = 0;
    while i < n && j < m
        invariant
            0 <= k <= a@.len(),
            k <= b@.len(),
            i == byte_pos(a@, k),
            j == byte_pos(b@, k),
            n == byte_pos(a@, a@.len() as int),
            m == byte_pos(b@, b@.len() as int),
            forall|t: int| 0 <= t < k ==> ascii_lower(#[trigger] a@[t]) == ascii_lower(b@[t]),
        decreases n - i,
    {
        let c = char_at(a, i, Ghost(k));
        let d = char_at(b, j, Ghost(k));
        if lower(c) != lower(d) {
            return false;
        }
        i = i + len_utf8(c);
        j = j + len_utf8(d);
        proof {
            k = k + 1;
        }
    }
    proof {
        lemma_byte_pos_mono(a@, k, a@.len() as int);
        lemma_byte_pos_mono(b@, k, b@.len() as int);
    }
    i >= n && j >= m
}

/// Whether `path` can be read as a reference by its name: it has no extension, or one of a text
/// file.
pub fn is_text_reference_path(path: &PathUri) -> (r: bool)
    ensures
        r == is_text_path(*path),
{
    let name: &str = match &path.basename {
        Some(name) => name.as_str(),
        None => return true,
    };
    let n = byte_len(name);
    let mut after: usize = n;
    let ghost mut k: int = name@.len() as int;
    assert(name@.take(k) =~= name@);
    while after > 0
        invariant
            0 <= k <= name@.len(),
            path.basename is Some,
            name@ == path.basename->0@,
            after == byte_pos(name@, k),
            n == byte_pos(name@, name@.len() as int),
            last_index_of(name@, '.') == last_index_of(name@.take(k), '.'),
        decreases after,
    {
        let (c, at) = char_before(name, after, Ghost(k));
        if c == '.' {
            proof {
                assert(last_index_of(name@, '.') == k - 1);
                lemma_byte_pos_mono(name@, 0, k - 1);
                lemma_byte_pos_mono(name@, k, name@.len() as int);
            }
            if at == 0 || after == n {
                return true;
            }
            let (_, extension) = split_pos(name, after, Ghost(k));
            return has_text_extension(extension);
        }
        proof {
            assert(name@.take(k).drop_last() =~= name@.take(k - 1));
            lemma_byte_pos_mono(name@, k - 1, k);
            k = k - 1;
        }
        after = at;
    }
    proof {
        lemma_byte_pos_mono(name@, 0, k);
    }
    true
}

fn has_text_extension(extension: &str) -> (r: bool)
    ensures
        r == is_text_extension(extension@),
{
    let extensions = AGENTS_MD_REFERENCE_TEXT_EXTENSIONS;
    for i in 0..extensions.len()
        invariant
            extensions == AGENTS_MD_REFERENCE_TEXT_EXTENSIONS,
            forall|j: int|
                0 <= j < i ==> !same_ignoring_ascii_case(
                    extension@,
                    #[trigger] AGENTS_MD_REFERENCE_TEXT_EXTENSIONS@[j]@,
                ),
    {
        if eq_ignore_ascii_case(extension, extensions[i]) {
            assert(same_ignoring_ascii_case(
                extension@,
                AGENTS_MD_REFERENCE_TEXT_EXTENSIONS@[i as int]@,
            ));
            return true;
        }
    }
    false
}

/// The path that a reference leads to, seen from the directory of the file it stands in: what
/// stands before the first `#`. Nothing, and a path in a home directory, leads nowhere.
pub open spec fn relative_path(reference: Seq<char>) -> Option<Seq<char>> {
    let path = match find_from(reference, 0, seq!['#']) {
        Some(i) => reference.take(i),
        None => reference,
    };
    if path.len() == 0 || path[0] == '~' {
        None
    } else {
        Some(path)
    }
}

/// The path that `reference` leads to, seen from the directory of the file it stands in.
pub fn reference_relative_path<'a>(reference: &'a str) -> (r: Option<&'a str>)
    ensures
        match (relative_path(reference@), r) {
            (Some(path), Some(text)) => text@ == path,
            (None, None) => true,
            _ => false,
        },
{
    let hash = "#";
    proof {
        reveal_strlit("#");
        assert(hash@ =~= seq!['#']);
    }
    let path: &'a str = match find_pos(reference, 0, hash, Ghost(0)) {
        Some(at) => {
            let ghost i = find_from(reference@, 0, hash@)->0;
            let (head, _) = split_pos(reference, at, Ghost(i));
            head
        },
        None => reference,
    };
    match first_char(path) {
        Some(c) => if c == '~' {
            None
        } else {
            Some(path)
        },
        None => None,
    }
}

/// The paths that references lead to, in order, without those that lead nowhere.
pub open spec fn relative_paths(references: Seq<Seq<char>>) -> Seq<Seq<char>>
    decreases references.len(),
{
    if references.len() == 0 {
        Seq::empty()
    } else {
        let rest = relative_paths(references.drop_first());
        match relative_path(references[0]) {
            Some(path) => seq![path] + rest,
            None => rest,
        }
    }
}

/// The paths that the references in `text` lead to, seen from the directory of the file that
/// holds the text, in order.
pub fn relative_reference_paths(text: &str) -> (r: Vec<String>)
    ensures
        strings(r@) == relative_paths(reference_targets(text@)),
{
    let references = extract_reference_targets(text);
    let ghost all = reference_targets(text@);
    let mut paths: Vec<String> = Vec::new();
    assert(all.skip(0) =~= all);
    assert(strings(paths@) + relative_paths(all) =~= relative_paths(all));
    for i in 0..references.len()
        invariant
            strings(references@) == all,
            strings(paths@) + relative_paths(all.skip(i as int)) == relative_paths(all),
    {
        let ghost before = paths@;
        proof {
            assert(strings(references@)[i as int] == references[i as int]@);
            assert(all.skip(i as int).drop_first() =~= all.skip(i + 1));
            assert(all.skip(i as int)[0] == references[i as int]@);
        }
        if let Some(path) = reference_relative_path(references[i].as_str()) {
            paths.push(path.to_owned());
            proof {
                assert(strings(paths@) =~= strings(before) + seq![path@]);
                let rest = relative_paths(all.skip(i + 1));
                assert(strings(paths@) + rest =~= strings(before) + (seq![path@] + rest));
            }
        }
    }
    assert(all.skip(references@.len() as int).len() == 0);
    assert(strings(paths@) + Seq::<Seq<char>>::empty() =~= strings(paths@));
    paths
}

/// The paths that could be resolved, in order.
pub open spec fn resolved_paths(resolved: Seq<Option<PathUri>>) -> Seq<PathUri>
    decreases resolved.len(),
{
    if resolved.len() == 0 {
        Seq::empty()
    } else {
        let rest = resolved_paths(resolved.drop_first());
        match resolved[0] {
            Some(path) => seq![path] + rest,
            None => rest,
        }
    }
}

/// The paths that could be resolved, in order; `resolved` holds one answer for each path of
/// [`relative_reference_paths`].
pub fn collect_reference_paths(resolved: &Vec<Option<PathUri>>) -> (r: Vec<PathUri>)
    ensures
        r@ == resolved_paths(resolved@),
{
    let mut paths: Vec<PathUri> = Vec::new();
    assert(resolved@.skip(0) =~= resolved@);
    assert(paths@ + resolved_paths(resolved@) =~= resolved_paths(resolved@));
    for i in 0..resolved.len()
        invariant
            paths@ + resolved_paths(resolved@.skip(i as int)) == resolved_paths(resolved@),
    {
        let ghost before = paths@;
        assert(resolved@.skip(i as int).drop_first() =~= resolved@.skip(i + 1));
        if let Some(path) = &resolved[i] {
            paths.push(path.clone());
            assert(paths@ + resolved_paths(resolved@.skip(i + 1)) =~= before + (seq![*path]
                + resolved_paths(resolved@.skip(i + 1))));
        }
    }
    assert(paths@ + resolved_paths(resolved@.skip(resolved@.len() as int)) =~= paths@);
    paths
}

/// Whether a name says that a file holds text does not depend on the case of its extension.
pub proof fn law_extension_case(a: Seq<char>, b: Seq<char>)
    requires
        same_ignoring_ascii_case(a, b),
    ensures
        is_text_extension(a) == is_text_extension(b),
{
    let extensions = AGENTS_MD_REFERENCE_TEXT_EXTENSIONS@;
    assert forall|i: int| 0 <= i < extensions.len() implies same_ignoring_ascii_case(
        a,
        #[trigger] extensions[i]@,
    ) == same_ignoring_ascii_case(b, extensions[i]@) by {
        let e = extensions[i]@;
        if same_ignoring_ascii_case(a, e) {
            assert forall|j: int| 0 <= j < b.len() implies ascii_lower(#[trigger] b[j])
                == ascii_lower(e[j]) by {
                assert(ascii_lower(a[j]) == ascii_lower(b[j]));
            }
        }
        if same_ignoring_ascii_case(b, e) {
            assert forall|j: int| 0 <= j < a.len() implies ascii_lower(#[trigger] a[j])
                == ascii_lower(e[j]) by {
                assert(ascii_lower(b[j]) == ascii_lower(e[j]));
            }
        }
    }
}

/// What a reference says behind a `#` does not matter: it leads where the path before it leads.
pub proof fn law_fragment_ignored(path: Seq<char>, fragment: Seq<char>)
    requires
        !path.contains('#'),
    ensures
        relative_path(path + seq!['#'] + fragment) == relative_path(path),
{
    let whole = path + seq!['#'] + fragment;
    let hash = seq!['#'];
    lemma_find_from(whole, 0, hash);
    lemma_find_from(path, 0, hash);
    assert forall|j: int| 0 <= j < path.len() implies !stands_at(whole, j, hash)
        && !stands_at(path, j, hash) by {
        assert(path.contains(path[j]));
        if stands_at(whole, j, hash) {
            assert(whole.subrange(j, j + 1)[0] == path[j]);
        }
        if stands_at(path, j, hash) {
            assert(path.subrange(j, j + 1)[0] == path[j]);
        }
    }
    let n = path.len() as int;
    assert(whole.subrange(n, n + 1) =~= hash);
    assert(stands_at(whole, n, hash));
    assert(whole.take(n) =~= path);
}

/// Where a reference leads: to what stands before its first `#`, or to itself where it holds none.
/// It leads nowhere only where that is empty or begins with `~`; a reference that begins with
/// anything else, such as a dot, leads somewhere.
pub proof fn law_reference_leads_somewhere(reference: Seq<char>)
    ensures
        relative_path(reference) is None <==> (reference.len() == 0 || reference[0] == '#'
            || reference[0] == '~'),
        relative_path(reference) matches Some(path) ==> {
            &&& path.is_prefix_of(reference)
            &&& !path.contains('#')
            &&& path.len() < reference.len() ==> reference[path.len() as int] == '#'
        },
        reference.len() > 0 && reference[0] != '~' && !reference.contains('#') ==> relative_path(
            reference,
        ) == Some(reference),
{
    let hash = seq!['#'];
    lemma_find_from(reference, 0, hash);
    match find_from(reference, 0, hash) {
        Some(i) => {
            assert(reference.subrange(i, i + 1)[0] == reference[i]);
            let path = reference.take(i);
            assert forall|j: int| 0 <= j < i implies path[j] != '#' by {
                if path[j] == '#' {
                    assert(reference.subrange(j, j + 1) =~= hash);
                    assert(stands_at(reference, j, hash));
                }
            }
            assert(reference.contains(reference[i]));
        },
        None => {
            assert forall|j: int| 0 <= j < reference.len() implies reference[j] != '#' by {
                if reference[j] == '#' {
                    assert(reference.subrange(j, j + 1) =~= hash);
                    assert(stands_at(reference, j, hash));
                }
            }
        },
    }
}

/// Each reference leads where it leads by itself, whatever stands around it: of references behind
/// others, the places follow the places of the others, and one reference has one place or none.
pub proof fn law_references_lead_on_their_own(a: Seq<Seq<char>>, b: Seq<Seq<char>>, r: Seq<char>)
    ensures
        relative_paths(a + b) == relative_paths(a) + relative_paths(b),
        relative_path(r) matches Some(path) ==> relative_paths(seq![r]) == seq![path],
        relative_path(r) is None ==> relative_paths(seq![r]).len() == 0,
        relative_paths(Seq::empty()).len() == 0,
    decreases a.len(),
{
    let none = Seq::<Seq<char>>::empty();
    assert(seq![r].drop_first() =~= none);
    assert(relative_paths(none) =~= none);
    if let Some(path) = relative_path(r) {
        assert(seq![path] + none =~= seq![path]);
    }
    if a.len() == 0 {
        assert(a + b =~= b);
        assert(none + relative_paths(b) =~= relative_paths(b));
    } else {
        let rest = a.drop_first();
        assert((a + b).drop_first() =~= rest + b);
        law_references_lead_on_their_own(rest, b, r);
        if let Some(path) = relative_path(a[0]) {
            assert(seq![path] + (relative_paths(rest) + relative_paths(b)) =~= (seq![path]
                + relative_paths(rest)) + relative_paths(b));
        }
    }
}

/// Every path that could be resolved is kept, in order, and nothing else.
pub proof fn law_resolved_paths_are_kept(
    a: Seq<Option<PathUri>>,
    b: Seq<Option<PathUri>>,
    path: PathUri,
)
    ensures
        resolved_paths(a + b) == resolved_paths(a) + resolved_paths(b),
        resolved_paths(seq![Some(path)]) == seq![path],
        resolved_paths(seq![None]).len() == 0,
        resolved_paths(Seq::empty()).len() == 0,
    decreases a.len(),
{
    let none = Seq::<PathUri>::empty();
    reveal_with_fuel(resolved_paths, 2);
    assert(seq![Some(path)].drop_first() =~= Seq::empty());
    assert(seq![None::<PathUri>].drop_first() =~= Seq::empty());
    assert(seq![path] + none =~= seq![path]);
    if a.len() == 0 {
        assert(a + b =~= b);
        assert(none + resolved_paths(b) =~= resolved_paths(b));
    } else {
        let rest = a.drop_first();
        assert((a + b).drop_first() =~= rest + b);
        law_resolved_paths_are_kept(rest, b, path);
        if let Some(first) = a[0] {
            assert(seq![first] + (resolved_paths(rest) + resolved_paths(b)) =~= (seq![first]
                + resolved_paths(rest)) + resolved_paths(b));
        }
    }
}

/// Every path that could be resolved is among those that are kept.
pub proof fn law_resolved_path_is_kept(resolved: Seq<Option<PathUri>>, k: int)
    requires
        0 <= k < resolved.len(),
    ensures
        resolved[k] matches Some(path) ==> resolved_paths(resolved).contains(path),
{
    if let Some(path) = resolved[k] {
        let a = resolved.take(k);
        let b = resolved.skip(k + 1);
        assert(resolved =~= a + (seq![Some(path)] + b));
        law_resolved_paths_are_kept(a, seq![Some(path)] + b, path);
        law_resolved_paths_are_kept(seq![Some(path)], b, path);
        assert(resolved_paths(resolved)[resolved_paths(a).len() as int] == path);
    }
}

/// Two names are the same but for their case where each character is the same, or one is the upper
/// case of the other ASCII letter.
pub proof fn law_case_of_letters(a: Seq<char>, b: Seq<char>)
    ensures
        same_ignoring_ascii_case(a, b) <==> a.len() == b.len() && forall|i: int|
            0 <= i < a.len() ==> {
                let (c, d) = (#[trigger] a[i], b[i]);
                ||| c == d
                ||| 'A' <= c <= 'Z' && d as u32 == c as u32 + 32
                ||| 'A' <= d <= 'Z' && c as u32 == d as u32 + 32
            },
{
    assert forall|c: char, d: char| #[trigger] ascii_lower(c) == #[trigger] ascii_lower(d) <==> (c
        == d || 'A' <= c <= 'Z' && d as u32 == c as u32 + 32 || 'A' <= d <= 'Z' && c as u32
        == d as u32 + 32) by {}
    if a.len() == b.len() && forall|i: int|
        0 <= i < a.len() ==> {
            let (c, d) = (#[trigger] a[i], b[i]);
            ||| c == d
            ||| 'A' <= c <= 'Z' && d as u32 == c as u32 + 32
            ||| 'A' <= d <= 'Z' && c as u32 == d as u32 + 32
        } {
        assert forall|i: int| 0 <= i < a.len() implies ascii_lower(#[trigger] a[i]) == ascii_lower(
            b[i],
        ) by {}
    }
    if same_ignoring_ascii_case(a, b) {
        assert forall|i: int| 0 <= i < a.len() implies {
            let (c, d) = (#[trigger] a[i], b[i]);
            ||| c == d
            ||| 'A' <= c <= 'Z' && d as u32 == c as u32 + 32
            ||| 'A' <= d <= 'Z' && c as u32 == d as u32 + 32
        } by {
            assert(ascii_lower(a[i]) == ascii_lower(b[i]));
        }
    }
}

/// What the name of a file says: a name with an extension, which is what follows its last dot,
/// names a text file if and only if the extension is listed; a name without one always does.
pub proof fn law_text_names(path: PathUri, stem: Seq<char>, extension: Seq<char>)
    requires
        !extension.contains('.'),
    ensures
        path.basename is None ==> is_text_path(path),
        path.basename matches Some(name) && !name@.contains('.') ==> is_text_path(path),
        path.basename matches Some(name) && name@ == stem + seq!['.'] + extension ==> (is_text_path(
            path,
        ) <==> {
            ||| stem.len() == 0
            ||| extension.len() == 0
            ||| exists|i: int|
                0 <= i < AGENTS_MD_REFERENCE_TEXT_EXTENSIONS@.len() && same_ignoring_ascii_case(
                    extension,
                    #[trigger] AGENTS_MD_REFERENCE_TEXT_EXTENSIONS@[i]@,
                )
        }),
{
    if let Some(name) = path.basename {
        law_last_index_of(name@, '.');
        let dot = last_index_of(name@, '.');
        if dot >= 0 {
            assert(name@.contains(name@[dot]));
        }
        if name@ == stem + seq!['.'] + extension {
            let n = stem.len() as int;
            assert(name@[n] == '.');
            assert forall|i: int| n < i < name@.len() implies name@[i] != '.' by {
                assert(extension.contains(extension[i - n - 1]));
            }
            assert(dot == n);
            assert(name@.skip(n + 1) =~= extension);
        }
    }
}

/// A path lies within a root if it is the root, if the root is one of its ancestors, and not
/// otherwise; paths are told apart by their URIs.
pub proof fn law_within_root(path: PathUri, ancestors: Seq<PathUri>, root: PathUri, i: int)
    ensures
        path.uri@ == root.uri@ ==> within_root(path, ancestors, root),
        0 <= i < ancestors.len() && ancestors[i].uri@ == root.uri@ ==> within_root(
            path,
            ancestors,
            root,
        ),
        path.uri@ != root.uri@ && (forall|j: int|
            0 <= j < ancestors.len() ==> (#[trigger] ancestors[j]).uri@ != root.uri@)
            ==> !within_root(path, ancestors, root),
{
}

/// The extensions of text files, all of them.
pub proof fn law_text_extensions()
    ensures
        AGENTS_MD_REFERENCE_TEXT_EXTENSIONS@ == seq![
            "adoc", "asciidoc", "astro", "bash", "bat", "c", "cc", "cfg", "cjs", "clj", "cljs",
            "cljc", "cmake", "cmd", "conf", "config", "cpp", "cs", "css", "csv", "cts", "cxx",
            "dart", "diff", "edn", "ejs", "elm", "env", "erb", "erl", "ex", "exs", "f", "f90",
            "f95", "fish", "for", "go", "gql", "gradle", "graphql", "h", "hbs", "hpp", "hrl",
            "hs", "htm", "html", "hxx", "ini", "jade", "java", "js", "json", "jsx", "kt", "kts",
            "latex", "less", "lhs", "lock", "log", "lua", "make", "makefile", "md", "mjs", "ml",
            "mli", "mts", "org", "patch", "php", "pl", "pm", "properties", "proto", "ps1", "pug",
            "py", "pyi", "pyw", "r", "rake", "rb", "rs", "rst", "sass", "sbt", "scala", "scss",
            "sh", "sql", "svelte", "swift", "tex", "text", "toml", "ts", "tsx", "txt", "vue",
            "xml", "yaml", "yml", "zsh",
        ],
{
}

} // verus!
