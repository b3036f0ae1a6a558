use agents_md::paths::{
    collect_reference_paths, eq_ignore_ascii_case, is_text_reference_path, is_uri_within_root,
    reference_relative_path, relative_reference_paths, PathUri,
    AGENTS_MD_REFERENCE_TEXT_EXTENSIONS,
};

fn path(text: &str) -> PathUri {
    let basename = match text.rsplit_once('/') {
        Some((_, "")) | None => None,
        Some((_, name)) => Some(name.to_string()),
    };
    PathUri {
        uri: format!("file://{text}"),
        native: text.to_string(),
        absolute: Some(text.to_string()),
        basename,
    }
}

#[test]
fn names_of_text_files() {
    for good in ["/a.md", "/a.MD", "/a.tar.Yml", "/Makefile", "/.gitignore", "/a.", "/", "/x.F90"] {
        assert!(is_text_reference_path(&path(good)), "{good}");
    }
    for bad in ["/a.png", "/a.md.exe", "/a.mdx", "/.a.bin", "/a.é"] {
        assert!(!is_text_reference_path(&path(bad)), "{bad}");
    }
}

#[test]
fn every_text_extension_counts() {
    assert_eq!(AGENTS_MD_REFERENCE_TEXT_EXTENSIONS.len(), 106);
    for extension in AGENTS_MD_REFERENCE_TEXT_EXTENSIONS {
        assert!(is_text_reference_path(&path(&format!("/x.{extension}"))));
        assert!(is_text_reference_path(&path(&format!("/x.{}", extension.to_uppercase()))));
    }
}

#[test]
fn case_matters_only_outside_of_ascii_letters() {
    for (a, b) in [("Ab", "aB"), ("é", "É"), ("a", "ab"), ("ab", "a"), ("[", "{"), ("", "")] {
        assert_eq!(eq_ignore_ascii_case(a, b), a.eq_ignore_ascii_case(b), "{a} {b}");
    }
}

#[test]
fn references_lead_to_what_stands_before_the_fragment() {
    assert_eq!(reference_relative_path("a.md"), Some("a.md"));
    assert_eq!(reference_relative_path("é.md#x#y"), Some("é.md"));
    assert_eq!(reference_relative_path("#x"), None);
    assert_eq!(reference_relative_path(""), None);
    assert_eq!(reference_relative_path("~/a.md"), None);
    assert_eq!(reference_relative_path("a~b"), Some("a~b"));
}

#[test]
fn relative_references_of_a_text() {
    assert_eq!(
        relative_reference_paths("@a.md#part @~/b @c.md\n`@d`"),
        vec!["a.md", "c.md"]
    );
}

#[test]
fn only_resolved_paths_are_collected() {
    let resolved = vec![Some(path("/b")), None, Some(path("/a"))];
    assert_eq!(collect_reference_paths(&resolved), vec![path("/b"), path("/a")]);
}

#[test]
fn a_root_holds_itself_and_what_is_under_it() {
    let ancestors = vec![path("/r/a"), path("/r"), path("/")];
    assert!(is_uri_within_root(&path("/r/a"), &ancestors, &path("/r")));
    assert!(is_uri_within_root(&path("/r"), &Vec::new(), &path("/r")));
    assert!(!is_uri_within_root(&path("/r/a"), &ancestors, &path("/q")));
    assert!(!is_uri_within_root(&path("/r/a"), &Vec::new(), &path("/r")));
}

#[test]
fn paths_are_the_same_by_their_uris() {
    let mut other = path("/a");
    other.native = "elsewhere".to_string();
    assert_eq!(path("/a"), other);
    assert_ne!(path("/a"), path("/b"));
    assert_eq!(other.clone().native, "elsewhere");
}
