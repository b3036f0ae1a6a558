use agents_md::loaded::{
    load_project_instructions, source_heading, ContextUserInstructions, InstructionEntry,
    InstructionProvenance, InstructionSourceKind, LoadedAgentsMd, UserInstructions,
};
use agents_md::paths::{AbsolutePathBuf, PathUri};

fn path(text: &str) -> PathUri {
    PathUri {
        uri: format!("file://{text}"),
        native: format!("native {text}"),
        absolute: Some(text.to_string()),
        basename: None,
    }
}

fn absolute(text: &str) -> AbsolutePathBuf {
    AbsolutePathBuf { display: text.to_string(), uri: path(text) }
}

fn user(text: &str) -> UserInstructions {
    UserInstructions { text: text.to_string(), source: absolute("/home/AGENTS.md") }
}

fn project(file: &str, environment: &str, cwd: &str, contents: &str) -> InstructionEntry {
    InstructionEntry {
        contents: contents.to_string(),
        provenance: InstructionProvenance::Project {
            source_path: path(file),
            source_kind: InstructionSourceKind::Primary,
            environment_id: environment.to_string(),
            cwd: path(cwd),
        },
    }
}

fn internal(contents: &str) -> InstructionEntry {
    InstructionEntry {
        contents: contents.to_string(),
        provenance: InstructionProvenance::Internal,
    }
}

fn loaded(user_text: Option<&str>, entries: Vec<InstructionEntry>) -> LoadedAgentsMd {
    LoadedAgentsMd { user_instructions: user_text.map(user), entries }
}

#[test]
fn headings_say_how_a_file_was_found() {
    let file = path("/r/AGENTS.md");
    assert_eq!(
        source_heading(&file, InstructionSourceKind::Primary),
        "Instructions from `/r/AGENTS.md`"
    );
    assert_eq!(
        source_heading(&file, InstructionSourceKind::LocalAddition),
        "Local additions from `/r/AGENTS.md`"
    );
    let mut foreign = file.clone();
    foreign.absolute = None;
    assert_eq!(
        source_heading(&foreign, InstructionSourceKind::Reference),
        "Referenced instructions from `native /r/AGENTS.md`"
    );
}

#[test]
fn user_instructions_are_shown_as_they_are() {
    let loaded = LoadedAgentsMd::new_user(" be kind\n".to_string(), absolute("/home/AGENTS.md"));
    assert_eq!(loaded.text(), " be kind\n");
    assert_eq!(loaded.sources(), vec![path("/home/AGENTS.md")]);
    assert_eq!(loaded.user_instructions(), Some(&user(" be kind\n")));
    assert!(!loaded.is_empty());
}

#[test]
fn blank_instructions_are_none() {
    let nothing = LoadedAgentsMd::default();
    assert_eq!(LoadedAgentsMd::new_user(" \n".to_string(), absolute("/h")), nothing);
    assert_eq!(LoadedAgentsMd::from_user_instructions(Some(user("\t"))), nothing);
    assert_eq!(LoadedAgentsMd::from_user_instructions(None), nothing);
    assert_eq!(LoadedAgentsMd::from_text_for_testing("".to_string()), nothing);
    assert!(nothing.is_empty());
    assert!(loaded(None, vec![internal(" ")]).is_empty());
    assert_eq!(nothing.text(), "");
    assert_eq!(nothing.sources(), Vec::<PathUri>::new());
    assert_eq!(nothing.user_instructions(), None);
}

#[test]
fn instructions_for_tests_have_no_source() {
    let loaded = LoadedAgentsMd::from_text_for_testing("hi".to_string());
    assert_eq!(loaded.text(), "hi");
    assert_eq!(loaded.sources(), Vec::<PathUri>::new());
    assert_eq!(loaded.entries, vec![internal("hi")]);
    assert_eq!(loaded.entries[0].provenance.path(), None);
}

#[test]
fn the_separator_stands_where_project_instructions_begin() {
    let text = loaded(
        Some("user"),
        vec![
            project("/r/A", "e", "/r", "a"),
            project("/r/B", "e", "/r", "b"),
            internal("inner"),
            project("/r/C", "e", "/r", "c"),
        ],
    )
    .text();
    assert_eq!(
        text,
        "user\n\n--- project-doc ---\n\nInstructions from `/r/A`\n\na\n\nInstructions from \
         `/r/B`\n\nb\n\ninner\n\n--- project-doc ---\n\nInstructions from `/r/C`\n\nc"
    );
    assert_eq!(
        loaded(None, vec![project("/r/A", "e", "/r", "a")]).text(),
        "Instructions from `/r/A`\n\na"
    );
}

#[test]
fn several_environments_are_labeled() {
    let loaded = loaded(
        Some("user"),
        vec![
            project("/r/A", "one", "/r", "a"),
            project("/r/B", "one", "/r", "b"),
            project("/q/C", "two", "/q", "c"),
            internal("inner"),
            project("/q/D", "two", "/q", "d"),
            project("/q/E", "two", "/other", "e"),
        ],
    );
    assert!(loaded.has_multiple_project_environments());
    assert_eq!(
        loaded.text(),
        "user\n\nfor `one` with root native /r\n\nInstructions from `/r/A`\n\na\n\n\
         Instructions from `/r/B`\n\nb\n\nfor `two` with root native /q\n\nInstructions from \
         `/q/C`\n\nc\n\ninner\n\nfor `two` with root native /q\n\nInstructions from \
         `/q/D`\n\nd\n\nfor `two` with root native /other\n\nInstructions from `/q/E`\n\ne"
    );
    assert_eq!(loaded.context_user_instructions().directory, None);
}

#[test]
fn one_environment_names_its_directory() {
    let one = loaded(None, vec![internal("x"), project("/r/A", "e", "/r", "a")]);
    assert_eq!(
        one.context_user_instructions(),
        ContextUserInstructions {
            directory: Some("native /r".to_string()),
            text: "x\n\n--- project-doc ---\n\nInstructions from `/r/A`\n\na".to_string(),
        }
    );
    assert_eq!(one.single_project_cwd(), Some(&path("/r")));
    let none = loaded(Some("user"), vec![internal("x")]);
    assert_eq!(none.context_user_instructions().directory, None);
    assert_eq!(none.single_project_cwd(), None);
}

#[test]
fn the_same_environment_with_another_directory_is_one_environment() {
    let loaded =
        loaded(None, vec![project("/r/A", "e", "/r", "a"), project("/r/B", "e", "/q", "b")]);
    assert!(!loaded.has_multiple_project_environments());
    assert_eq!(loaded.text(), "Instructions from `/r/A`\n\na\n\nInstructions from `/r/B`\n\nb");
}

#[test]
fn sources_are_listed_in_order() {
    let loaded = loaded(
        Some("user"),
        vec![project("/r/A", "e", "/r", "a"), internal("x"), project("/r/B", "e", "/r", "b")],
    );
    assert_eq!(loaded.sources(), vec![path("/home/AGENTS.md"), path("/r/A"), path("/r/B")]);
}

#[test]
fn environments_are_combined_in_order() {
    let combined = load_project_instructions(
        Some(user("user")),
        vec![
            Ok(Some(loaded(None, vec![project("/r/A", "one", "/r", "a")]))),
            Err("locked".to_string()),
            Ok(None),
            Ok(Some(loaded(Some("ignored"), vec![project("/q/B", "two", "/q", "b")]))),
        ],
    );
    assert_eq!(
        combined,
        Some(loaded(
            Some("user"),
            vec![project("/r/A", "one", "/r", "a"), project("/q/B", "two", "/q", "b")]
        ))
    );
}

#[test]
fn nothing_to_show_is_nothing() {
    assert_eq!(load_project_instructions(None, Vec::new()), None);
    assert_eq!(load_project_instructions(Some(user(" ")), vec![Ok(None)]), None);
    assert_eq!(
        load_project_instructions(Some(user("x")), vec![Err("locked".to_string())]),
        Some(loaded(Some("x"), Vec::new()))
    );
}
