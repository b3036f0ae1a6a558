use agents_md::errors::FsError;
use agents_md::home::{
    render_instruction_file, CodexHomeUserInstructionsProvider, HomeRequest, InstructionFile,
    LoadedUserInstructions,
};
use agents_md::loaded::InstructionSourceKind;
use agents_md::paths::{AbsolutePathBuf, PathUri};

fn absolute(text: &str) -> AbsolutePathBuf {
    AbsolutePathBuf {
        display: text.to_string(),
        uri: PathUri {
            uri: format!("file://{text}"),
            native: text.to_string(),
            absolute: Some(text.to_string()),
            basename: None,
        },
    }
}

fn missing() -> FsError {
    FsError { not_found: true, message: "missing".to_string() }
}

fn locked() -> FsError {
    FsError { not_found: false, message: "locked".to_string() }
}

type Answer = Result<Option<Result<Vec<u8>, FsError>>, FsError>;

fn text(contents: &str) -> Answer {
    Ok(Some(Ok(contents.as_bytes().to_vec())))
}

fn load(files: [Answer; 3], asked: &mut Vec<String>) -> LoadedUserInstructions {
    let provider = CodexHomeUserInstructionsProvider::new(absolute("/home"));
    let mut load = provider.load_from_codex_home();
    loop {
        let name = match load.request() {
            HomeRequest::Metadata { name } | HomeRequest::ReadFile { name } => name,
            HomeRequest::Done => return load.finish(),
        };
        let path = absolute(&format!("{}/{}", provider.codex_home.display, name));
        let answer = match name.as_str() {
            "AGENTS.override.md" => files[0].clone(),
            "AGENTS.md" => files[1].clone(),
            "AGENTS.local.md" => files[2].clone(),
            _ => unreachable!(),
        };
        if matches!(load.request(), HomeRequest::Metadata { .. }) {
            asked.push(name);
            load.on_metadata(&path, answer.map(|contents| contents.is_some()));
        } else {
            load.on_data(&path, answer.unwrap().unwrap());
        }
    }
}

#[test]
fn the_override_takes_the_place_of_the_usual_file() {
    let mut asked = Vec::new();
    let loaded = load([text(" over \n"), text("usual"), text("local")], &mut asked);
    let instructions = loaded.instructions.unwrap();
    assert_eq!(
        instructions.text,
        "Instructions from `/home/AGENTS.override.md`\n\nover\n\nLocal additions from \
         `/home/AGENTS.local.md`\n\nlocal"
    );
    assert_eq!(instructions.source, absolute("/home/AGENTS.override.md"));
    assert_eq!(loaded.warnings, Vec::<String>::new());
    assert_eq!(asked, vec!["AGENTS.override.md", "AGENTS.local.md"]);
}

#[test]
fn the_usual_file_is_read_without_an_override() {
    let mut asked = Vec::new();
    for first in [Err(missing()), Ok(None), text(" \n"), Ok(Some(Err(missing())))] {
        let loaded = load([first, text("usual"), Err(missing())], &mut asked);
        let instructions = loaded.instructions.unwrap();
        assert_eq!(instructions.text, "Instructions from `/home/AGENTS.md`\n\nusual");
        assert_eq!(instructions.source, absolute("/home/AGENTS.md"));
        assert_eq!(loaded.warnings, Vec::<String>::new());
    }
}

#[test]
fn the_local_file_can_stand_alone() {
    let mut asked = Vec::new();
    let loaded = load([Err(missing()), Err(missing()), text("local")], &mut asked);
    let instructions = loaded.instructions.unwrap();
    assert_eq!(instructions.text, "Local additions from `/home/AGENTS.local.md`\n\nlocal");
    assert_eq!(instructions.source, absolute("/home/AGENTS.local.md"));
    assert_eq!(asked, vec!["AGENTS.override.md", "AGENTS.md", "AGENTS.local.md"]);
}

#[test]
fn unreadable_files_leave_warnings() {
    let mut asked = Vec::new();
    let loaded = load([Err(locked()), Ok(Some(Err(locked()))), Err(missing())], &mut asked);
    assert!(loaded.instructions.is_none());
    assert_eq!(
        loaded.warnings,
        vec![
            "Failed to read global AGENTS.md instructions from `/home/AGENTS.override.md`: locked",
            "Failed to read global AGENTS.md instructions from `/home/AGENTS.md`: locked",
        ]
    );
    let loaded = load([text("over"), Err(missing()), Err(locked())], &mut asked);
    assert!(loaded.instructions.is_some());
    assert_eq!(loaded.warnings.len(), 1);
}

#[test]
fn bytes_that_are_no_text_are_replaced() {
    let mut asked = Vec::new();
    let loaded = load([Ok(Some(Ok(vec![b'a', 0xff, b'b']))), Ok(None), Ok(None)], &mut asked);
    assert_eq!(
        loaded.instructions.unwrap().text,
        "Instructions from `/home/AGENTS.override.md`\n\na\u{fffd}b"
    );
}

#[test]
fn files_are_rendered_under_their_heading() {
    let file = InstructionFile {
        source: absolute("/home/x"),
        kind: InstructionSourceKind::LocalAddition,
        contents: "é".to_string(),
    };
    assert_eq!(render_instruction_file(&file), "Local additions from `/home/x`\n\né");
}

#[test]
fn the_first_of_any_candidates_counts() {
    let provider = CodexHomeUserInstructionsProvider::new(absolute("/home"));
    let names = ["gone", "locked", "blank", "first", "second"];
    let mut reading = provider.read_first_present(
        names.iter().map(|name| name.to_string()).collect(),
        InstructionSourceKind::LocalAddition,
        vec!["before".to_string()],
    );
    let mut asked = Vec::new();
    loop {
        match reading.request() {
            HomeRequest::Metadata { name } => {
                let path = absolute(&format!("/home/{name}"));
                reading.on_metadata(&path, if name == "gone" { Err(missing()) } else { Ok(true) });
                asked.push(name);
            }
            HomeRequest::ReadFile { name } => {
                let path = absolute(&format!("/home/{name}"));
                reading.on_data(
                    &path,
                    match name.as_str() {
                        "locked" => Err(locked()),
                        "blank" => Ok(b" \n".to_vec()),
                        _ => Ok(b" text ".to_vec()),
                    },
                );
            }
            HomeRequest::Done => break,
        }
    }
    let (found, warnings) = reading.finish();
    assert_eq!(
        found,
        Some(InstructionFile {
            source: absolute("/home/first"),
            kind: InstructionSourceKind::LocalAddition,
            contents: "text".to_string(),
        })
    );
    assert_eq!(
        warnings,
        vec![
            "before",
            "Failed to read global AGENTS.md instructions from `/home/locked`: locked",
        ]
    );
    assert_eq!(asked, names[..4]);
}

#[test]
fn no_candidates_give_nothing() {
    let provider = CodexHomeUserInstructionsProvider::new(absolute("/home"));
    let reading =
        provider.read_first_present(Vec::new(), InstructionSourceKind::Primary, Vec::new());
    assert_eq!(reading.request(), HomeRequest::Done);
    assert_eq!(reading.finish(), (None, Vec::new()));
}
