use std::collections::HashMap;

use agents_md::discovery::{AgentsMdDiscovery, AgentsMdSource};
use agents_md::errors::FsError;
use agents_md::loaded::{InstructionProvenance, InstructionSourceKind, LoadedAgentsMd};
use agents_md::paths::PathUri;
use agents_md::reader::{CanonicalPath, InstructionReader, ReadRequest};

fn path(text: &str) -> PathUri {
    PathUri {
        uri: format!("file://{text}"),
        native: text.to_string(),
        absolute: Some(text.to_string()),
        basename: text.rsplit_once('/').map(|(_, name)| name.to_string()),
    }
}

fn parent(text: &str) -> &str {
    match text.rsplit_once('/') {
        Some(("", _)) | None => "/",
        Some((head, _)) => head,
    }
}

fn ancestors(text: &str) -> Vec<PathUri> {
    let mut found = vec![path(text)];
    let mut current = text;
    while current != "/" {
        current = parent(current);
        found.push(path(current));
    }
    found
}

fn error(not_found: bool) -> FsError {
    let message = if not_found { "missing" } else { "locked" };
    FsError { not_found, message: message.to_string() }
}

fn discovery(sources: &[(&str, InstructionSourceKind)]) -> AgentsMdDiscovery {
    AgentsMdDiscovery {
        sources: sources
            .iter()
            .map(|(text, source_kind)| AgentsMdSource {
                path: path(text),
                source_kind: *source_kind,
            })
            .collect(),
        reference_root: path("/r"),
    }
}

struct Disk {
    files: HashMap<String, Vec<u8>>,
    links: HashMap<String, String>,
    locked: Vec<String>,
    reads: Vec<String>,
}

impl Disk {
    fn new(files: &[(&str, &str)]) -> Disk {
        Disk {
            files: files.iter().map(|(n, t)| (n.to_string(), t.as_bytes().to_vec())).collect(),
            links: HashMap::new(),
            locked: Vec::new(),
            reads: Vec::new(),
        }
    }

    fn target_of(&self, name: &str) -> String {
        self.links.get(name).cloned().unwrap_or_else(|| name.to_string())
    }

    fn load(
        &mut self,
        sources: &[(&str, InstructionSourceKind)],
        max_total: usize,
    ) -> Result<Option<LoadedAgentsMd>, FsError> {
        let mut reader = InstructionReader::new(
            discovery(sources),
            max_total,
            "env".to_string(),
            path("/r/cwd"),
        );
        loop {
            match reader.request() {
                ReadRequest::Metadata { path } => {
                    let name = self.target_of(&path.native);
                    reader.on_metadata(if self.locked.contains(&name) {
                        Err(error(false))
                    } else if name.ends_with(".dir") {
                        Ok(false)
                    } else if self.files.contains_key(&name) {
                        Ok(true)
                    } else {
                        Err(error(true))
                    });
                }
                ReadRequest::Canonicalize { path: asked } => {
                    let name = self.target_of(&asked.native);
                    reader.on_canonical(if self.locked.contains(&format!("{name}?")) {
                        Err(error(false))
                    } else {
                        Ok(CanonicalPath { path: path(&name), ancestors: ancestors(&name) })
                    });
                }
                ReadRequest::ReadFile { path } => {
                    let name = self.target_of(&path.native);
                    self.reads.push(name.clone());
                    reader.on_data(if self.locked.contains(&format!("{name}!")) {
                        Err(error(false))
                    } else {
                        self.files.get(&name).cloned().ok_or(error(true))
                    });
                }
                ReadRequest::Resolve { source, references } => {
                    let directory = parent(&source.native).to_string();
                    reader.on_resolved(
                        references
                            .iter()
                            .map(|reference| {
                                if reference.contains('\u{0}') {
                                    None
                                } else if reference.starts_with('/') {
                                    Some(path(reference))
                                } else {
                                    Some(path(&format!("{directory}/{reference}")))
                                }
                            })
                            .collect(),
                    );
                }
                ReadRequest::Done => break,
                ReadRequest::Failed { error: reason } => {
                    assert_eq!(reason, error(false));
                    break;
                }
            }
        }
        reader.finish().expect("reading is over")
    }
}

const MAIN: &[(&str, InstructionSourceKind)] = &[("/r/AGENTS.md", InstructionSourceKind::Primary)];

fn names(loaded: &LoadedAgentsMd) -> Vec<String> {
    loaded.sources().into_iter().map(|path| path.native).collect()
}

fn contents(loaded: &LoadedAgentsMd) -> Vec<String> {
    loaded.entries.iter().map(|entry| entry.contents.clone()).collect()
}

#[test]
fn files_are_read_in_order_with_their_references_behind_them() {
    let mut disk = Disk::new(&[
        ("/r/AGENTS.md", "@one.md @two.md"),
        ("/r/AGENTS.local.md", "local @three.md"),
        ("/r/one.md", "one @deep.md"),
        ("/r/two.md", "two"),
        ("/r/three.md", "three"),
        ("/r/deep.md", "deep"),
    ]);
    let loaded = disk
        .load(
            &[
                ("/r/AGENTS.md", InstructionSourceKind::Primary),
                ("/r/AGENTS.local.md", InstructionSourceKind::LocalAddition),
            ],
            1000,
        )
        .unwrap()
        .unwrap();
    assert_eq!(
        names(&loaded),
        vec![
            "/r/AGENTS.md",
            "/r/one.md",
            "/r/deep.md",
            "/r/two.md",
            "/r/AGENTS.local.md",
            "/r/three.md"
        ]
    );
    assert_eq!(loaded.user_instructions, None);
    assert!(!loaded.has_multiple_project_environments());
    assert_eq!(
        loaded.entries[1].provenance,
        InstructionProvenance::Project {
            source_path: path("/r/one.md"),
            source_kind: InstructionSourceKind::Reference,
            environment_id: "env".to_string(),
            cwd: path("/r/cwd"),
        }
    );
}

#[test]
fn nothing_found_means_nothing_loaded() {
    assert_eq!(Disk::new(&[]).load(&[], 1000), Ok(None));
    assert_eq!(Disk::new(&[]).load(MAIN, 1000), Ok(None));
    assert_eq!(Disk::new(&[("/r/AGENTS.md", " \n")]).load(MAIN, 1000), Ok(None));
    assert_eq!(Disk::new(&[("/r/AGENTS.md", "x")]).load(MAIN, 0), Ok(None));
    let directory = [("/r/AGENTS.dir", InstructionSourceKind::Primary)];
    assert_eq!(Disk::new(&[("/r/AGENTS.dir", "x")]).load(&directory, 1000), Ok(None));
}

#[test]
fn no_file_is_read_twice() {
    let mut disk = Disk::new(&[
        ("/r/AGENTS.md", "@a.md @link.md @a.md @AGENTS.md"),
        ("/r/a.md", "a @AGENTS.md @b.md"),
        ("/r/b.md", "b @a.md"),
    ]);
    disk.links.insert("/r/link.md".to_string(), "/r/a.md".to_string());
    let loaded = disk.load(MAIN, 1000).unwrap().unwrap();
    assert_eq!(names(&loaded), vec!["/r/AGENTS.md", "/r/a.md", "/r/b.md"]);
    assert_eq!(disk.reads, vec!["/r/AGENTS.md", "/r/a.md", "/r/b.md"]);
}

#[test]
fn references_stay_under_the_root_and_lead_to_text() {
    let mut disk = Disk::new(&[
        ("/r/AGENTS.md", "@/etc/secret.md @image.png @way-out.md @in.md @LICENSE"),
        ("/etc/secret.md", "secret"),
        ("/r/image.png", "image"),
        ("/r/in.md", "in"),
        ("/r/LICENSE", "license"),
    ]);
    disk.links.insert("/r/way-out.md".to_string(), "/etc/secret.md".to_string());
    let loaded = disk.load(MAIN, 1000).unwrap().unwrap();
    assert_eq!(names(&loaded), vec!["/r/AGENTS.md", "/r/in.md", "/r/LICENSE"]);
}

#[test]
fn references_are_relative_to_the_path_that_led_to_the_file() {
    let mut disk = Disk::new(&[
        ("/r/AGENTS.md", "@sub/link.md"),
        ("/r/real/file.md", "file @next.md"),
        ("/r/sub/next.md", "next"),
    ]);
    disk.links.insert("/r/sub/link.md".to_string(), "/r/real/file.md".to_string());
    let loaded = disk.load(MAIN, 1000).unwrap().unwrap();
    assert_eq!(names(&loaded), vec!["/r/AGENTS.md", "/r/sub/link.md", "/r/sub/next.md"]);
}

#[test]
fn the_budget_cuts_off_the_last_file() {
    let mut disk = Disk::new(&[("/r/AGENTS.md", "12345"), ("/r/b", "67890"), ("/r/c", "x")]);
    let sources = [
        ("/r/AGENTS.md", InstructionSourceKind::Primary),
        ("/r/b", InstructionSourceKind::Primary),
        ("/r/c", InstructionSourceKind::Primary),
    ];
    let loaded = disk.load(&sources, 8).unwrap().unwrap();
    assert_eq!(contents(&loaded), vec!["12345", "678"]);
    assert_eq!(disk.reads, vec!["/r/AGENTS.md", "/r/b"]);
    let loaded = disk.load(&sources, 11).unwrap().unwrap();
    assert_eq!(contents(&loaded), vec!["12345", "67890", "x"]);
}

#[test]
fn blank_files_take_no_budget() {
    let mut disk = Disk::new(&[("/r/AGENTS.md", "     "), ("/r/b", "67890")]);
    let sources = [
        ("/r/AGENTS.md", InstructionSourceKind::Primary),
        ("/r/b", InstructionSourceKind::Primary),
    ];
    let loaded = disk.load(&sources, 5).unwrap().unwrap();
    assert_eq!(contents(&loaded), vec!["67890"]);
}

#[test]
fn a_cut_character_is_replaced() {
    let mut disk = Disk::new(&[("/r/AGENTS.md", "aé")]);
    let loaded = disk.load(MAIN, 2).unwrap().unwrap();
    assert_eq!(contents(&loaded), vec!["a\u{fffd}"]);
    let loaded = disk.load(MAIN, 3).unwrap().unwrap();
    assert_eq!(contents(&loaded), vec!["aé"]);
}

#[test]
fn references_are_followed_five_deep() {
    let mut disk = Disk::new(&[
        ("/r/AGENTS.md", "0 @1"),
        ("/r/1", "1 @2"),
        ("/r/2", "2 @3"),
        ("/r/3", "3 @4"),
        ("/r/4", "4 @5"),
        ("/r/5", "5 @6"),
        ("/r/6", "6"),
    ]);
    let loaded = disk.load(MAIN, 1000).unwrap().unwrap();
    assert_eq!(loaded.entries.len(), 6);
    assert_eq!(contents(&loaded)[5], "5 @6");
}

#[test]
fn at_most_thirty_two_references_are_followed() {
    let text: String = (0..40).map(|i| format!("@f{i} ")).collect();
    let mut disk = Disk::new(&[("/r/AGENTS.md", &text)]);
    for i in 0..40 {
        disk.files.insert(format!("/r/f{i}"), format!("{i}").into_bytes());
    }
    let loaded = disk.load(MAIN, 10000).unwrap().unwrap();
    assert_eq!(loaded.entries.len(), 33);
    assert_eq!(names(&loaded)[1], "/r/f8");
    assert_eq!(names(&loaded)[32], "/r/f39");
}

#[test]
fn failures_end_reading() {
    for locked in ["/r/AGENTS.md", "/r/AGENTS.md!", "/r?", "/r/a.md?", "/r/a.md", "/r/a.md!"] {
        let mut disk = Disk::new(&[("/r/AGENTS.md", "@a.md"), ("/r/a.md", "a")]);
        disk.locked.push(locked.to_string());
        assert_eq!(disk.load(MAIN, 1000), Err(error(false)), "{locked}");
    }
}

#[test]
fn a_missing_reference_is_passed_over() {
    let mut disk = Disk::new(&[("/r/AGENTS.md", "@gone.md @a\u{0}b @a.md"), ("/r/a.md", "a")]);
    let loaded = disk.load(MAIN, 1000).unwrap().unwrap();
    assert_eq!(contents(&loaded)[1..], ["a"]);
}

#[test]
fn the_reference_root_has_to_exist() {
    let mut reader =
        InstructionReader::new(discovery(MAIN), 1000, "env".to_string(), path("/r/cwd"));
    reader.on_metadata(Ok(true));
    reader.on_metadata(Ok(true));
    reader.on_text("@a.md".to_string(), 5);
    assert_eq!(
        reader.request(),
        ReadRequest::Resolve { source: path("/r/AGENTS.md"), references: vec!["a.md".to_string()] }
    );
    reader.on_resolved(vec![Some(path("/r/a.md"))]);
    assert_eq!(reader.request(), ReadRequest::Canonicalize { path: path("/r") });
    reader.on_canonical(Err(error(true)));
    assert_eq!(reader.request(), ReadRequest::Failed { error: error(true) });
    assert_eq!(reader.finish(), Some(Err(error(true))));
}

#[test]
fn reading_in_progress_has_no_result() {
    let reader = InstructionReader::new(discovery(MAIN), 10, "env".to_string(), path("/r/cwd"));
    assert_eq!(reader.request(), ReadRequest::Metadata { path: path("/r/AGENTS.md") });
    assert_eq!(reader.finish(), None);
}

#[test]
fn a_file_can_vanish_before_it_is_read() {
    let mut reader = InstructionReader::new(discovery(MAIN), 10, "env".to_string(), path("/r"));
    reader.on_metadata(Ok(true));
    reader.on_metadata(Err(error(true)));
    assert_eq!(reader.request(), ReadRequest::Done);
    let mut reader = InstructionReader::new(discovery(MAIN), 10, "env".to_string(), path("/r"));
    reader.on_metadata(Ok(true));
    reader.on_metadata(Ok(true));
    reader.on_data(Err(error(true)));
    assert_eq!(reader.finish(), Some(Ok(None)));
}

#[test]
fn references_are_asked_for_at_every_depth() {
    let mut reader =
        InstructionReader::new(discovery(MAIN), 1000, "env".to_string(), path("/r/cwd"));
    let mut depth = 0;
    let mut asked = Vec::new();
    loop {
        match reader.request() {
            ReadRequest::Metadata { .. } => reader.on_metadata(Ok(true)),
            ReadRequest::Canonicalize { path: asked } => {
                let name = match asked.native.as_str() {
                    "/r" => "/r".to_string(),
                    _ => format!("/r/c{depth}"),
                };
                reader.on_canonical(Ok(CanonicalPath {
                    path: path(&name),
                    ancestors: ancestors(&name),
                }));
            }
            ReadRequest::ReadFile { .. } => reader.on_data(Ok(b"@next".to_vec())),
            ReadRequest::Resolve { source, references } => {
                assert_eq!(reader.source(), Some(source.clone()));
                assert_eq!(references, vec!["next"]);
                asked.push(source.native);
                depth += 1;
                reader.on_resolved(vec![Some(path(&format!("/r/s{depth}")))]);
            }
            _ => break,
        }
    }
    assert_eq!(asked, vec!["/r/AGENTS.md", "/r/s1", "/r/s2", "/r/s3", "/r/s4", "/r/s5"]);
}

#[test]
fn the_budget_left_is_known() {
    let mut reader = InstructionReader::new(discovery(MAIN), 8, "env".to_string(), path("/r/cwd"));
    assert_eq!(reader.remaining(), 8);
    assert_eq!(reader.source(), Some(path("/r/AGENTS.md")));
    reader.on_metadata(Ok(true));
    reader.on_metadata(Ok(true));
    reader.on_data(Ok(b"123".to_vec()));
    assert_eq!(reader.remaining(), 5);
    reader.on_resolved(Vec::new());
    assert_eq!(reader.source(), None);
}
