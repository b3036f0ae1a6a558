use std::collections::HashMap;

use agents_md::discovery::{
    agents_md_paths, candidate_filenames, effective_root_markers, project_docs_enabled,
    root_marker_layers, search_directories, AgentsMdDiscovery, Config, ConfigLayerSource, Discovery,
    DiscoveryRequest, Probe, ProbeFailure,
};
use agents_md::errors::FsError;
use agents_md::loaded::InstructionSourceKind;
use agents_md::paths::PathUri;

fn path(text: &str) -> PathUri {
    PathUri {
        uri: format!("file://{text}"),
        native: text.to_string(),
        absolute: None,
        basename: text.rsplit_once('/').map(|(_, name)| name.to_string()),
    }
}

fn config(fallbacks: &[&str]) -> Config {
    Config {
        project_doc_max_bytes: 1000,
        project_doc_fallback_filenames: fallbacks.iter().map(|name| name.to_string()).collect(),
    }
}

fn error(message: &str, not_found: bool) -> FsError {
    FsError { not_found, message: message.to_string() }
}

fn strings(texts: &[&str]) -> Vec<String> {
    texts.iter().map(|text| text.to_string()).collect()
}

fn run(
    config: &Config,
    markers: &[&str],
    files: &[(&str, bool)],
    asked: &mut Vec<String>,
) -> Result<AgentsMdDiscovery, ProbeFailure> {
    let known: HashMap<String, bool> =
        files.iter().map(|(name, is_file)| (name.to_string(), *is_file)).collect();
    let chain = ["/r/a/b", "/r/a", "/r", "/"];
    let mut discovery = Discovery::new(
        config,
        path(chain[0]),
        chain.iter().map(|text| path(text)).collect(),
        chain[1..].iter().map(|text| path(text)).collect(),
        strings(markers),
    );
    while let DiscoveryRequest::Probe { directory, name } = discovery.request() {
        let full = format!("{}/{}", directory.native.trim_end_matches('/'), name);
        asked.push(full.clone());
        discovery.on_probe(if name == "bad" {
            Probe::InvalidName { message: "no name".to_string() }
        } else if name == "locked" {
            Probe::Failed { error: error(&full, false) }
        } else {
            match known.get(&full) {
                Some(is_file) => Probe::Found { path: path(&full), is_file: *is_file },
                None => Probe::Failed { error: error(&full, true) },
            }
        });
    }
    discovery.finish().expect("the search is over")
}

#[test]
fn candidates_are_tried_in_order_without_repetition() {
    let config = config(&["", "AGENTS.local.md", "README.md", "AGENTS.md", "README.md", "X"]);
    assert_eq!(
        candidate_filenames(&config),
        vec!["AGENTS.override.md", "AGENTS.md", "README.md", "X"]
    );
    assert_eq!(
        candidate_filenames(&self::config(&[])),
        vec!["AGENTS.override.md", "AGENTS.md"]
    );
}

#[test]
fn a_budget_of_zero_disables_project_docs() {
    let mut settings = config(&[]);
    assert!(project_docs_enabled(&settings));
    settings.project_doc_max_bytes = 0;
    assert!(!project_docs_enabled(&settings));
}

#[test]
fn project_layers_do_not_set_root_markers() {
    let layers = vec![
        ConfigLayerSource::Other,
        ConfigLayerSource::Project,
        ConfigLayerSource::Other,
        ConfigLayerSource::Project,
    ];
    assert_eq!(root_marker_layers(&layers), vec![0, 2]);
    assert_eq!(root_marker_layers(&Vec::new()), Vec::<usize>::new());
}

#[test]
fn unset_or_invalid_markers_fall_back_to_the_default() {
    assert_eq!(effective_root_markers(Ok(None)), vec![".git"]);
    assert_eq!(effective_root_markers(Err("no list".to_string())), vec![".git"]);
    assert_eq!(effective_root_markers(Ok(Some(strings(&[".hg"])))), vec![".hg"]);
    assert_eq!(effective_root_markers(Ok(Some(Vec::new()))), Vec::<String>::new());
}

#[test]
fn directories_go_from_the_root_to_the_working_directory() {
    let parents = vec![path("/r/a"), path("/r"), path("/")];
    assert_eq!(
        search_directories(&path("/r"), &path("/r/a/b"), &parents),
        vec![path("/r"), path("/r/a"), path("/r/a/b")]
    );
    assert_eq!(
        search_directories(&path("/r/a/b"), &path("/r/a/b"), &parents),
        vec![path("/r/a/b")]
    );
    assert_eq!(
        search_directories(&path("/elsewhere"), &path("/r/a/b"), &parents),
        vec![path("/"), path("/r"), path("/r/a"), path("/r/a/b")]
    );
}

#[test]
fn every_directory_below_the_root_contributes() {
    let mut asked = Vec::new();
    let found = run(
        &config(&["README.md"]),
        &[".git"],
        &[
            ("/AGENTS.md", true),
            ("/r/.git", false),
            ("/r/AGENTS.md", true),
            ("/r/AGENTS.override.md", true),
            ("/r/AGENTS.local.md", true),
            ("/r/a/AGENTS.md", false),
            ("/r/a/README.md", true),
            ("/r/a/b/AGENTS.local.md", true),
        ],
        &mut asked,
    )
    .unwrap();
    assert_eq!(
        agents_md_paths(&found),
        vec![
            path("/r/AGENTS.override.md"),
            path("/r/AGENTS.local.md"),
            path("/r/a/README.md"),
            path("/r/a/b/AGENTS.local.md"),
        ]
    );
    let kinds: Vec<InstructionSourceKind> = found.sources.iter().map(|s| s.source_kind).collect();
    assert_eq!(
        kinds,
        vec![
            InstructionSourceKind::Primary,
            InstructionSourceKind::LocalAddition,
            InstructionSourceKind::Primary,
            InstructionSourceKind::LocalAddition,
        ]
    );
    assert_eq!(found.reference_root, path("/r"));
    assert_eq!(asked[..3], ["/r/a/b/.git", "/r/a/.git", "/r/.git"]);
    assert!(!asked.contains(&"/r/AGENTS.md".to_string()));
    assert!(!asked.iter().any(|name| name == "/.git" || name.starts_with("/AGENTS")));
}

#[test]
fn the_nearest_marker_makes_the_root() {
    let mut asked = Vec::new();
    let found = run(
        &config(&[]),
        &[".hg", ".git"],
        &[("/r/a/.git", false), ("/r/.hg", false), ("/r/AGENTS.md", true)],
        &mut asked,
    )
    .unwrap();
    assert_eq!(found.reference_root, path("/r/a"));
    assert_eq!(agents_md_paths(&found), Vec::<PathUri>::new());
}

#[test]
fn without_a_marker_only_the_working_directory_counts() {
    let files = [("/r/AGENTS.md", true), ("/r/a/b/AGENTS.md", true)];
    let mut asked = Vec::new();
    let found = run(&config(&[]), &[".git"], &files, &mut asked).unwrap();
    assert_eq!(agents_md_paths(&found), vec![path("/r/a/b/AGENTS.md")]);
    assert_eq!(found.reference_root, path("/r/a/b"));
    assert_eq!(asked[3], "/.git");
}

#[test]
fn an_empty_marker_list_disables_parent_traversal() {
    let mut asked = Vec::new();
    let files = [("/r/.git", false), ("/r/AGENTS.md", true)];
    let found = run(&config(&[]), &[], &files, &mut asked).unwrap();
    assert_eq!(agents_md_paths(&found), Vec::<PathUri>::new());
    assert_eq!(
        asked,
        vec!["/r/a/b/AGENTS.override.md", "/r/a/b/AGENTS.md", "/r/a/b/AGENTS.local.md"]
    );
}

#[test]
fn failures_end_the_search() {
    let mut asked = Vec::new();
    let invalid = || Err(ProbeFailure::InvalidName { message: "no name".to_string() });
    let locked = || Err(ProbeFailure::Io { error: error("/r/a/b/locked", false) });
    assert_eq!(run(&config(&[]), &["bad"], &[], &mut asked), invalid());
    assert_eq!(run(&config(&[]), &[".git", "locked"], &[], &mut asked), locked());
    assert_eq!(run(&config(&["bad"]), &[], &[], &mut asked), invalid());
    assert_eq!(run(&config(&["locked"]), &[], &[], &mut asked), locked());
    let files = [("/r/a/b/AGENTS.md", true)];
    assert!(run(&config(&["locked"]), &[], &files, &mut asked).is_ok());
}

#[test]
fn a_search_in_progress_has_no_result() {
    let discovery = Discovery::new(
        &config(&[]),
        path("/r"),
        Vec::new(),
        Vec::new(),
        strings(&[".git"]),
    );
    assert!(discovery.finish().is_none());
}

#[test]
fn a_failed_search_says_why() {
    let mut discovery =
        Discovery::new(&config(&[]), path("/r"), Vec::new(), Vec::new(), Vec::new());
    discovery.on_probe(Probe::Failed { error: error("gone", true) });
    assert!(matches!(discovery.request(), DiscoveryRequest::Probe { .. }));
    discovery.on_probe(Probe::Failed { error: error("denied", false) });
    let failure = ProbeFailure::Io { error: error("denied", false) };
    assert_eq!(discovery.request(), DiscoveryRequest::Failed { failure: failure.clone() });
    assert_eq!(discovery.finish(), Some(Err(failure)));
}

#[test]
fn fallbacks_keep_the_order_of_their_first_occurrence() {
    assert_eq!(
        candidate_filenames(&config(&["B", "A", "B", "C", "A"]))[2..],
        ["B", "A", "C"]
    );
}
