//! Where the instruction files of a project are looked for.
//!
//! The project root is the nearest directory, from the working directory upwards, that holds one
//! of the root markers; where none does, the working directory alone counts. Every directory from
//! the project root down to the working directory contributes the first of its candidate files
//! that exists, and then its local overlay.

use vstd::prelude::*;
use crate::errors::FsError;
use crate::loaded::InstructionSourceKind;
use crate::paths::PathUri;
use crate::text::{same_str, strings, strs};

verus! {

/// The usual name of an instruction file.
pub const DEFAULT_AGENTS_MD_FILENAME: &'static str = "AGENTS.md";

/// The name of an instruction file that takes the place of the usual one.
pub const OVERRIDE_AGENTS_MD_FILENAME: &'static str = "AGENTS.override.md";

/// The name of an instruction file that is read in addition.
pub const LOCAL_AGENTS_MD_FILENAME: &'static str = "AGENTS.local.md";

/// The marker of a project root where none is configured.
pub const DEFAULT_PROJECT_ROOT_MARKER: &'static str = ".git";

/// The settings that instruction files are looked for with.
#[derive(Clone, Debug, PartialEq, Eq)]
pub struct Config {
    /// How many bytes of instruction files are read at most; with `0` none are looked for.
    pub project_doc_max_bytes: usize,
    /// Names that are tried where a directory has no file with one of the usual names.
    pub project_doc_fallback_filenames: Vec<String>,
}

/// Where a layer of the configuration comes from, as far as it matters here.
#[derive(Clone, Copy, Debug, PartialEq, Eq, Structural)]
pub enum ConfigLayerSource {
    /// The project itself.
    Project,
    /// Anything else.
    Other,
}

/// A file that instructions are read from.
#[derive(Clone, Debug, PartialEq, Eq)]
pub struct AgentsMdSource {
    pub path: PathUri,
    pub source_kind: InstructionSourceKind,
}

/// The files that instructions are read from, and the directory that they may reference files in.
#[derive(Clone, Debug, PartialEq, Eq)]
pub struct AgentsMdDiscovery {
    pub sources: Vec<AgentsMdSource>,
    pub reference_root: PathUri,
}

/// Whether instruction files of projects are looked for at all.
pub fn project_docs_enabled(config: &Config) -> (r: bool)
    ensures
        r == (config.project_doc_max_bytes != 0),
{
    config.project_doc_max_bytes != 0
}

/// The candidate names `names`, and those of `fallbacks` that are new: not empty, not the local
/// overlay, and not there before.
pub open spec fn with_fallbacks(names: Seq<Seq<char>>, fallbacks: Seq<Seq<char>>) -> Seq<Seq<char>>
    decreases fallbacks.len(),
{
    if fallbacks.len() == 0 {
        names
    } else {
        let name = fallbacks[0];
        let rest = fallbacks.drop_first();
        if name.len() == 0 || name == LOCAL_AGENTS_MD_FILENAME@ || names.contains(name) {
            with_fallbacks(names, rest)
        } else {
            with_fallbacks(names.push(name), rest)
        }
    }
}

/// The names that are tried in a directory, in order.
pub open spec fn candidate_names(fallbacks: Seq<Seq<char>>) -> Seq<Seq<char>> {
    with_fallbacks(seq![OVERRIDE_AGENTS_MD_FILENAME@, DEFAULT_AGENTS_MD_FILENAME@], fallbacks)
}

fn contains_str(names: &Vec<&str>, name: &str) -> (r: bool)
    ensures
        r == strs(names@).contains(name@),
{
    for i in 0..names.len()
        invariant
            forall|j: int| 0 <= j < i ==> (#[trigger] strs(names@)[j]) != name@,
    {
        if same_str(names[i], name) {
            assert(strs(names@)[i as int] == name@);
            return true;
        }
    }
    false
}

/// The names that are tried in a directory, in order: the override, the usual name, and the
/// configured fallbacks.
pub fn candidate_filenames(config: &Config) -> (r: Vec<&str>)
    ensures
        strs(r@) == candidate_names(strings(config.project_doc_fallback_filenames@)),
{
    let fallbacks = &config.project_doc_fallback_filenames;
    let ghost all = strings(fallbacks@);
    let mut names: Vec<&str> = Vec::new();
    names.push(OVERRIDE_AGENTS_MD_FILENAME);
    names.push(DEFAULT_AGENTS_MD_FILENAME);
    assert(strs(names@) =~= seq![OVERRIDE_AGENTS_MD_FILENAME@, DEFAULT_AGENTS_MD_FILENAME@]);
    assert(all.skip(0) =~= all);
    for i in 0..fallbacks.len()
        invariant
            all == strings(fallbacks@),
            with_fallbacks(strs(names@), all.skip(i as int)) == candidate_names(all),
    {
        let candidate = fallbacks[i].as_str();
        proof {
            assert(all[i as int] == candidate@);
            assert(all.skip(i as int)[0] == candidate@);
            assert(all.skip(i as int).drop_first() =~= all.skip(i + 1));
        }
        if !candidate.is_empty() && !same_str(candidate, LOCAL_AGENTS_MD_FILENAME)
            && !contains_str(&names, candidate) {
            let ghost before = names@;
            names.push(candidate);
            assert(strs(names@) =~= strs(before).push(candidate@));
        }
    }
    names
}

/// The layers before `n` that do not come from the project, in order.
pub open spec fn outer_layers(layers: Seq<ConfigLayerSource>, n: int) -> Seq<usize>
    decreases n,
{
    if n <= 0 {
        Seq::empty()
    } else if layers[n - 1] == ConfigLayerSource::Project {
        outer_layers(layers, n - 1)
    } else {
        outer_layers(layers, n - 1).push((n - 1) as usize)
    }
}

/// The layers of the configuration that can set the root markers, in the order in which they are
/// merged: all but those of the project, which is only found with the markers.
pub fn root_marker_layers(layers: &Vec<ConfigLayerSource>) -> (r: Vec<usize>)
    ensures
        r@ == outer_layers(layers@, layers@.len() as int),
{
    let mut kept: Vec<usize> = Vec::new();
    for i in 0..layers.len()
        invariant
            kept@ == outer_layers(layers@, i as int),
    {
        if layers[i] != ConfigLayerSource::Project {
            kept.push(i);
        }
    }
    kept
}

/// The root markers that hold, given what the configuration says of them.
pub open spec fn markers_in_force(
    configured: Result<Option<Vec<String>>, String>,
) -> Seq<Seq<char>> {
    match configured {
        Ok(Some(markers)) => strings(markers@),
        _ => seq![DEFAULT_PROJECT_ROOT_MARKER@],
    }
}

/// The root markers that hold, given what the configuration says of them: those that it sets, or
/// the default one where it sets none or where they cannot be read.
pub fn effective_root_markers(configured: Result<Option<Vec<String>>, String>) -> (r: Vec<String>)
    ensures
        strings(r@) == markers_in_force(configured),
        match configured {
            Ok(Some(markers)) => r == markers,
            _ => strings(r@) == seq![DEFAULT_PROJECT_ROOT_MARKER@],
        },
{
    match configured {
        Ok(Some(markers)) => markers,
        _ => {
            let mut markers: Vec<String> = Vec::new();
            markers.push(DEFAULT_PROJECT_ROOT_MARKER.to_owned());
            assert(strings(markers@) =~= seq![DEFAULT_PROJECT_ROOT_MARKER@]);
            markers
        },
    }
}

/// The directories of `chain` up to and with the first that is `root`.
pub open spec fn up_to_root(chain: Seq<PathUri>, root: PathUri) -> Seq<PathUri>
    decreases chain.len(),
{
    if chain.len() == 0 {
        Seq::empty()
    } else if chain[0].uri@ == root.uri@ {
        seq![chain[0]]
    } else {
        seq![chain[0]] + up_to_root(chain.drop_first(), root)
    }
}

/// The directories from `root` down to `cwd`, whose parents are `parents`, from the nearest on.
pub open spec fn directories_from(
    root: PathUri,
    cwd: PathUri,
    parents: Seq<PathUri>,
) -> Seq<PathUri> {
    up_to_root(seq![cwd] + parents, root).reverse()
}

/// The directories from `root` down to `cwd`, whose parents are `parents`, from the nearest on.
pub fn search_directories(root: &PathUri, cwd: &PathUri, parents: &Vec<PathUri>) -> (r: Vec<
    PathUri,
>)
    ensures
        r@ == directories_from(*root, *cwd, parents@),
{
    let ghost chain = seq![*cwd] + parents@;
    let mut count: usize = 0;
    let ghost all = up_to_root(chain, *root);
    assert(chain.skip(0) =~= chain);
    assert(chain.take(0) + up_to_root(chain.skip(0), *root) =~= all);
    let mut current: &PathUri = cwd;
    // `count` parents of `cwd` are known to belong to the result.
    while *current != *root && count < parents.len()
        invariant
            chain == seq![*cwd] + parents@,
            all == up_to_root(chain, *root),
            0 <= count <= parents@.len(),
            *current == chain[count as int],
            all == chain.take(count as int) + up_to_root(chain.skip(count as int), *root),
        decreases parents@.len() - count,
    {
        proof {
            assert(chain.skip(count as int)[0] == *current);
            assert(chain.skip(count as int).drop_first() =~= chain.skip(count + 1));
            assert(chain.take(count as int) + (seq![*current] + up_to_root(
                chain.skip(count + 1),
                *root,
            )) =~= chain.take(count + 1) + up_to_root(chain.skip(count + 1), *root));
        }
        current = &parents[count];
        count = count + 1;
    }
    proof {
        assert(chain.skip(count as int)[0] == *current);
        assert(chain.skip(count as int).drop_first() =~= chain.skip(count + 1));
        if current.uri@ != root.uri@ {
            assert(up_to_root(chain.skip(count + 1), *root) =~= Seq::empty());
        }
        assert(all =~= chain.take(count + 1));
    }
    let mut directories: Vec<PathUri> = Vec::new();
    let mut i: usize = count;
    while i > 0
        invariant
            chain == seq![*cwd] + parents@,
            i <= count <= parents@.len(),
            directories@.len() == count - i,
            forall|j: int| 0 <= j < directories@.len() ==> directories@[j] == chain[count - j],
        decreases i,
    {
        i = i - 1;
        directories.push(parents[i].clone());
    }
    directories.push(cwd.clone());
    assert(directories@ =~= all.reverse());
    directories
}

/// What is found out about a name in a directory.
#[derive(Clone, Debug, PartialEq, Eq)]
pub enum Probe {
    /// The name makes no path in the directory.
    InvalidName { message: String },
    /// Nothing is there, or it cannot be found out what is there.
    Failed { error: FsError },
    /// Something is there.
    Found {
        /// The path of the name in the directory.
        path: PathUri,
        /// Whether it is a regular file.
        is_file: bool,
    },
}

/// Why the search for instruction files ended early.
#[derive(Debug, PartialEq, Eq)]
pub enum ProbeFailure {
    /// A name made no path in a directory.
    InvalidName { message: String },
    /// It could not be found out what is at a path.
    Io { error: FsError },
}

impl Clone for ProbeFailure {
    fn clone(&self) -> (r: Self)
        ensures
            r == *self,
    {
        match self {
            ProbeFailure::InvalidName { message } => ProbeFailure::InvalidName {
                message: message.clone(),
            },
            ProbeFailure::Io { error } => ProbeFailure::Io { error: error.clone() },
        }
    }
}

impl Probe {
    /// Why the search ends with this answer, if it does. It does not where nothing is there.
    pub open spec fn failure(self) -> Option<ProbeFailure> {
        match self {
            Probe::InvalidName { message } => Some(ProbeFailure::InvalidName { message }),
            Probe::Failed { error } => if error.not_found {
                None
            } else {
                Some(ProbeFailure::Io { error })
            },
            Probe::Found { .. } => None,
        }
    }
}

/// How far the search for instruction files has come.
pub enum DiscoveryPhase {
    /// The next question is about a root marker in an ancestor.
    Markers { ancestor: int, marker: int },
    /// The next question is about a candidate file in a directory.
    Candidates { directory: int, name: int },
    /// The next question is about the local overlay in a directory.
    Local { directory: int },
    /// Everything is found out.
    Done,
    /// The search ended early.
    Failed { failure: ProbeFailure },
}

#[derive(Debug)]
enum Cursor {
    Markers { ancestor: usize, marker: usize },
    Candidates { directory: usize, name: usize },
    Local { directory: usize },
    Done,
    Failed { failure: ProbeFailure },
}

impl View for Cursor {
    type V = DiscoveryPhase;

    closed spec fn view(&self) -> DiscoveryPhase {
        match *self {
            Cursor::Markers { ancestor, marker } => DiscoveryPhase::Markers {
                ancestor: ancestor as int,
                marker: marker as int,
            },
            Cursor::Candidates { directory, name } => DiscoveryPhase::Candidates {
                directory: directory as int,
                name: name as int,
            },
            Cursor::Local { directory } => DiscoveryPhase::Local { directory: directory as int },
            Cursor::Done => DiscoveryPhase::Done,
            Cursor::Failed { failure } => DiscoveryPhase::Failed { failure },
        }
    }
}

/// What the search for instruction files wants to know next.
#[derive(Clone, Debug, PartialEq, Eq)]
pub enum DiscoveryRequest {
    /// What is at a name in a directory.
    Probe { directory: PathUri, name: String },
    /// Nothing: the search is done.
    Done,
    /// Nothing: the search ended early.
    Failed { failure: ProbeFailure },
}

/// The search for the instruction files of a project, one question at a time.
#[derive(Debug)]
pub struct Discovery {
    cwd: PathUri,
    ancestors: Vec<PathUri>,
    parents: Vec<PathUri>,
    markers: Vec<String>,
    names: Vec<String>,
    phase: Cursor,
    directories: Vec<PathUri>,
    reference_root: PathUri,
    found: Vec<AgentsMdSource>,
}

/// The state of a [`Discovery`].
pub struct DiscoveryState {
    /// The working directory.
    pub cwd: PathUri,
    /// The directories that are searched for root markers, in order.
    pub ancestors: Seq<PathUri>,
    /// The parents of the working directory, from the nearest on.
    pub parents: Seq<PathUri>,
    /// The root markers.
    pub markers: Seq<Seq<char>>,
    /// The candidate names.
    pub names: Seq<Seq<char>>,
    /// How far the search has come.
    pub phase: DiscoveryPhase,
    /// The directories that are searched for instruction files, in order.
    pub directories: Seq<PathUri>,
    /// The directory that references may lead into.
    pub reference_root: PathUri,
    /// The instruction files found so far.
    pub found: Seq<AgentsMdSource>,
}

/// What a [`DiscoveryState`] wants to know next.
pub enum DiscoveryQuestion {
    Probe { directory: PathUri, name: Seq<char> },
    Done,
    Failed { failure: ProbeFailure },
}

impl DiscoveryState {
    /// Every index is in range, and until a root is found the working directory alone counts.
    pub open spec fn wf(self) -> bool {
        &&& self.names.len() > 0
        &&& match self.phase {
            DiscoveryPhase::Markers { ancestor, marker } => 0 <= ancestor < self.ancestors.len()
                && 0 <= marker < self.markers.len() && self.directories == seq![self.cwd]
                && self.reference_root == self.cwd && self.found.len() == 0,
            DiscoveryPhase::Candidates { directory, name } => 0 <= directory
                < self.directories.len() && 0 <= name < self.names.len(),
            DiscoveryPhase::Local { directory } => 0 <= directory < self.directories.len(),
            _ => true,
        }
    }

    /// The state before the first question. Without markers, or without directories to look for
    /// them in, the working directory alone is searched.
    pub open spec fn initial(
        cwd: PathUri,
        ancestors: Seq<PathUri>,
        parents: Seq<PathUri>,
        markers: Seq<Seq<char>>,
        names: Seq<Seq<char>>,
    ) -> DiscoveryState {
        DiscoveryState {
            cwd,
            ancestors,
            parents,
            markers,
            names,
            phase: if markers.len() > 0 && ancestors.len() > 0 {
                DiscoveryPhase::Markers { ancestor: 0, marker: 0 }
            } else {
                DiscoveryPhase::Candidates { directory: 0, name: 0 }
            },
            directories: seq![cwd],
            reference_root: cwd,
            found: Seq::empty(),
        }
    }

    /// What the search wants to know next.
    pub open spec fn question(self) -> DiscoveryQuestion {
        match self.phase {
            DiscoveryPhase::Markers { ancestor, marker } => DiscoveryQuestion::Probe {
                directory: self.ancestors[ancestor],
                name: self.markers[marker],
            },
            DiscoveryPhase::Candidates { directory, name } => DiscoveryQuestion::Probe {
                directory: self.directories[directory],
                name: self.names[name],
            },
            DiscoveryPhase::Local { directory } => DiscoveryQuestion::Probe {
                directory: self.directories[directory],
                name: LOCAL_AGENTS_MD_FILENAME@,
            },
            DiscoveryPhase::Done => DiscoveryQuestion::Done,
            DiscoveryPhase::Failed { failure } => DiscoveryQuestion::Failed { failure },
        }
    }

    /// The state with the project root at `root`.
    pub open spec fn rooted(self, root: PathUri) -> DiscoveryState {
        DiscoveryState {
            phase: DiscoveryPhase::Candidates { directory: 0, name: 0 },
            directories: directories_from(root, self.cwd, self.parents),
            reference_root: root,
            ..self
        }
    }

    /// The state in another phase.
    pub open spec fn in_phase(self, phase: DiscoveryPhase) -> DiscoveryState {
        DiscoveryState { phase, ..self }
    }

    /// The state with one more instruction file.
    pub open spec fn with_source(
        self,
        path: PathUri,
        kind: InstructionSourceKind,
    ) -> DiscoveryState {
        DiscoveryState {
            found: self.found.push(AgentsMdSource { path, source_kind: kind }),
            ..self
        }
    }

    /// The phase after a marker that is not there: the next marker, the first marker in the next
    /// ancestor, or the candidate files of the working directory.
    pub open spec fn after_missing_marker(self, ancestor: int, marker: int) -> DiscoveryPhase {
        if marker + 1 < self.markers.len() {
            DiscoveryPhase::Markers { ancestor, marker: marker + 1 }
        } else if ancestor + 1 < self.ancestors.len() {
            DiscoveryPhase::Markers { ancestor: ancestor + 1, marker: 0 }
        } else {
            DiscoveryPhase::Candidates { directory: 0, name: 0 }
        }
    }

    /// The phase after a candidate that is no regular file.
    pub open spec fn after_missing_candidate(self, directory: int, name: int) -> DiscoveryPhase {
        if name + 1 < self.names.len() {
            DiscoveryPhase::Candidates { directory, name: name + 1 }
        } else {
            DiscoveryPhase::Local { directory }
        }
    }

    /// The phase after the local overlay of a directory.
    pub open spec fn after_local(self, directory: int) -> DiscoveryPhase {
        if directory + 1 < self.directories.len() {
            DiscoveryPhase::Candidates { directory: directory + 1, name: 0 }
        } else {
            DiscoveryPhase::Done
        }
    }

    /// The state after an answer to the last question.
    pub open spec fn answered(self, probe: Probe) -> DiscoveryState {
        match (self.question(), probe.failure()) {
            (DiscoveryQuestion::Probe { .. }, Some(failure)) => self.in_phase(
                DiscoveryPhase::Failed { failure },
            ),
            (DiscoveryQuestion::Probe { .. }, None) => self.after_look(probe),
            _ => self,
        }
    }

    /// The state behind a marker, a candidate or an overlay.
    pub open spec fn after_missing(self) -> DiscoveryState {
        match self.phase {
            DiscoveryPhase::Markers { ancestor, marker } => self.in_phase(
                self.after_missing_marker(ancestor, marker),
            ),
            DiscoveryPhase::Candidates { directory, name } => self.in_phase(
                self.after_missing_candidate(directory, name),
            ),
            DiscoveryPhase::Local { directory } => self.in_phase(self.after_local(directory)),
            _ => self,
        }
    }

    /// The state after an answer that does not end the search.
    pub open spec fn after_look(self, probe: Probe) -> DiscoveryState {
        match (self.phase, probe) {
            (DiscoveryPhase::Markers { ancestor, .. }, Probe::Found { .. }) => self.rooted(
                self.ancestors[ancestor],
            ),
            (
                DiscoveryPhase::Candidates { directory, .. },
                Probe::Found { path, is_file: true },
            ) => self.with_source(path, InstructionSourceKind::Primary).in_phase(
                DiscoveryPhase::Local { directory },
            ),
            (DiscoveryPhase::Local { .. }, Probe::Found { path, is_file: true }) =>
                self.with_source(path, InstructionSourceKind::LocalAddition).after_missing(),
            _ => self.after_missing(),
        }
    }
}

impl View for Discovery {
    type V = DiscoveryState;

    closed spec fn view(&self) -> DiscoveryState {
        DiscoveryState {
            cwd: self.cwd,
            ancestors: self.ancestors@,
            parents: self.parents@,
            markers: strings(self.markers@),
            names: strings(self.names@),
            phase: self.phase@,
            directories: self.directories@,
            reference_root: self.reference_root,
            found: self.found@,
        }
    }
}

impl Discovery {
    /// A search from `cwd`, whose ancestors are `ancestors` and whose parents are `parents`, both
    /// from the nearest on, with the given root markers.
    pub fn new(
        config: &Config,
        cwd: PathUri,
        ancestors: Vec<PathUri>,
        parents: Vec<PathUri>,
        markers: Vec<String>,
    ) -> (r: Discovery)
        ensures
            r@.wf(),
            r@ == DiscoveryState::initial(
                cwd,
                ancestors@,
                parents@,
                strings(markers@),
                candidate_names(strings(config.project_doc_fallback_filenames@)),
            ),
    {
        let candidates = candidate_filenames(config);
        let mut names: Vec<String> = Vec::new();
        for i in 0..candidates.len()
            invariant
                names@.len() == i,
                forall|j: int| 0 <= j < i ==> (#[trigger] names@[j])@ == candidates@[j]@,
        {
            names.push(candidates[i].to_owned());
        }
        assert(strings(names@) =~= strs(candidates@));
        let phase = if !markers.is_empty() && !ancestors.is_empty() {
            Cursor::Markers { ancestor: 0, marker: 0 }
        } else {
            Cursor::Candidates { directory: 0, name: 0 }
        };
        let mut directories: Vec<PathUri> = Vec::new();
        directories.push(cwd.clone());
        assert(directories@ =~= seq![cwd]);
        let reference_root = cwd.clone();
        proof {
            lemma_first_names();
            lemma_with_fallbacks(
                seq![OVERRIDE_AGENTS_MD_FILENAME@, DEFAULT_AGENTS_MD_FILENAME@],
                strings(config.project_doc_fallback_filenames@),
            );
        }
        Discovery {
            cwd,
            ancestors,
            parents,
            markers,
            names,
            phase,
            directories,
            reference_root,
            found: Vec::new(),
        }
    }

    /// What the search wants to know next.
    pub fn request(&self) -> (r: DiscoveryRequest)
        requires
            self@.wf(),
        ensures
            match (self@.question(), r) {
                (
                    DiscoveryQuestion::Probe { directory, name },
                    DiscoveryRequest::Probe { directory: asked, name: text },
                ) => asked == directory && text@ == name,
                (DiscoveryQuestion::Done, DiscoveryRequest::Done) => true,
                (
                    DiscoveryQuestion::Failed { failure },
                    DiscoveryRequest::Failed { failure: reason },
                ) => reason == failure,
                _ => false,
            },
    {
        match &self.phase {
            Cursor::Markers { ancestor, marker } => DiscoveryRequest::Probe {
                directory: self.ancestors[*ancestor].clone(),
                name: self.markers[*marker].clone(),
            },
            Cursor::Candidates { directory, name } => DiscoveryRequest::Probe {
                directory: self.directories[*directory].clone(),
                name: self.names[*name].clone(),
            },
            Cursor::Local { directory } => DiscoveryRequest::Probe {
                directory: self.directories[*directory].clone(),
                name: LOCAL_AGENTS_MD_FILENAME.to_owned(),
            },
            Cursor::Done => DiscoveryRequest::Done,
            Cursor::Failed { failure } => DiscoveryRequest::Failed { failure: failure.clone() },
        }
    }

    /// Takes the answer to the last question.
    pub fn on_probe(&mut self, probe: Probe)
        requires
            old(self)@.wf(),
        ensures
            final(self)@.wf(),
            final(self)@ == old(self)@.answered(probe),
    {
        match &self.phase {
            Cursor::Done => return ,
            Cursor::Failed { .. } => return ,
            _ => {},
        }
        match probe {
            Probe::InvalidName { message } => {
                self.phase = Cursor::Failed { failure: ProbeFailure::InvalidName { message } };
            },
            Probe::Failed { error } => {
                if error.not_found {
                    self.on_missing();
                } else {
                    self.phase = Cursor::Failed { failure: ProbeFailure::Io { error } };
                }
            },
            Probe::Found { path, is_file } => self.on_found(path, is_file),
        }
    }

    /// Goes on with what is there.
    fn on_found(&mut self, path: PathUri, is_file: bool)
        requires
            old(self)@.wf(),
            old(self)@.question() is Probe,
        ensures
            final(self)@.wf(),
            final(self)@ == old(self)@.after_look(Probe::Found { path, is_file }),
    {
        match &self.phase {
            Cursor::Markers { ancestor, .. } => {
                let root = self.ancestors[*ancestor].clone();
                proof {
                    lemma_directories_from(root, self.cwd, self.parents@);
                }
                self.directories = search_directories(&root, &self.cwd, &self.parents);
                self.reference_root = root;
                self.phase = Cursor::Candidates { directory: 0, name: 0 };
            },
            Cursor::Candidates { directory, .. } => {
                let directory: usize = *directory;
                if is_file {
                    self.found.push(
                        AgentsMdSource { path, source_kind: InstructionSourceKind::Primary },
                    );
                    self.phase = Cursor::Local { directory };
                } else {
                    self.on_missing();
                }
            },
            _ => {
                if is_file {
                    self.found.push(
                        AgentsMdSource { path, source_kind: InstructionSourceKind::LocalAddition },
                    );
                }
                self.on_missing();
            },
        }
    }

    /// Goes on behind a marker, a candidate or an overlay.
    fn on_missing(&mut self)
        requires
            old(self)@.wf(),
            old(self)@.question() is Probe,
        ensures
            final(self)@.wf(),
            final(self)@ == old(self)@.after_missing(),
    {
        match &self.phase {
            Cursor::Markers { ancestor, marker } => {
                let (ancestor, marker): (usize, usize) = (*ancestor, *marker);
                self.phase = if self.markers.len() - marker > 1 {
                    Cursor::Markers { ancestor, marker: marker + 1 }
                } else if self.ancestors.len() - ancestor > 1 {
                    Cursor::Markers { ancestor: ancestor + 1, marker: 0 }
                } else {
                    Cursor::Candidates { directory: 0, name: 0 }
                };
            },
            Cursor::Candidates { directory, name } => {
                let (directory, name): (usize, usize) = (*directory, *name);
                self.phase = if self.names.len() - name > 1 {
                    Cursor::Candidates { directory, name: name + 1 }
                } else {
                    Cursor::Local { directory }
                };
            },
            Cursor::Local { directory } => {
                let directory: usize = *directory;
                self.phase = if self.directories.len() - directory > 1 {
                    Cursor::Candidates { directory: directory + 1, name: 0 }
                } else {
                    Cursor::Done
                };
            },
            _ => {},
        }
    }

    /// What the search found, or why it ended early; `None` while there are questions left.
    pub fn finish(self) -> (r: Option<Result<AgentsMdDiscovery, ProbeFailure>>)
        ensures
            match (self@.phase, r) {
                (DiscoveryPhase::Done, Some(Ok(discovery))) => {
                    &&& discovery.sources@ == self@.found
                    &&& discovery.reference_root == self@.reference_root
                },
                (DiscoveryPhase::Failed { failure }, Some(Err(reason))) => reason == failure,
                (DiscoveryPhase::Done, _) => false,
                (DiscoveryPhase::Failed { .. }, _) => false,
                (_, None) => true,
                _ => false,
            },
    {
        match self.phase {
            Cursor::Done => Some(
                Ok(
                    AgentsMdDiscovery { sources: self.found, reference_root: self.reference_root },
                ),
            ),
            Cursor::Failed { failure } => Some(Err(failure)),
            _ => None,
        }
    }
}

/// The files that instructions are read from, in order.
pub fn agents_md_paths(discovery: &AgentsMdDiscovery) -> (r: Vec<PathUri>)
    ensures
        r@ == discovery.sources@.map_values(|source: AgentsMdSource| source.path),
{
    let mut paths: Vec<PathUri> = Vec::new();
    for i in 0..discovery.sources.len()
        invariant
            paths@.len() == i,
            forall|j: int| 0 <= j < i ==> paths@[j] == discovery.sources@[j].path,
    {
        paths.push(discovery.sources[i].path.clone());
    }
    assert(paths@ =~= discovery.sources@.map_values(|source: AgentsMdSource| source.path));
    paths
}

pub(crate) proof fn lemma_with_fallbacks(names: Seq<Seq<char>>, fallbacks: Seq<Seq<char>>)
    requires
        names.no_duplicates(),
        !names.contains(LOCAL_AGENTS_MD_FILENAME@),
        !names.contains(Seq::empty()),
    ensures
        ({
            let all = with_fallbacks(names, fallbacks);
            &&& all.no_duplicates()
            &&& !all.contains(LOCAL_AGENTS_MD_FILENAME@)
            &&& !all.contains(Seq::empty())
            &&& names.len() <= all.len()
            &&& all.take(names.len() as int) == names
            &&& forall|name: Seq<char>|
                #![trigger all.contains(name)]
                #![trigger names.contains(name)]
                #![trigger fallbacks.contains(name)]
                all.contains(name) <==> names.contains(name) || fallbacks.contains(name)
                    && name.len() > 0 && name != LOCAL_AGENTS_MD_FILENAME@
        }),
    decreases fallbacks.len(),
{
    if fallbacks.len() == 0 {
        assert(names.take(names.len() as int) =~= names);
    } else {
        let first = fallbacks[0];
        let rest = fallbacks.drop_first();
        let all = with_fallbacks(names, fallbacks);
        assert forall|name: Seq<char>| fallbacks.contains(name) <==> (name == first
            || #[trigger] rest.contains(name)) by {
            if fallbacks.contains(name) && name != first {
                let i = choose|i: int| 0 <= i < fallbacks.len() && fallbacks[i] == name;
                assert(rest[i - 1] == name);
            }
            if rest.contains(name) {
                let i = choose|i: int| 0 <= i < rest.len() && rest[i] == name;
                assert(fallbacks[i + 1] == name);
            }
            if name == first {
                assert(fallbacks[0] == name);
            }
        }
        if first.len() == 0 || first == LOCAL_AGENTS_MD_FILENAME@ || names.contains(first) {
            lemma_with_fallbacks(names, rest);
        } else {
            let more = names.push(first);
            assert forall|name: Seq<char>| #[trigger] more.contains(name) <==> (names.contains(name)
                || name == first) by {
                if names.contains(name) {
                    let i = choose|i: int| 0 <= i < names.len() && names[i] == name;
                    assert(more[i] == name);
                }
                assert(more[names.len() as int] == first);
            }
            assert(first != Seq::<char>::empty());
            lemma_with_fallbacks(more, rest);
            assert(all.take(names.len() as int) =~= all.take(more.len() as int).take(
                names.len() as int,
            ));
            assert(more.take(names.len() as int) =~= names);
        }
        assert forall|name: Seq<char>| #[trigger] all.contains(name) <==> (names.contains(name)
            || fallbacks.contains(name) && name.len() > 0 && name
            != LOCAL_AGENTS_MD_FILENAME@) by {
            if name.len() == 0 {
                assert(name =~= Seq::empty());
            }
        }
    }
}

pub(crate) proof fn lemma_first_names()
    ensures
        ({
            let first = seq![OVERRIDE_AGENTS_MD_FILENAME@, DEFAULT_AGENTS_MD_FILENAME@];
            &&& first.no_duplicates()
            &&& !first.contains(LOCAL_AGENTS_MD_FILENAME@)
            &&& !first.contains(Seq::empty())
        }),
{
    reveal_strlit("AGENTS.md");
    reveal_strlit("AGENTS.override.md");
    reveal_strlit("AGENTS.local.md");
    assert(LOCAL_AGENTS_MD_FILENAME@.len() == 15);
    assert(OVERRIDE_AGENTS_MD_FILENAME@.len() == 18);
    assert(DEFAULT_AGENTS_MD_FILENAME@.len() == 9);
}

proof fn lemma_directories_from(root: PathUri, cwd: PathUri, parents: Seq<PathUri>)
    ensures
        directories_from(root, cwd, parents).len() > 0,
{
    assert((seq![cwd] + parents).len() > 0);
}

} // verus!
