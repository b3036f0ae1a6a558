//! Reading the instruction files of a project, and the files that they reference.
//!
//! Files are read in the order in which they were found. Behind each file follow the files that it
//! references, in the order of the references, each of them followed by its own. A reference is
//! read only where it leads to a text file under the reference root. No file is read twice, at most
//! [`AGENTS_MD_REFERENCE_MAX_FILES`] references are followed, no deeper than
//! [`AGENTS_MD_REFERENCE_MAX_DEPTH`], and all files together hold no more bytes than configured.

use vstd::hash_set::StringHashSet;
use vstd::prelude::*;
use vstd::utf8::*;
use crate::discovery::{AgentsMdDiscovery, AgentsMdSource};
use crate::errors::{FsError, FsErrorState};
use crate::loaded::{InstructionEntry, InstructionProvenance, InstructionSourceKind, LoadedAgentsMd};
use crate::markdown::reference_targets;
use crate::paths::{
    collect_reference_paths, is_text_path, is_text_reference_path, is_uri_within_root,
    relative_paths, relative_reference_paths, resolved_paths, within_root, PathUri,
};
use crate::stdlib::{from_utf8_lossy, utf8_lossy};
use crate::text::{all_white_space, is_blank, strings};

verus! {

/// How many references deep a file may lie behind a file that was found.
pub const AGENTS_MD_REFERENCE_MAX_DEPTH: usize = 5;

/// How many references are followed.
pub const AGENTS_MD_REFERENCE_MAX_FILES: usize = 32;

/// What is wrong with a reference that is looked at before the reference root is known.
pub const REFERENCE_ROOT_REQUIRED: &'static str = "reference root is required for references";

/// A path without links and detours, and its ancestors.
#[derive(Clone, Debug, PartialEq, Eq)]
pub struct CanonicalPath {
    pub path: PathUri,
    pub ancestors: Vec<PathUri>,
}

/// A file that is to be read.
#[derive(Clone, Debug, PartialEq, Eq)]
pub struct PendingInstructionSource {
    pub path: PathUri,
    pub source_kind: InstructionSourceKind,
    /// How many references led to the file.
    pub depth: usize,
}

/// What an entry holds.
pub struct EntryState {
    pub contents: Seq<char>,
    pub provenance: InstructionProvenance,
}

/// What entries hold.
pub open spec fn entry_states(entries: Seq<InstructionEntry>) -> Seq<EntryState> {
    entries.map_values(
        |entry: InstructionEntry| EntryState {
            contents: entry.contents@,
            provenance: entry.provenance,
        },
    )
}

/// The file that an entry was read from, how many references led to it, and how many of its bytes
/// count.
pub struct EntryOrigin {
    pub path: PathUri,
    pub depth: int,
    pub bytes: int,
}

/// All bytes that count.
pub open spec fn total_bytes(origins: Seq<EntryOrigin>) -> int
    decreases origins.len(),
{
    if origins.len() == 0 {
        0
    } else {
        total_bytes(origins.drop_last()) + origins.last().bytes
    }
}

/// What has been read since the start.
pub struct ReadHistory {
    /// How many bytes may be read.
    pub max_total: int,
    /// How many files were found.
    pub source_count: int,
    /// The origins of the entries, in order.
    pub origins: Seq<EntryOrigin>,
}

/// How far reading has come with a file.
pub enum ReadPhase {
    /// The reference root is not known yet without links and detours.
    CanonicalizeRoot { pending: PendingInstructionSource },
    /// It is not known yet whether there is a regular file.
    CheckFile { pending: PendingInstructionSource },
    /// The path of a referenced file is not known yet without links and detours.
    CanonicalizeFile { pending: PendingInstructionSource },
    /// It is not known yet whether a regular file is where it is read from.
    CheckRead { pending: PendingInstructionSource, path: PathUri },
    /// The contents are not known yet.
    ReadFile { pending: PendingInstructionSource, path: PathUri },
    /// It is not known yet where the references of the file lead.
    Resolve { pending: PendingInstructionSource, references: Seq<Seq<char>> },
    /// Everything is read.
    Done,
    /// Reading ended early.
    Failed { error: FsErrorState },
}

/// What reading wants next from the file system.
pub enum ReadQuestion {
    /// Whether there is a regular file at a path.
    Metadata { path: PathUri },
    /// A path without links and detours.
    Canonicalize { path: PathUri },
    /// The contents of a file.
    ReadFile { path: PathUri },
    /// Where relative paths lead from the directory of a file.
    Resolve { source: PathUri, references: Seq<Seq<char>> },
    Done,
    Failed { error: FsErrorState },
}

/// The state of an [`InstructionReader`].
pub struct ReadState {
    /// The environment that files are read in.
    pub environment_id: String,
    /// The working directory of the environment.
    pub cwd: PathUri,
    /// The directory that references may lead into.
    pub reference_root: PathUri,
    /// The same directory without links and detours, once it is known.
    pub canonical_root: Option<PathUri>,
    /// The files that are still to be read; the last one comes next.
    pub stack: Seq<PendingInstructionSource>,
    /// The files that have been asked for.
    pub seen: Set<Seq<char>>,
    /// How many bytes may still be read.
    pub remaining: int,
    /// How many references have been followed.
    pub references: int,
    /// What has been read.
    pub entries: Seq<EntryState>,
    /// How far reading has come.
    pub phase: ReadPhase,
    /// What has been read since the start.
    pub history: ReadHistory,
}

/// The files of `sources` as a stack, with the first of them on top.
pub open spec fn pending_sources(sources: Seq<AgentsMdSource>) -> Seq<PendingInstructionSource> {
    Seq::new(
        sources.len(),
        |i: int|
            PendingInstructionSource {
                path: sources[sources.len() - 1 - i].path,
                source_kind: sources[sources.len() - 1 - i].source_kind,
                depth: 0,
            },
    )
}

/// `stack` with the referenced files on top, the first of them uppermost, and the number of
/// references followed. From the last reference to the first, those that have been asked for are
/// left out, until no more may be followed.
pub open spec fn with_references(
    stack: Seq<PendingInstructionSource>,
    followed: int,
    paths: Seq<PathUri>,
    seen: Set<Seq<char>>,
    depth: usize,
) -> (Seq<PendingInstructionSource>, int)
    decreases paths.len(),
{
    if paths.len() == 0 {
        (stack, followed)
    } else if seen.contains(paths.last().uri@) {
        with_references(stack, followed, paths.drop_last(), seen, depth)
    } else if followed >= AGENTS_MD_REFERENCE_MAX_FILES {
        (stack, followed)
    } else {
        with_references(
            stack.push(
                PendingInstructionSource {
                    path: paths.last(),
                    source_kind: InstructionSourceKind::Reference,
                    depth,
                },
            ),
            followed + 1,
            paths.drop_last(),
            seen,
            depth,
        )
    }
}

/// What is wrong with a reference that is looked at before the reference root is known.
pub open spec fn root_required() -> FsErrorState {
    FsErrorState { not_found: false, message: REFERENCE_ROOT_REQUIRED@ }
}

/// As many bytes of `data` as may still be read.
pub open spec fn kept_bytes(data: Seq<u8>, remaining: int) -> Seq<u8> {
    if data.len() > remaining {
        data.take(remaining)
    } else {
        data
    }
}

impl ReadState {
    /// The file that is being read, if one is.
    pub open spec fn pending(self) -> Option<PendingInstructionSource> {
        match self.phase {
            ReadPhase::CanonicalizeRoot { pending } => Some(pending),
            ReadPhase::CheckFile { pending } => Some(pending),
            ReadPhase::CanonicalizeFile { pending } => Some(pending),
            ReadPhase::CheckRead { pending, .. } => Some(pending),
            ReadPhase::ReadFile { pending, .. } => Some(pending),
            _ => None,
        }
    }

    /// Where the file was found that is being read, or whose references are asked for.
    pub open spec fn source_path(self) -> Option<PathUri> {
        match (self.pending(), self.phase) {
            (Some(pending), _) => Some(pending.path),
            (None, ReadPhase::Resolve { pending, .. }) => Some(pending.path),
            _ => None,
        }
    }

    /// What holds at every point of reading.
    pub open spec fn wf(self) -> bool {
        &&& 0 <= self.remaining <= u64::MAX
        &&& 0 <= self.references <= AGENTS_MD_REFERENCE_MAX_FILES
        // Nothing lies too deep.
        &&& forall|i: int|
            0 <= i < self.stack.len() ==> (#[trigger] self.stack[i]).depth
                <= AGENTS_MD_REFERENCE_MAX_DEPTH
        &&& self.pending() matches Some(pending) ==> pending.depth <= AGENTS_MD_REFERENCE_MAX_DEPTH
        // A reference is looked at only with the reference root known, and only one that leads to
        // a text file is looked at closer.
        &&& match self.phase {
            ReadPhase::CheckFile { pending } => pending.source_kind
                == InstructionSourceKind::Reference ==> self.canonical_root is Some,
            ReadPhase::CanonicalizeFile { pending } => self.canonical_root is Some
                && pending.source_kind == InstructionSourceKind::Reference && is_text_path(
                pending.path,
            ),
            ReadPhase::Resolve { pending, .. } => pending.depth <= AGENTS_MD_REFERENCE_MAX_DEPTH,
            _ => true,
        }
        // Every entry says something.
        &&& forall|i: int|
            0 <= i < self.entries.len() ==> !all_white_space((#[trigger] self.entries[i]).contents)
        // Every entry comes from a file that was read in this environment.
        &&& forall|i: int|
            0 <= i < self.entries.len() ==> self.is_from_here(
                (#[trigger] self.entries[i]).provenance,
            )
        // No two entries come from the same file, and what is being read is no entry yet.
        &&& self.history.origins.len() == self.entries.len()
        &&& forall|i: int|
            0 <= i < self.history.origins.len() ==> self.seen.contains(
                (#[trigger] self.history.origins[i]).path.uri@,
            )
        &&& forall|i: int, j: int|
            0 <= i < j < self.history.origins.len() ==> (
            #[trigger] self.history.origins[i]).path.uri@ != (
            #[trigger] self.history.origins[j]).path.uri@
        &&& match self.phase {
            ReadPhase::CheckRead { path, .. } => self.is_being_read(path),
            ReadPhase::ReadFile { path, .. } => self.is_being_read(path),
            _ => true,
        }
        // The entries take no more bytes than allowed.
        &&& total_bytes(self.history.origins) + self.remaining == self.history.max_total
        // No more files are read than were found or followed.
        &&& self.entries.len() + self.stack.len() + (if self.pending() is Some {
            1int
        } else {
            0int
        }) <= self.history.source_count + self.references
    }

    /// Whether instructions come from a file that was read in this environment.
    pub open spec fn is_from_here(self, provenance: InstructionProvenance) -> bool {
        provenance matches InstructionProvenance::Project { environment_id, cwd, .. }
            && environment_id == self.environment_id && cwd == self.cwd
    }

    /// Whether `path` has been asked for, and is not read yet.
    pub open spec fn is_being_read(self, path: PathUri) -> bool {
        &&& self.seen.contains(path.uri@)
        &&& forall|i: int|
            0 <= i < self.history.origins.len() ==> (#[trigger] self.history.origins[i]).path.uri@
                != path.uri@
    }

    /// What reading wants next.
    pub open spec fn question(self) -> ReadQuestion {
        match self.phase {
            ReadPhase::CanonicalizeRoot { .. } => ReadQuestion::Canonicalize {
                path: self.reference_root,
            },
            ReadPhase::CheckFile { pending } => ReadQuestion::Metadata { path: pending.path },
            ReadPhase::CanonicalizeFile { pending } => ReadQuestion::Canonicalize {
                path: pending.path,
            },
            ReadPhase::CheckRead { path, .. } => ReadQuestion::Metadata { path },
            ReadPhase::ReadFile { path, .. } => ReadQuestion::ReadFile { path },
            ReadPhase::Resolve { pending, references } => ReadQuestion::Resolve {
                source: pending.path,
                references,
            },
            ReadPhase::Done => ReadQuestion::Done,
            ReadPhase::Failed { error } => ReadQuestion::Failed { error },
        }
    }

    /// The state in another phase.
    pub open spec fn in_phase(self, phase: ReadPhase) -> ReadState {
        ReadState { phase, ..self }
    }

    /// The state at the next file, or at the end where none is left or no byte may be read. The
    /// reference root is made known before the first reference.
    pub open spec fn next(self) -> ReadState {
        if self.stack.len() == 0 || self.remaining == 0 {
            self.in_phase(ReadPhase::Done)
        } else {
            let pending = self.stack.last();
            let rest = ReadState { stack: self.stack.drop_last(), ..self };
            if pending.source_kind == InstructionSourceKind::Reference
                && self.canonical_root is None {
                rest.in_phase(ReadPhase::CanonicalizeRoot { pending })
            } else {
                rest.in_phase(ReadPhase::CheckFile { pending })
            }
        }
    }

    /// The state before the first file is chosen.
    pub open spec fn fresh(
        sources: Seq<AgentsMdSource>,
        reference_root: PathUri,
        max_total: int,
        environment_id: String,
        cwd: PathUri,
    ) -> ReadState {
        ReadState {
            environment_id,
            cwd,
            reference_root,
            canonical_root: None,
            stack: pending_sources(sources),
            seen: Set::empty(),
            remaining: max_total,
            references: 0,
            entries: Seq::empty(),
            phase: ReadPhase::Done,
            history: ReadHistory {
                max_total,
                source_count: sources.len() as int,
                origins: Seq::empty(),
            },
        }
    }

    /// The state before the first file.
    pub open spec fn initial(
        sources: Seq<AgentsMdSource>,
        reference_root: PathUri,
        max_total: int,
        environment_id: String,
        cwd: PathUri,
    ) -> ReadState {
        ReadState::fresh(sources, reference_root, max_total, environment_id, cwd).next()
    }

    /// The state once it is known that `pending` is read from `path`. A file that has been asked
    /// for is not read again.
    pub open spec fn found_at(
        self,
        pending: PendingInstructionSource,
        path: PathUri,
    ) -> ReadState {
        if self.seen.contains(path.uri@) {
            self.next()
        } else {
            ReadState {
                seen: self.seen.insert(path.uri@),
                phase: ReadPhase::CheckRead { pending, path },
                ..self
            }
        }
    }

    /// The state after something that could not be found out: a file that is not there is passed
    /// over, and everything else ends reading.
    pub open spec fn after_error(self, error: FsError) -> ReadState {
        if error.not_found {
            self.next()
        } else {
            self.in_phase(ReadPhase::Failed { error: error@ })
        }
    }

    /// The state after an answer on whether there is a regular file. A reference is followed only
    /// with the reference root known.
    pub open spec fn after_metadata(self, is_file: Result<bool, FsError>) -> ReadState {
        match (self.phase, is_file) {
            (ReadPhase::CheckFile { pending }, Ok(true)) => {
                if pending.source_kind != InstructionSourceKind::Reference {
                    self.found_at(pending, pending.path)
                } else if !is_text_path(pending.path) {
                    self.next()
                } else if self.canonical_root is None {
                    self.in_phase(ReadPhase::Failed { error: root_required() })
                } else {
                    self.in_phase(ReadPhase::CanonicalizeFile { pending })
                }
            },
            (ReadPhase::CheckRead { pending, path }, Ok(true)) => self.in_phase(
                ReadPhase::ReadFile { pending, path },
            ),
            (_, Ok(_)) => self.next(),
            (_, Err(error)) => self.after_error(error),
        }
    }

    /// The state after an answer on a path without links and detours. The reference root has to
    /// be there; a referenced file is passed over where it is not under that root.
    pub open spec fn after_canonical(
        self,
        canonical: Result<(PathUri, Seq<PathUri>), FsError>,
    ) -> ReadState {
        match (self.phase, canonical) {
            (ReadPhase::CanonicalizeRoot { pending }, Ok((path, _))) => ReadState {
                canonical_root: Some(path),
                phase: ReadPhase::CheckFile { pending },
                ..self
            },
            (ReadPhase::CanonicalizeRoot { .. }, Err(error)) => self.in_phase(
                ReadPhase::Failed { error: error@ },
            ),
            (ReadPhase::CanonicalizeFile { pending }, Ok((path, ancestors))) => {
                if within_root(path, ancestors, self.canonical_root->0) {
                    self.found_at(pending, path)
                } else {
                    self.next()
                }
            },
            (_, Ok(_)) => self.next(),
            (_, Err(error)) => self.after_error(error),
        }
    }

    /// Where the contents of `pending` come from.
    pub open spec fn provenance_of(
        self,
        pending: PendingInstructionSource,
    ) -> InstructionProvenance {
        InstructionProvenance::Project {
            source_path: pending.path,
            source_kind: pending.source_kind,
            environment_id: self.environment_id,
            cwd: self.cwd,
        }
    }

    /// The state after the text of a file, which takes `bytes` bytes. A blank text counts for
    /// nothing. Of every other the references are asked for, seen from where the file was found.
    pub open spec fn after_text(self, text: Seq<char>, bytes: int) -> ReadState {
        match self.phase {
            ReadPhase::ReadFile { pending, path } => {
                if all_white_space(text) {
                    self.next()
                } else {
                    let read = ReadState {
                        remaining: self.remaining - bytes,
                        entries: self.entries.push(
                            EntryState { contents: text, provenance: self.provenance_of(pending) },
                        ),
                        history: ReadHistory {
                            origins: self.history.origins.push(
                                EntryOrigin { path, depth: pending.depth as int, bytes },
                            ),
                            ..self.history
                        },
                        ..self
                    };
                    read.in_phase(
                        ReadPhase::Resolve {
                            pending,
                            references: relative_paths(reference_targets(text)),
                        },
                    )
                }
            },
            _ => self.next(),
        }
    }

    /// The state after the contents of a file. No more bytes are taken than may still be read.
    pub open spec fn after_data(self, data: Result<Seq<u8>, FsError>) -> ReadState {
        match data {
            Ok(data) => {
                let kept = kept_bytes(data, self.remaining);
                self.after_text(utf8_lossy(kept), kept.len() as int)
            },
            Err(error) => self.after_error(error),
        }
    }

    /// The state after an answer on where the references of a file lead. Those of a file that lies
    /// deep enough are not followed.
    pub open spec fn after_resolved(self, resolved: Seq<Option<PathUri>>) -> ReadState {
        match self.phase {
            ReadPhase::Resolve { pending, .. } => self.following(
                pending,
                resolved_paths(resolved),
            ).next(),
            _ => self.next(),
        }
    }

    /// The state with the references of `pending`, which lead to `paths`, to be read, unless they
    /// lie too deep.
    pub open spec fn following(
        self,
        pending: PendingInstructionSource,
        paths: Seq<PathUri>,
    ) -> ReadState {
        if pending.depth >= AGENTS_MD_REFERENCE_MAX_DEPTH {
            self
        } else {
            let (stack, references) = with_references(
                self.stack,
                self.references,
                paths,
                self.seen,
                (pending.depth + 1) as usize,
            );
            ReadState { stack, references, ..self }
        }
    }
}

/// The invariant is kept by going on to the next file.
pub(crate) proof fn lemma_next_wf(state: ReadState)
    requires
        state.in_phase(ReadPhase::Done).wf(),
    ensures
        state.next().wf(),
{
}

proof fn lemma_total_push(origins: Seq<EntryOrigin>, origin: EntryOrigin)
    ensures
        total_bytes(origins.push(origin)) == total_bytes(origins) + origin.bytes,
{
    assert(origins.push(origin).drop_last() =~= origins);
}

/// The stack keeps what waited already, and the references that are followed lie on top of it.
pub(crate) proof fn lemma_with_references(
    stack: Seq<PendingInstructionSource>,
    followed: int,
    paths: Seq<PathUri>,
    seen: Set<Seq<char>>,
    depth: usize,
)
    requires
        followed <= AGENTS_MD_REFERENCE_MAX_FILES,
    ensures
        ({
            let (after, count) = with_references(stack, followed, paths, seen, depth);
            &&& followed <= count <= AGENTS_MD_REFERENCE_MAX_FILES
            &&& after.len() - stack.len() == count - followed
            &&& forall|i: int| 0 <= i < stack.len() ==> after[i] == stack[i]
            &&& forall|i: int|
                stack.len() <= i < after.len() ==> (#[trigger] after[i]).depth == depth
                    && after[i].source_kind == InstructionSourceKind::Reference
        }),
    decreases paths.len(),
{
    if paths.len() > 0 {
        if seen.contains(paths.last().uri@) {
            lemma_with_references(stack, followed, paths.drop_last(), seen, depth);
        } else if followed < AGENTS_MD_REFERENCE_MAX_FILES {
            let more = stack.push(
                PendingInstructionSource {
                    path: paths.last(),
                    source_kind: InstructionSourceKind::Reference,
                    depth,
                },
            );
            lemma_with_references(more, followed + 1, paths.drop_last(), seen, depth);
            let after = with_references(stack, followed, paths, seen, depth).0;
            assert forall|i: int| 0 <= i < stack.len() implies after[i] == stack[i] by {
                assert(more[i] == stack[i]);
            }
            assert(after[stack.len() as int] == more[stack.len() as int]);
        }
    }
}

/// No answer breaks what holds at every point of reading: every entry says something and comes
/// from the environment that is read in, no two come from the same file, their bytes and those
/// that may still be read are together as many as were allowed, no more than the allowed number of
/// references is followed, and none too deep.
pub proof fn law_reading_keeps_invariant(
    state: ReadState,
    is_file: Result<bool, FsError>,
    canonical: Result<(PathUri, Seq<PathUri>), FsError>,
    data: Result<Seq<u8>, FsError>,
    text: Seq<char>,
    bytes: int,
    resolved: Seq<Option<PathUri>>,
)
    requires
        state.wf(),
        0 <= bytes <= state.remaining,
    ensures
        state.question() is Metadata ==> state.after_metadata(is_file).wf(),
        state.question() is Canonicalize ==> state.after_canonical(canonical).wf(),
        state.question() is ReadFile ==> state.after_text(text, bytes).wf(),
        state.question() is ReadFile ==> state.after_data(data).wf(),
        state.question() is Resolve ==> state.after_resolved(resolved).wf(),
{
    if state.question() is Metadata {
        lemma_metadata_wf(state, is_file);
    }
    if state.question() is Canonicalize {
        lemma_canonical_wf(state, canonical);
    }
    if state.question() is ReadFile {
        lemma_text_wf(state, text, bytes);
        match data {
            Ok(data) => {
                let kept = kept_bytes(data, state.remaining);
                lemma_text_wf(state, utf8_lossy(kept), kept.len() as int);
            },
            Err(_) => lemma_next_wf(state),
        }
    }
    if state.question() is Resolve {
        lemma_resolved_wf(state, resolved);
    }
}

proof fn lemma_metadata_wf(state: ReadState, is_file: Result<bool, FsError>)
    requires
        state.wf(),
        state.question() is Metadata,
    ensures
        state.after_metadata(is_file).wf(),
{
    lemma_next_wf(state);
}

proof fn lemma_canonical_wf(
    state: ReadState,
    canonical: Result<(PathUri, Seq<PathUri>), FsError>,
)
    requires
        state.wf(),
        state.question() is Canonicalize,
    ensures
        state.after_canonical(canonical).wf(),
{
    lemma_next_wf(state);
}

proof fn lemma_text_wf(state: ReadState, text: Seq<char>, bytes: int)
    requires
        state.wf(),
        state.question() is ReadFile,
        0 <= bytes <= state.remaining,
    ensures
        state.after_text(text, bytes).wf(),
{
    lemma_next_wf(state);
    if let ReadPhase::ReadFile { pending, path } = state.phase {
        let origin = EntryOrigin { path, depth: pending.depth as int, bytes };
        lemma_total_push(state.history.origins, origin);
        let read = ReadState {
            remaining: state.remaining - bytes,
            entries: state.entries.push(
                EntryState { contents: text, provenance: state.provenance_of(pending) },
            ),
            history: ReadHistory {
                origins: state.history.origins.push(origin),
                ..state.history
            },
            ..state
        };
    }
}

proof fn lemma_resolved_wf(state: ReadState, resolved: Seq<Option<PathUri>>)
    requires
        state.wf(),
        state.question() is Resolve,
    ensures
        state.after_resolved(resolved).wf(),
{
    if let ReadPhase::Resolve { pending, .. } = state.phase {
        let paths = resolved_paths(resolved);
        if pending.depth < AGENTS_MD_REFERENCE_MAX_DEPTH {
            let depth = (pending.depth + 1) as usize;
            lemma_with_references(state.stack, state.references, paths, state.seen, depth);
        }
        lemma_next_wf(state.following(pending, paths));
    }
}

/// What reading wants next from the file system.
#[derive(Clone, Debug, PartialEq, Eq)]
pub enum ReadRequest {
    /// Whether there is a regular file at a path.
    Metadata { path: PathUri },
    /// A path without links and detours.
    Canonicalize { path: PathUri },
    /// The contents of a file.
    ReadFile { path: PathUri },
    /// Where relative paths lead from the directory of a file, one answer for each.
    Resolve { source: PathUri, references: Vec<String> },
    /// Nothing: everything is read.
    Done,
    /// Nothing: reading ended early.
    Failed { error: FsError },
}

impl ReadRequest {
    /// What is wanted.
    pub open spec fn question(self) -> ReadQuestion {
        match self {
            ReadRequest::Metadata { path } => ReadQuestion::Metadata { path },
            ReadRequest::Canonicalize { path } => ReadQuestion::Canonicalize { path },
            ReadRequest::ReadFile { path } => ReadQuestion::ReadFile { path },
            ReadRequest::Resolve { source, references } => ReadQuestion::Resolve {
                source,
                references: strings(references@),
            },
            ReadRequest::Done => ReadQuestion::Done,
            ReadRequest::Failed { error } => ReadQuestion::Failed { error: error@ },
        }
    }
}

enum Stage {
    CanonicalizeRoot { pending: PendingInstructionSource },
    CheckFile { pending: PendingInstructionSource },
    CanonicalizeFile { pending: PendingInstructionSource },
    CheckRead { pending: PendingInstructionSource, path: PathUri },
    ReadFile { pending: PendingInstructionSource, path: PathUri },
    Resolve { pending: PendingInstructionSource, references: Vec<String> },
    Done,
    Failed { error: FsError },
}

impl View for Stage {
    type V = ReadPhase;

    closed spec fn view(&self) -> ReadPhase {
        match *self {
            Stage::CanonicalizeRoot { pending } => ReadPhase::CanonicalizeRoot { pending },
            Stage::CheckFile { pending } => ReadPhase::CheckFile { pending },
            Stage::CanonicalizeFile { pending } => ReadPhase::CanonicalizeFile { pending },
            Stage::CheckRead { pending, path } => ReadPhase::CheckRead { pending, path },
            Stage::ReadFile { pending, path } => ReadPhase::ReadFile { pending, path },
            Stage::Resolve { pending, references } => ReadPhase::Resolve {
                pending,
                references: strings(references@),
            },
            Stage::Done => ReadPhase::Done,
            Stage::Failed { error } => ReadPhase::Failed { error: error@ },
        }
    }
}

/// Reads the instruction files of a project, one question at a time.
pub struct InstructionReader {
    environment_id: String,
    cwd: PathUri,
    reference_root: PathUri,
    canonical_root: Option<PathUri>,
    stack: Vec<PendingInstructionSource>,
    seen: StringHashSet,
    remaining: u64,
    references: usize,
    entries: Vec<InstructionEntry>,
    stage: Stage,
    history: Ghost<ReadHistory>,
}

impl View for InstructionReader {
    type V = ReadState;

    closed spec fn view(&self) -> ReadState {
        ReadState {
            environment_id: self.environment_id,
            cwd: self.cwd,
            reference_root: self.reference_root,
            canonical_root: self.canonical_root,
            stack: self.stack@,
            seen: self.seen@,
            remaining: self.remaining as int,
            references: self.references as int,
            entries: entry_states(self.entries@),
            phase: self.stage@,
            history: self.history@,
        }
    }
}

impl InstructionReader {
    /// Reads the files of `discovery`, and those that they reference, up to `max_total` bytes.
    pub fn new(
        discovery: AgentsMdDiscovery,
        max_total: usize,
        environment_id: String,
        cwd: PathUri,
    ) -> (r: InstructionReader)
        ensures
            r@.wf(),
            r@ == ReadState::initial(
                discovery.sources@,
                discovery.reference_root,
                max_total as int,
                environment_id,
                cwd,
            ),
    {
        let mut sources = discovery.sources;
        let ghost all = sources@;
        let mut stack: Vec<PendingInstructionSource> = Vec::new();
        while sources.len() > 0
            invariant
                sources@.len() + stack@.len() == all.len(),
                sources@ == all.take(sources@.len() as int),
                stack@ == pending_sources(all).take(stack@.len() as int),
            decreases sources@.len(),
        {
            if let Some(source) = sources.pop() {
                stack.push(
                    PendingInstructionSource {
                        path: source.path,
                        source_kind: source.source_kind,
                        depth: 0,
                    },
                );
            }
            assert(sources@ =~= all.take(sources@.len() as int));
            assert(stack@ =~= pending_sources(all).take(stack@.len() as int));
        }
        assert(stack@ =~= pending_sources(all));
        let mut reader = InstructionReader {
            environment_id,
            cwd,
            reference_root: discovery.reference_root,
            canonical_root: None,
            stack,
            seen: StringHashSet::new(),
            remaining: max_total as u64,
            references: 0,
            entries: Vec::new(),
            stage: Stage::Done,
            history: Ghost(
                ReadHistory {
                    max_total: max_total as int,
                    source_count: all.len() as int,
                    origins: Seq::empty(),
                },
            ),
        };
        assert(entry_states(reader.entries@) =~= Seq::empty());
        reader.go_on();
        reader
    }

    /// Goes on to the next file.
    fn go_on(&mut self)
        requires
            old(self)@.in_phase(ReadPhase::Done).wf(),
        ensures
            final(self)@ == old(self)@.next(),
            final(self)@.wf(),
    {
        proof {
            lemma_next_wf(self@);
        }
        let ghost before = self@;
        if self.remaining == 0 {
            self.stage = Stage::Done;
            return ;
        }
        match self.stack.pop() {
            Some(pending) => {
                assert(self.stack@ =~= before.stack.drop_last());
                if pending.source_kind == InstructionSourceKind::Reference
                    && self.canonical_root.is_none() {
                    self.stage = Stage::CanonicalizeRoot { pending };
                } else {
                    self.stage = Stage::CheckFile { pending };
                }
            },
            None => {
                self.stage = Stage::Done;
            },
        }
    }

    /// What reading wants next.
    pub fn request(&self) -> (r: ReadRequest)
        requires
            self@.wf(),
        ensures
            r.question() == self@.question(),
    {
        match &self.stage {
            Stage::CanonicalizeRoot { .. } => ReadRequest::Canonicalize {
                path: self.reference_root.clone(),
            },
            Stage::CheckFile { pending } => ReadRequest::Metadata { path: pending.path.clone() },
            Stage::CanonicalizeFile { pending } => ReadRequest::Canonicalize {
                path: pending.path.clone(),
            },
            Stage::CheckRead { path, .. } => ReadRequest::Metadata { path: path.clone() },
            Stage::ReadFile { path, .. } => ReadRequest::ReadFile { path: path.clone() },
            Stage::Resolve { pending, references } => {
                let mut asked: Vec<String> = Vec::new();
                for i in 0..references.len()
                    invariant
                        asked@.len() == i,
                        forall|j: int| 0 <= j < i ==> asked@[j] == references@[j],
                {
                    asked.push(references[i].clone());
                }
                assert(asked@ =~= references@);
                ReadRequest::Resolve { source: pending.path.clone(), references: asked }
            },
            Stage::Done => ReadRequest::Done,
            Stage::Failed { error } => ReadRequest::Failed { error: error.clone() },
        }
    }

    /// Takes what is being done, and leaves nothing to do.
    fn take_stage(&mut self) -> (r: Stage)
        ensures
            r == old(self).stage,
            final(self)@ == old(self)@.in_phase(ReadPhase::Done),
    {
        let mut stage = Stage::Done;
        std::mem::swap(&mut stage, &mut self.stage);
        stage
    }

    /// Goes on after something that could not be found out.
    fn on_error(&mut self, error: FsError)
        requires
            old(self)@.in_phase(ReadPhase::Done).wf(),
        ensures
            final(self)@ == old(self)@.after_error(error),
            final(self)@.wf(),
    {
        if error.not_found {
            self.go_on();
        } else {
            self.stage = Stage::Failed { error };
        }
    }

    /// Goes on once it is known where a file is read from.
    fn on_found(&mut self, pending: PendingInstructionSource, path: PathUri)
        requires
            old(self)@.in_phase(ReadPhase::CheckFile { pending }).wf() || old(self)@.in_phase(
                ReadPhase::CanonicalizeFile { pending },
            ).wf(),
        ensures
            final(self)@ == old(self)@.found_at(pending, path),
            final(self)@.wf(),
    {
        if self.seen.contains(path.uri.as_str()) {
            self.go_on();
        } else {
            let _ = self.seen.insert(path.uri.clone());
            self.stage = Stage::CheckRead { pending, path };
        }
    }

    /// Takes the answer on whether there is a regular file.
    pub fn on_metadata(&mut self, is_file: Result<bool, FsError>)
        requires
            old(self)@.wf(),
            old(self)@.question() is Metadata,
        ensures
            final(self)@.wf(),
            final(self)@ == old(self)@.after_metadata(is_file),
    {
        match is_file {
            Ok(true) => match self.take_stage() {
                Stage::CheckFile { pending } => {
                    if pending.source_kind != InstructionSourceKind::Reference {
                        let path = pending.path.clone();
                        self.on_found(pending, path);
                    } else if !is_text_reference_path(&pending.path) {
                        self.go_on();
                    } else if self.canonical_root.is_none() {
                        let message = REFERENCE_ROOT_REQUIRED.to_owned();
                        self.stage = Stage::Failed { error: FsError { not_found: false, message } };
                    } else {
                        self.stage = Stage::CanonicalizeFile { pending };
                    }
                },
                Stage::CheckRead { pending, path } => {
                    self.stage = Stage::ReadFile { pending, path };
                },
                _ => {},
            },
            Ok(false) => self.go_on(),
            Err(error) => self.on_error(error),
        }
    }

    /// Takes the answer on a path without links and detours.
    pub fn on_canonical(&mut self, canonical: Result<CanonicalPath, FsError>)
        requires
            old(self)@.wf(),
            old(self)@.question() is Canonicalize,
        ensures
            final(self)@.wf(),
            final(self)@ == old(self)@.after_canonical(
                match canonical {
                    Ok(canonical) => Ok((canonical.path, canonical.ancestors@)),
                    Err(error) => Err(error),
                },
            ),
    {
        match self.take_stage() {
            Stage::CanonicalizeRoot { pending } => match canonical {
                Ok(canonical) => {
                    self.canonical_root = Some(canonical.path);
                    self.stage = Stage::CheckFile { pending };
                },
                Err(error) => {
                    self.stage = Stage::Failed { error };
                },
            },
            Stage::CanonicalizeFile { pending } => match canonical {
                Ok(canonical) => {
                    if let Some(root) = &self.canonical_root {
                        if is_uri_within_root(&canonical.path, &canonical.ancestors, root) {
                            self.on_found(pending, canonical.path);
                        } else {
                            self.go_on();
                        }
                    }
                },
                Err(error) => self.on_error(error),
            },
            _ => {},
        }
    }

    /// How many bytes may still be read.
    pub fn remaining(&self) -> (r: u64)
        ensures
            r == self@.remaining,
    {
        self.remaining
    }

    /// Where the file was found that is being read, or whose references are asked for.
    pub fn source(&self) -> (r: Option<PathUri>)
        ensures
            r == self@.source_path(),
    {
        match &self.stage {
            Stage::CanonicalizeRoot { pending } => Some(pending.path.clone()),
            Stage::CheckFile { pending } => Some(pending.path.clone()),
            Stage::CanonicalizeFile { pending } => Some(pending.path.clone()),
            Stage::CheckRead { pending, .. } => Some(pending.path.clone()),
            Stage::ReadFile { pending, .. } => Some(pending.path.clone()),
            Stage::Resolve { pending, .. } => Some(pending.path.clone()),
            _ => None,
        }
    }

    /// Takes the contents of a file. Of a file that is UTF-8 as far as it is kept, the text is
    /// kept as it stands.
    pub fn on_data(&mut self, data: Result<Vec<u8>, FsError>)
        requires
            old(self)@.wf(),
            old(self)@.question() is ReadFile,
        ensures
            final(self)@.wf(),
            final(self)@ == old(self)@.after_data(
                match data {
                    Ok(data) => Ok(data@),
                    Err(error) => Err(error),
                },
            ),
            data matches Ok(data) ==> {
                let kept = kept_bytes(data@, old(self)@.remaining);
                valid_utf8(kept) ==> utf8_lossy(kept) == decode_utf8(kept)
            },
    {
        match data {
            Ok(data) => {
                let mut kept = data;
                if kept.len() as u64 > self.remaining {
                    kept.truncate(self.remaining as usize);
                }
                assert(kept@ =~= kept_bytes(data@, self@.remaining));
                let text = from_utf8_lossy(&kept);
                let size: u64 = kept.len() as u64;
                self.on_text(text, size);
            },
            Err(error) => self.on_error(error),
        }
    }

    /// Takes the text of a file, which takes `bytes` bytes.
    pub fn on_text(&mut self, text: String, bytes: u64)
        requires
            old(self)@.wf(),
            old(self)@.question() is ReadFile,
            bytes <= old(self)@.remaining,
        ensures
            final(self)@.wf(),
            final(self)@ == old(self)@.after_text(text@, bytes as int),
    {
        proof {
            lemma_text_wf(self@, text@, bytes as int);
        }
        let ghost before = self@;
        if is_blank(text.as_str()) {
            self.go_on();
            return ;
        }
        if let Stage::ReadFile { pending, path } = self.take_stage() {
            let references = relative_reference_paths(text.as_str());
            self.remaining = self.remaining - bytes;
            let provenance = InstructionProvenance::Project {
                source_path: pending.path.clone(),
                source_kind: pending.source_kind,
                environment_id: self.environment_id.clone(),
                cwd: self.cwd.clone(),
            };
            self.entries.push(InstructionEntry { contents: text, provenance });
            proof {
                let origins = self.history@.origins.push(
                    EntryOrigin { path, depth: pending.depth as int, bytes: bytes as int },
                );
                self.history@ = ReadHistory { origins, ..self.history@ };
                assert(entry_states(self.entries@) =~= before.entries.push(
                    EntryState { contents: text@, provenance },
                ));
                lemma_total_push(
                    before.history.origins,
                    EntryOrigin { path, depth: pending.depth as int, bytes: bytes as int },
                );
            }
            self.stage = Stage::Resolve { pending, references };
        }
    }

    /// Takes the answer on where the references of a file lead; `resolved` holds one answer for
    /// each of them.
    pub fn on_resolved(&mut self, resolved: Vec<Option<PathUri>>)
        requires
            old(self)@.wf(),
            old(self)@.question() is Resolve,
        ensures
            final(self)@.wf(),
            final(self)@ == old(self)@.after_resolved(resolved@),
    {
        let ghost before = self@;
        if let Stage::Resolve { pending, .. } = self.take_stage() {
            if pending.depth >= AGENTS_MD_REFERENCE_MAX_DEPTH {
                self.go_on();
                return ;
            }
            let mut paths = collect_reference_paths(&resolved);
            let depth = pending.depth + 1;
            let ghost all = paths@;
            proof {
                lemma_with_references(before.stack, before.references, all, before.seen, depth);
            }
            loop
                invariant_except_break
                    depth == pending.depth + 1,
                    self@ == (ReadState {
                        stack: self@.stack,
                        references: self@.references,
                        phase: ReadPhase::Done,
                        ..before
                    }),
                    0 <= self@.references <= AGENTS_MD_REFERENCE_MAX_FILES,
                    with_references(self@.stack, self@.references, paths@, before.seen, depth)
                        == with_references(
                        before.stack,
                        before.references,
                        all,
                        before.seen,
                        depth,
                    ),
                ensures
                    self@ == (ReadState {
                        stack: with_references(
                            before.stack,
                            before.references,
                            all,
                            before.seen,
                            depth,
                        ).0,
                        references: with_references(
                            before.stack,
                            before.references,
                            all,
                            before.seen,
                            depth,
                        ).1,
                        phase: ReadPhase::Done,
                        ..before
                    }),
                decreases paths@.len(),
            {
                let ghost left = paths@;
                match paths.pop() {
                    Some(reference) => {
                        assert(paths@ =~= left.drop_last());
                        if !self.seen.contains(reference.uri.as_str()) {
                            if self.references >= AGENTS_MD_REFERENCE_MAX_FILES {
                                break ;
                            }
                            self.references = self.references + 1;
                            self.stack.push(
                                PendingInstructionSource {
                                    path: reference,
                                    source_kind: InstructionSourceKind::Reference,
                                    depth,
                                },
                            );
                        }
                    },
                    None => {
                        break ;
                    },
                }
            }
            self.go_on();
        }
    }

    /// What was read, `None` for nothing, or why reading ended early; `None` while something is
    /// left to do.
    pub fn finish(self) -> (r: Option<Result<Option<LoadedAgentsMd>, FsError>>)
        requires
            self@.wf(),
        ensures
            match (self@.phase, r) {
                (ReadPhase::Done, Some(Ok(None))) => self@.entries.len() == 0,
                (ReadPhase::Done, Some(Ok(Some(loaded)))) => {
                    &&& self@.entries.len() > 0
                    &&& entry_states(loaded.entries@) == self@.entries
                    &&& loaded.user_instructions is None
                },
                (ReadPhase::Done, _) => false,
                (ReadPhase::Failed { error }, Some(Err(reason))) => reason@ == error,
                (ReadPhase::Failed { .. }, _) => false,
                (_, None) => true,
                _ => false,
            },
    {
        let ghost state = self@;
        match self.stage {
            Stage::Done => {
                let loaded = LoadedAgentsMd { user_instructions: None, entries: self.entries };
                proof {
                    if state.entries.len() > 0 {
                        assert(state.entries[0].contents == loaded.entries@[0].contents@);
                    }
                }
                if loaded.is_empty() {
                    Some(Ok(None))
                } else {
                    Some(Ok(Some(loaded)))
                }
            },
            Stage::Failed { error } => Some(Err(error)),
            _ => None,
        }
    }
}

} // verus!
