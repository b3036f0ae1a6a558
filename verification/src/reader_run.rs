//! What is read from a file system that does not change.

use vstd::prelude::*;
use crate::discovery::AgentsMdSource;
use crate::errors::{FsError, FsErrorState};
use crate::loaded::{InstructionProvenance, InstructionSourceKind, LoadedAgentsMd};
use crate::markdown::reference_targets;
use crate::paths::{
    is_text_path, law_resolved_path_is_kept, relative_paths, resolved_paths, within_root, PathUri,
};
use crate::reader::{
    entry_states, kept_bytes, law_reading_keeps_invariant, lemma_next_wf, lemma_with_references,
    root_required, total_bytes, with_references, EntryOrigin, EntryState, PendingInstructionSource,
    ReadHistory, ReadPhase, ReadQuestion, ReadState, AGENTS_MD_REFERENCE_MAX_DEPTH,
    AGENTS_MD_REFERENCE_MAX_FILES,
};
use crate::stdlib::utf8_lossy;
use crate::text::all_white_space;

verus! {

/// A file system that does not change.
pub struct FileSystem {
    /// Whether there is a regular file at a path.
    pub metadata: spec_fn(PathUri) -> Result<bool, FsError>,
    /// A path without links and detours, and its ancestors.
    pub canonicalize: spec_fn(PathUri) -> Result<(PathUri, Seq<PathUri>), FsError>,
    /// The contents of a file.
    pub read: spec_fn(PathUri) -> Result<Seq<u8>, FsError>,
    /// Where relative paths lead from the directory of a file.
    pub resolve: spec_fn(PathUri, Seq<Seq<char>>) -> Seq<Option<PathUri>>,
}

impl ReadState {
    /// The state after the answer of `fs` to the last question.
    pub open spec fn answered(self, fs: FileSystem) -> ReadState {
        match self.question() {
            ReadQuestion::Metadata { path } => self.after_metadata((fs.metadata)(path)),
            ReadQuestion::Canonicalize { path } => self.after_canonical((fs.canonicalize)(path)),
            ReadQuestion::ReadFile { path } => self.after_data((fs.read)(path)),
            ReadQuestion::Resolve { source, references } => self.after_resolved(
                (fs.resolve)(source, references),
            ),
            _ => self,
        }
    }

    /// Whether there are questions left.
    pub open spec fn is_running(self) -> bool {
        !(self.phase is Done) && !(self.phase is Failed)
    }

    /// How many files may still be read, besides the one that is being read.
    pub open spec fn files_left(self) -> int {
        self.stack.len() + AGENTS_MD_REFERENCE_MAX_FILES - self.references
    }

    /// How many questions may be left on the file that is being read.
    pub open spec fn questions_left(self) -> int {
        match self.phase {
            ReadPhase::CanonicalizeRoot { .. } => 6,
            ReadPhase::CheckFile { .. } => 5,
            ReadPhase::CanonicalizeFile { .. } => 4,
            ReadPhase::CheckRead { .. } => 3,
            ReadPhase::ReadFile { .. } => 2,
            ReadPhase::Resolve { .. } => 1,
            _ => 0,
        }
    }

    /// The state once all questions are answered by `fs`.
    pub open spec fn run(self, fs: FileSystem) -> ReadState
        decreases self.files_left(), self.questions_left(),
    {
        if self.wf() && self.is_running() {
            proof {
                law_reading_ends(self, fs);
            }
            self.answered(fs).run(fs)
        } else {
            self
        }
    }
}

/// Every answer brings reading nearer to its end.
pub proof fn law_reading_ends(state: ReadState, fs: FileSystem)
    requires
        state.wf(),
        state.is_running(),
    ensures
        decreases_to!(
            state.files_left(), state.questions_left()
            => state.answered(fs).files_left(), state.answered(fs).questions_left()
        ),
{
    if let ReadPhase::Resolve { pending, references } = state.phase {
        let resolved = (fs.resolve)(pending.path, references);
        lemma_with_references(
            state.stack,
            state.references,
            resolved_paths(resolved),
            state.seen,
            (pending.depth + 1) as usize,
        );
    }
}

/// The reference root without links and detours, which is asked for before the first reference.
pub open spec fn known_root(
    fs: FileSystem,
    state: ReadState,
    pending: PendingInstructionSource,
) -> Result<ReadState, FsErrorState> {
    if pending.source_kind == InstructionSourceKind::Reference && state.canonical_root is None {
        match (fs.canonicalize)(state.reference_root) {
            Ok((path, _)) => Ok(ReadState { canonical_root: Some(path), ..state }),
            Err(error) => Err(error@),
        }
    } else {
        Ok(state)
    }
}

/// Where `pending` is read from, if it is read: a file that was found, from its own path; a
/// referenced text file, from its path without links and detours, where that lies under the root,
/// which has to be known.
pub open spec fn canonical_instruction_path(
    fs: FileSystem,
    pending: PendingInstructionSource,
    root: Option<PathUri>,
) -> Result<Option<PathUri>, FsErrorState> {
    match (fs.metadata)(pending.path) {
        Err(error) => if error.not_found {
            Ok(None)
        } else {
            Err(error@)
        },
        Ok(false) => Ok(None),
        Ok(true) => if pending.source_kind != InstructionSourceKind::Reference {
            Ok(Some(pending.path))
        } else if !is_text_path(pending.path) {
            Ok(None)
        } else {
            match (root, (fs.canonicalize)(pending.path)) {
                (None, _) => Err(root_required()),
                (_, Err(error)) => if error.not_found {
                    Ok(None)
                } else {
                    Err(error@)
                },
                (Some(root), Ok((path, ancestors))) => if within_root(path, ancestors, root) {
                    Ok(Some(path))
                } else {
                    Ok(None)
                },
            }
        },
    }
}

/// Where the references of a text lead, seen from the directory of `source`.
pub open spec fn reference_paths(fs: FileSystem, source: PathUri, text: Seq<char>) -> Seq<PathUri> {
    resolved_paths((fs.resolve)(source, relative_paths(reference_targets(text))))
}

/// The text of the file at `path`, if there is one that says something, how many bytes it takes,
/// and where its references lead from `source`; at most `remaining` bytes are taken.
pub open spec fn read_instruction_entry(
    fs: FileSystem,
    source: PathUri,
    path: PathUri,
    remaining: int,
) -> Result<Option<(Seq<char>, int, Seq<PathUri>)>, FsErrorState> {
    match (fs.metadata)(path) {
        Err(error) => if error.not_found {
            Ok(None)
        } else {
            Err(error@)
        },
        Ok(false) => Ok(None),
        Ok(true) => match (fs.read)(path) {
            Err(error) => if error.not_found {
                Ok(None)
            } else {
                Err(error@)
            },
            Ok(data) => {
                let kept = kept_bytes(data, remaining);
                let text = utf8_lossy(kept);
                if all_white_space(text) {
                    Ok(None)
                } else {
                    Ok(Some((text, kept.len() as int, reference_paths(fs, source, text))))
                }
            },
        },
    }
}

/// The state with one more entry.
pub open spec fn with_entry(
    state: ReadState,
    pending: PendingInstructionSource,
    path: PathUri,
    text: Seq<char>,
    bytes: int,
) -> ReadState {
    ReadState {
        remaining: state.remaining - bytes,
        entries: state.entries.push(
            EntryState { contents: text, provenance: state.provenance_of(pending) },
        ),
        history: ReadHistory {
            origins: state.history.origins.push(
                EntryOrigin { path, depth: pending.depth as int, bytes },
            ),
            ..state.history
        },
        ..state
    }
}

/// The state once the file on top of the stack is dealt with.
pub open spec fn read_one(fs: FileSystem, state: ReadState) -> Result<ReadState, FsErrorState> {
    let pending = state.stack.last();
    match known_root(fs, ReadState { stack: state.stack.drop_last(), ..state }, pending) {
        Err(error) => Err(error),
        Ok(state) => match canonical_instruction_path(fs, pending, state.canonical_root) {
            Err(error) => Err(error),
            Ok(None) => Ok(state),
            Ok(Some(path)) => if state.seen.contains(path.uri@) {
                Ok(state)
            } else {
                let state = ReadState { seen: state.seen.insert(path.uri@), ..state };
                match read_instruction_entry(fs, pending.path, path, state.remaining) {
                    Err(error) => Err(error),
                    Ok(None) => Ok(state),
                    Ok(Some((text, bytes, paths))) => Ok(
                        with_entry(state, pending, path, text, bytes).following(pending, paths),
                    ),
                }
            },
        },
    }
}

/// The state once every file on the stack is dealt with, and those that they reference, as long as
/// bytes may be read.
pub open spec fn read_all(fs: FileSystem, state: ReadState) -> Result<ReadState, FsErrorState>
    decreases state.files_left(),
{
    if state.stack.len() == 0 || state.remaining == 0 || !(0 <= state.references
        <= AGENTS_MD_REFERENCE_MAX_FILES) {
        Ok(state)
    } else {
        proof {
            lemma_read_one_decreases(fs, state);
        }
        match read_one(fs, state) {
            Err(error) => Err(error),
            Ok(after) => read_all(fs, after),
        }
    }
}

/// Dealing with a file leaves fewer to deal with.
pub proof fn lemma_read_one_decreases(fs: FileSystem, state: ReadState)
    requires
        state.stack.len() > 0,
        0 <= state.references <= AGENTS_MD_REFERENCE_MAX_FILES,
    ensures
        read_one(fs, state) matches Ok(after) ==> {
            &&& 0 <= after.files_left() < state.files_left()
            &&& 0 <= after.references <= AGENTS_MD_REFERENCE_MAX_FILES
        },
{
    let pending = state.stack.last();
    let rest = state.stack.drop_last();
    if let Ok(rooted) = known_root(fs, ReadState { stack: rest, ..state }, pending) {
        if let Ok(Some(path)) = canonical_instruction_path(fs, pending, rooted.canonical_root) {
            let seen = rooted.seen.insert(path.uri@);
            if let Ok(Some((text, bytes, paths))) = read_instruction_entry(
                fs,
                pending.path,
                path,
                rooted.remaining,
            ) {
                lemma_with_references(
                    rest,
                    state.references,
                    paths,
                    seen,
                    (pending.depth + 1) as usize,
                );
            }
        }
    }
}

/// Running from the next file on deals with the file on top of the stack first.
proof fn lemma_run_one(fs: FileSystem, state: ReadState)
    requires
        state.wf(),
        state.phase is Done,
        state.stack.len() > 0,
        state.remaining > 0,
    ensures
        match read_one(fs, state) {
            Ok(after) => {
                &&& after.wf()
                &&& after.phase is Done
                &&& state.next().run(fs) == after.next().run(fs)
            },
            Err(error) => state.next().run(fs).phase == (ReadPhase::Failed { error }),
        },
{
    let pending = state.stack.last();
    let s1 = state.next();
    lemma_next_wf(state);
    reveal_with_fuel(ReadState::run, 2);
    let popped = ReadState { stack: state.stack.drop_last(), ..state };
    match known_root(fs, popped, pending) {
        Err(error) => {},
        Ok(rooted) => {
            let s2 = rooted.in_phase(ReadPhase::CheckFile { pending });
            if s1.phase is CanonicalizeRoot {
                lemma_answer_wf(s1, fs);
                assert(s1.answered(fs) == s2);
                assert(s1.run(fs) == s2.run(fs));
            } else {
                assert(s1 == s2);
            }
            lemma_run_check(fs, rooted, pending);
        },
    }
}

pub(crate) proof fn lemma_answer_wf(state: ReadState, fs: FileSystem)
    requires
        state.wf(),
        state.is_running(),
    ensures
        state.answered(fs).wf(),
{
    match state.question() {
        ReadQuestion::Metadata { path } => law_reading_keeps_invariant(
            state,
            (fs.metadata)(path),
            arbitrary(),
            arbitrary(),
            Seq::empty(),
            0,
            Seq::empty(),
        ),
        ReadQuestion::Canonicalize { path } => law_reading_keeps_invariant(
            state,
            arbitrary(),
            (fs.canonicalize)(path),
            arbitrary(),
            Seq::empty(),
            0,
            Seq::empty(),
        ),
        ReadQuestion::ReadFile { path } => law_reading_keeps_invariant(
            state,
            arbitrary(),
            arbitrary(),
            (fs.read)(path),
            Seq::empty(),
            0,
            Seq::empty(),
        ),
        ReadQuestion::Resolve { source, references } => law_reading_keeps_invariant(
            state,
            arbitrary(),
            arbitrary(),
            arbitrary(),
            Seq::empty(),
            0,
            (fs.resolve)(source, references),
        ),
        _ => {},
    }
}

/// Running from the check of a file on finds out where it is read from.
proof fn lemma_run_check(fs: FileSystem, rooted: ReadState, pending: PendingInstructionSource)
    requires
        rooted.phase is Done,
        rooted.in_phase(ReadPhase::CheckFile { pending }).wf(),
    ensures
        ({
            let s2 = rooted.in_phase(ReadPhase::CheckFile { pending });
            match canonical_instruction_path(fs, pending, rooted.canonical_root) {
                Err(error) => s2.run(fs).phase == (ReadPhase::Failed { error }),
                Ok(None) => s2.run(fs) == rooted.next().run(fs) && rooted.wf(),
                Ok(Some(path)) => if rooted.seen.contains(path.uri@) {
                    s2.run(fs) == rooted.next().run(fs) && rooted.wf()
                } else {
                    let seen = ReadState { seen: rooted.seen.insert(path.uri@), ..rooted };
                    match read_instruction_entry(fs, pending.path, path, seen.remaining) {
                        Err(error) => s2.run(fs).phase == (ReadPhase::Failed { error }),
                        Ok(None) => s2.run(fs) == seen.next().run(fs) && seen.wf(),
                        Ok(Some((text, bytes, paths))) => {
                            let after = with_entry(seen, pending, path, text, bytes).following(
                                pending,
                                paths,
                            );
                            s2.run(fs) == after.next().run(fs) && after.wf()
                        },
                    }
                },
            }
        }),
{
    let s2 = rooted.in_phase(ReadPhase::CheckFile { pending });
    lemma_answer_wf(s2, fs);
    let s3 = s2.answered(fs);
    assert(s2.run(fs) == s3.run(fs));
    assert(s2.next() == rooted.next());
    match canonical_instruction_path(fs, pending, rooted.canonical_root) {
        Err(error) => {
            if s3.phase is CanonicalizeFile {
                lemma_answer_wf(s3, fs);
                assert(s3.run(fs) == s3.answered(fs).run(fs));
            }
        },
        Ok(None) => {
            if s3.phase is CanonicalizeFile && (fs.metadata)(pending.path) is Ok {
                assert(s3 == rooted.next() || s3 == s2.in_phase(
                    ReadPhase::CanonicalizeFile { pending },
                ));
                if s3 == s2.in_phase(ReadPhase::CanonicalizeFile { pending }) {
                    lemma_answer_wf(s3, fs);
                    assert(s3.next() == rooted.next());
                    assert(s3.run(fs) == s3.answered(fs).run(fs));
                }
            }
        },
        Ok(Some(path)) => {
            let found = s2.found_at(pending, path);
            if pending.source_kind == InstructionSourceKind::Reference {
                assert(s3 == s2.in_phase(ReadPhase::CanonicalizeFile { pending }));
                lemma_answer_wf(s3, fs);
                assert(s3.answered(fs) == s3.found_at(pending, path));
                assert(s3.next() == rooted.next());
                assert(s3.found_at(pending, path) == found);
                assert(s3.run(fs) == found.run(fs));
            }
            assert(found.wf());
            if !rooted.seen.contains(path.uri@) {
                let seen = ReadState { seen: rooted.seen.insert(path.uri@), ..rooted };
                assert(found == seen.in_phase(ReadPhase::CheckRead { pending, path }));
                lemma_run_read(fs, seen, pending, path);
            }
        },
    }
}

/// Running from the second check of a file on reads it.
proof fn lemma_run_read(
    fs: FileSystem,
    seen: ReadState,
    pending: PendingInstructionSource,
    path: PathUri,
)
    requires
        seen.phase is Done,
        seen.in_phase(ReadPhase::CheckRead { pending, path }).wf(),
    ensures
        ({
            let s4 = seen.in_phase(ReadPhase::CheckRead { pending, path });
            match read_instruction_entry(fs, pending.path, path, seen.remaining) {
                Err(error) => s4.run(fs).phase == (ReadPhase::Failed { error }),
                Ok(None) => s4.run(fs) == seen.next().run(fs) && seen.wf(),
                Ok(Some((text, bytes, paths))) => {
                    let after = with_entry(seen, pending, path, text, bytes).following(
                        pending,
                        paths,
                    );
                    s4.run(fs) == after.next().run(fs) && after.wf()
                },
            }
        }),
{
    let s4 = seen.in_phase(ReadPhase::CheckRead { pending, path });
    assert(s4.next() == seen.next());
    lemma_answer_wf(s4, fs);
    let s5 = s4.answered(fs);
    assert(s4.run(fs) == s5.run(fs));
    assert(seen.wf());
    if (fs.metadata)(path) == Ok::<bool, FsError>(true) {
        assert(s5 == seen.in_phase(ReadPhase::ReadFile { pending, path }));
        assert(s5.next() == seen.next());
        lemma_answer_wf(s5, fs);
        let s6 = s5.answered(fs);
        assert(s5.run(fs) == s6.run(fs));
        if let Ok(Some((text, bytes, paths))) = read_instruction_entry(
            fs,
            pending.path,
            path,
            seen.remaining,
        ) {
            let read = with_entry(seen, pending, path, text, bytes);
            lemma_entry_wf(seen, pending, path, text, bytes);
            let references = relative_paths(reference_targets(text));
            assert(s6 == read.in_phase(ReadPhase::Resolve { pending, references }));
            lemma_answer_wf(s6, fs);
            let after = read.following(pending, paths);
            assert(s6.answered(fs) == after.next());
            lemma_with_references(
                read.stack,
                read.references,
                paths,
                read.seen,
                (pending.depth + 1) as usize,
            );
            assert(after.wf());
            assert(s6.run(fs) == after.next().run(fs));
        }
    }
}

proof fn lemma_entry_wf(
    seen: ReadState,
    pending: PendingInstructionSource,
    path: PathUri,
    text: Seq<char>,
    bytes: int,
)
    requires
        seen.phase is Done,
        seen.in_phase(ReadPhase::ReadFile { pending, path }).wf(),
        0 <= bytes <= seen.remaining,
        !all_white_space(text),
    ensures
        with_entry(seen, pending, path, text, bytes).wf(),
{
    let origin = EntryOrigin { path, depth: pending.depth as int, bytes };
    assert(seen.history.origins.push(origin).drop_last() =~= seen.history.origins);
}

proof fn lemma_run_all(fs: FileSystem, state: ReadState)
    requires
        state.wf(),
        state.phase is Done,
    ensures
        match read_all(fs, state) {
            Ok(end) => state.next().run(fs) == end && end.phase is Done,
            Err(error) => state.next().run(fs).phase == (ReadPhase::Failed { error }),
        },
    decreases state.files_left(),
{
    if state.stack.len() == 0 || state.remaining == 0 {
        assert(state.next() == state);
    } else {
        lemma_run_one(fs, state);
        lemma_read_one_decreases(fs, state);
        if let Ok(after) = read_one(fs, state) {
            lemma_run_all(fs, after);
        }
    }
}

/// Reading whose questions are all answered by one file system ends with what [`read_all`] says:
/// every file that was found is dealt with in order, each followed by the files that it
/// references, or reading ends with the first failure.
pub proof fn law_reading_reads_all(
    fs: FileSystem,
    sources: Seq<AgentsMdSource>,
    reference_root: PathUri,
    max_total: int,
    environment_id: String,
    cwd: PathUri,
)
    requires
        0 <= max_total <= u64::MAX,
    ensures
        ({
            let end = ReadState::initial(
                sources,
                reference_root,
                max_total,
                environment_id,
                cwd,
            ).run(fs);
            match read_all(
                fs,
                ReadState::fresh(sources, reference_root, max_total, environment_id, cwd),
            ) {
                Ok(state) => end == state && end.phase is Done,
                Err(error) => end.phase == (ReadPhase::Failed { error }),
            }
        }),
{
    lemma_run_all(fs, ReadState::fresh(sources, reference_root, max_total, environment_id, cwd));
}

proof fn lemma_run_wf(fs: FileSystem, state: ReadState)
    requires
        state.wf(),
    ensures
        state.run(fs).wf(),
        state.run(fs).history.max_total == state.history.max_total,
        state.run(fs).history.source_count == state.history.source_count,
    decreases state.files_left(), state.questions_left(),
{
    if state.is_running() {
        lemma_answer_wf(state, fs);
        law_reading_ends(state, fs);
        lemma_run_wf(fs, state.answered(fs));
    }
}

/// Whatever the files hold, the limits are kept at the end of reading: the entries take no more
/// bytes than allowed, there are no more entries than files that were found and references that
/// may be followed, no two entries come from the same file, and none of them is blank.
pub proof fn law_reading_keeps_limits(
    fs: FileSystem,
    sources: Seq<AgentsMdSource>,
    reference_root: PathUri,
    max_total: int,
    environment_id: String,
    cwd: PathUri,
)
    requires
        0 <= max_total <= u64::MAX,
    ensures
        ({
            let end = ReadState::initial(
                sources,
                reference_root,
                max_total,
                environment_id,
                cwd,
            ).run(fs);
            let origins = end.history.origins;
            &&& total_bytes(origins) <= max_total
            &&& end.entries.len() <= sources.len() + AGENTS_MD_REFERENCE_MAX_FILES
            &&& origins.len() == end.entries.len()
            &&& forall|i: int, j: int|
                0 <= i < j < origins.len() ==> (#[trigger] origins[i]).path.uri@ != (
                #[trigger] origins[j]).path.uri@
            &&& forall|i: int|
                0 <= i < end.entries.len() ==> !all_white_space(
                    (#[trigger] end.entries[i]).contents,
                )
        }),
{
    let fresh = ReadState::fresh(sources, reference_root, max_total, environment_id, cwd);
    lemma_next_wf(fresh);
    lemma_run_wf(fs, fresh.next());
}

/// A referenced file is read only where it lies under the reference root, and only where its name
/// says that it holds text: reading of it begins only with an answer that places it there. Every
/// other file is read from the path where it was found.
pub proof fn law_references_confined(
    state: ReadState,
    is_file: Result<bool, FsError>,
    canonical: Result<(PathUri, Seq<PathUri>), FsError>,
    data: Result<Seq<u8>, FsError>,
    resolved: Seq<Option<PathUri>>,
)
    requires
        state.wf(),
    ensures
        state.question() is Metadata ==> (state.after_metadata(
            is_file,
        ).phase matches ReadPhase::CheckRead { pending, path } ==> pending.source_kind
            != InstructionSourceKind::Reference && path == pending.path),
        state.question() is Metadata ==> (state.after_metadata(
            is_file,
        ).phase matches ReadPhase::ReadFile { pending, path } ==> state.phase == (
        ReadPhase::CheckRead { pending, path })),
        state.question() is Canonicalize ==> (state.after_canonical(
            canonical,
        ).phase matches ReadPhase::CheckRead { pending, path } ==> {
            &&& is_text_path(pending.path)
            &&& canonical matches Ok((found, ancestors))
            &&& path == found
            &&& within_root(path, ancestors, state.canonical_root->0)
        }),
        state.question() is Canonicalize ==> !(state.after_canonical(canonical).phase is ReadFile),
        state.question() is ReadFile ==> !(state.after_data(data).phase is CheckRead)
            && !(state.after_data(data).phase is ReadFile),
        state.question() is Resolve ==> !(state.after_resolved(resolved).phase is CheckRead)
            && !(state.after_resolved(resolved).phase is ReadFile),
{
}

/// Whether a file may be read as `uri`: a referenced file where its name says that it holds text,
/// where `uri` is its path without links and detours, and where that lies under the reference
/// root; every other file where `uri` is the path at which it was found.
pub open spec fn may_be_read_as(
    fs: FileSystem,
    reference_root: PathUri,
    path: PathUri,
    kind: InstructionSourceKind,
    uri: Seq<char>,
) -> bool {
    if kind == InstructionSourceKind::Reference {
        &&& is_text_path(path)
        &&& (fs.canonicalize)(reference_root) matches Ok((root, _))
        &&& (fs.canonicalize)(path) matches Ok((canonical, ancestors))
        &&& within_root(canonical, ancestors, root)
        &&& uri == canonical.uri@
    } else {
        uri == path.uri@
    }
}

impl ReadState {
    /// Whether entry `i` comes from a file that may be read.
    pub open spec fn entry_is_allowed(self, fs: FileSystem, i: int) -> bool {
        match self.entries[i].provenance {
            InstructionProvenance::Project { source_path, source_kind, .. } => may_be_read_as(
                fs,
                self.reference_root,
                source_path,
                source_kind,
                self.history.origins[i].path.uri@,
            ),
            InstructionProvenance::Internal => false,
        }
    }

    spec fn keeps_to_allowed(self, fs: FileSystem) -> bool {
        &&& self.history.origins.len() == self.entries.len()
        &&& self.canonical_root matches Some(root) ==> {
            &&& (fs.canonicalize)(self.reference_root) matches Ok((known, _))
            &&& known == root
        }
        &&& forall|i: int| 0 <= i < self.entries.len() ==> #[trigger] self.entry_is_allowed(fs, i)
        &&& match self.phase {
            ReadPhase::CheckRead { pending, path } => may_be_read_as(
                fs,
                self.reference_root,
                pending.path,
                pending.source_kind,
                path.uri@,
            ),
            ReadPhase::ReadFile { pending, path } => may_be_read_as(
                fs,
                self.reference_root,
                pending.path,
                pending.source_kind,
                path.uri@,
            ),
            _ => true,
        }
    }
}

proof fn lemma_answer_keeps_to_allowed(state: ReadState, fs: FileSystem)
    requires
        state.wf(),
        state.is_running(),
        state.keeps_to_allowed(fs),
    ensures
        state.answered(fs).keeps_to_allowed(fs),
        state.answered(fs).reference_root == state.reference_root,
{
    let after = state.answered(fs);
    assert forall|i: int| 0 <= i < after.entries.len() implies #[trigger] after.entry_is_allowed(
        fs,
        i,
    ) by {
        if i < state.entries.len() {
            assert(state.entry_is_allowed(fs, i));
        }
    }
}

proof fn lemma_run_keeps_to_allowed(state: ReadState, fs: FileSystem)
    requires
        state.keeps_to_allowed(fs),
    ensures
        state.run(fs).keeps_to_allowed(fs),
        state.run(fs).reference_root == state.reference_root,
    decreases state.files_left(), state.questions_left(),
{
    if state.wf() && state.is_running() {
        law_reading_ends(state, fs);
        lemma_answer_keeps_to_allowed(state, fs);
        lemma_run_keeps_to_allowed(state.answered(fs), fs);
    }
}

/// Whatever the files hold, every entry comes from a file that may be read: a reference leads to
/// no file that lies outside of the reference root, and to none whose name says that it holds
/// something else than text.
pub proof fn law_only_allowed_files_are_read(
    fs: FileSystem,
    sources: Seq<AgentsMdSource>,
    reference_root: PathUri,
    max_total: int,
    environment_id: String,
    cwd: PathUri,
)
    ensures
        ({
            let end = ReadState::initial(
                sources,
                reference_root,
                max_total,
                environment_id,
                cwd,
            ).run(fs);
            &&& end.reference_root == reference_root
            &&& forall|i: int| 0 <= i < end.entries.len() ==> #[trigger] end.entry_is_allowed(fs, i)
        }),
{
    let start = ReadState::initial(sources, reference_root, max_total, environment_id, cwd);
    lemma_run_keeps_to_allowed(start, fs);
}

/// A file that holds more bytes than may still be read is cut off, and is the last one that is
/// read, unless what is left of it is blank.
pub proof fn law_cut_file_is_last(state: ReadState, data: Seq<u8>)
    requires
        state.wf(),
        state.question() is ReadFile,
        data.len() > state.remaining,
    ensures
        ({
            let text = utf8_lossy(data.take(state.remaining));
            let after = state.after_data(Ok::<Seq<u8>, FsError>(data));
            !all_white_space(text) ==> {
                &&& after.remaining == 0
                &&& after.entries.len() == state.entries.len() + 1
                &&& after.entries.last().contents == text
                &&& after.phase is Resolve
                &&& forall|resolved: Seq<Option<PathUri>>|
                    (#[trigger] after.after_resolved(resolved)).phase is Done
            }
        }),
{
}

/// What is read in one environment comes from one environment: its text needs no labels.
pub proof fn law_one_reader_one_environment(state: ReadState, loaded: LoadedAgentsMd)
    requires
        state.wf(),
        entry_states(loaded.entries@) == state.entries,
    ensures
        !loaded.multiple_environments(),
        forall|i: int, j: int|
            0 <= i < loaded.entries@.len() && 0 <= j < loaded.entries@.len() ==> (
            #[trigger] loaded.entries@[i]).same_environment(#[trigger] loaded.entries@[j]),
{
    assert forall|i: int| 0 <= i < loaded.entries@.len() implies state.is_from_here(
        (#[trigger] loaded.entries@[i]).provenance,
    ) by {
        assert(state.entries[i].provenance == loaded.entries@[i].provenance);
    }
}

/// The references of a file, if none of them has been asked for and all may be followed, are read
/// in their order, before everything that waited already.
pub proof fn law_references_in_order(
    stack: Seq<PendingInstructionSource>,
    followed: int,
    paths: Seq<PathUri>,
    seen: Set<Seq<char>>,
    depth: usize,
)
    requires
        followed + paths.len() <= AGENTS_MD_REFERENCE_MAX_FILES,
        forall|i: int| 0 <= i < paths.len() ==> !seen.contains((#[trigger] paths[i]).uri@),
    ensures
        with_references(stack, followed, paths, seen, depth) == (
            stack + Seq::new(
                paths.len(),
                |i: int|
                    PendingInstructionSource {
                        path: paths[paths.len() - 1 - i],
                        source_kind: InstructionSourceKind::Reference,
                        depth,
                    },
            ),
            followed + paths.len(),
        ),
    decreases paths.len(),
{
    let pendings = |paths: Seq<PathUri>| Seq::new(
        paths.len(),
        |i: int|
            PendingInstructionSource {
                path: paths[paths.len() - 1 - i],
                source_kind: InstructionSourceKind::Reference,
                depth,
            },
    );
    if paths.len() == 0 {
        assert(stack + pendings(paths) =~= stack);
    } else {
        let last = PendingInstructionSource {
            path: paths.last(),
            source_kind: InstructionSourceKind::Reference,
            depth,
        };
        assert forall|i: int| 0 <= i < paths.drop_last().len() implies !seen.contains(
            (#[trigger] paths.drop_last()[i]).uri@,
        ) by {
            assert(paths.drop_last()[i] == paths[i]);
        }
        law_references_in_order(stack.push(last), followed + 1, paths.drop_last(), seen, depth);
        assert(stack.push(last) + pendings(paths.drop_last()) =~= stack + pendings(paths));
    }
}

impl FileSystem {
    /// Whether the file system tells paths apart by their URIs alone.
    pub open spec fn goes_by_uri(self) -> bool {
        forall|a: PathUri, b: PathUri|
            #![trigger (self.metadata)(a), (self.metadata)(b)]
            #![trigger (self.read)(a), (self.read)(b)]
            a.uri@ == b.uri@ ==> (self.metadata)(a) == (self.metadata)(b) && (self.read)(a)
                == (self.read)(b)
    }
}

/// Whether the text of `data` says something, whether it is whole or cut off behind `least` bytes
/// or more. Of data that holds no more than `least` bytes, only the whole text matters.
pub open spec fn says_something(data: Seq<u8>, least: int) -> bool {
    forall|limit: int|
        limit >= least ==> !all_white_space(utf8_lossy(#[trigger] kept_bytes(data, limit)))
}

/// Whether the file at `path` has been asked for, or waits to be read as one that was found.
spec fn waits_or_seen(state: ReadState, path: PathUri) -> bool {
    ||| state.seen.contains(path.uri@)
    ||| exists|i: int|
        0 <= i < state.stack.len() && (#[trigger] state.stack[i]).path == path
            && state.stack[i].source_kind != InstructionSourceKind::Reference
}

/// Whether what came of the file at `path`, if it has been asked for, is an entry with all of its
/// text, or nothing with at least as many bytes to read as now.
spec fn read_or_blank(fs: FileSystem, state: ReadState, path: PathUri, data: Seq<u8>) -> bool {
    &&& state.seen.contains(path.uri@) ==> {
        ||| exists|j: int|
            0 <= j < state.history.origins.len() && (#[trigger] state.history.origins[j]).path.uri@
                == path.uri@
        ||| exists|limit: int|
            limit > 0 && limit >= state.remaining && all_white_space(
                utf8_lossy(#[trigger] kept_bytes(data, limit)),
            )
    }
    &&& state.entries.len() == state.history.origins.len()
    &&& forall|j: int|
        0 <= j < state.history.origins.len() && (#[trigger] state.history.origins[j]).path.uri@
            == path.uri@ ==> state.remaining == 0 || state.entries[j].contents == utf8_lossy(data)
}

proof fn lemma_read_one_waits(fs: FileSystem, state: ReadState, path: PathUri)
    requires
        state.stack.len() > 0,
        state.references <= AGENTS_MD_REFERENCE_MAX_FILES,
        (fs.metadata)(path) == Ok::<bool, FsError>(true),
        waits_or_seen(state, path),
    ensures
        read_one(fs, state) matches Ok(after) ==> waits_or_seen(after, path),
{
    let pending = state.stack.last();
    let rest = state.stack.drop_last();
    if let Ok(after) = read_one(fs, state) {
        if let Ok(rooted) = known_root(fs, ReadState { stack: rest, ..state }, pending) {
            if let Ok(Some(found)) = canonical_instruction_path(
                fs,
                pending,
                rooted.canonical_root,
            ) {
                let seen = rooted.seen.insert(found.uri@);
                if let Ok(Some((text, bytes, paths))) = read_instruction_entry(
                    fs,
                    pending.path,
                    found,
                    rooted.remaining,
                ) {
                    lemma_with_references(
                        rest,
                        state.references,
                        paths,
                        seen,
                        (pending.depth + 1) as usize,
                    );
                }
            }
        }
        assert(after.stack.len() >= rest.len());
        assert(forall|i: int| 0 <= i < rest.len() ==> after.stack[i] == rest[i]);
        if !state.seen.contains(path.uri@) {
            let i = choose|i: int|
                0 <= i < state.stack.len() && (#[trigger] state.stack[i]).path == path
                    && state.stack[i].source_kind != InstructionSourceKind::Reference;
            if i < rest.len() {
                assert(after.stack[i] == state.stack[i]);
            } else {
                assert(pending.path == path);
                assert(after.seen.contains(path.uri@));
            }
        }
    }
}

proof fn lemma_read_one_read(fs: FileSystem, state: ReadState, path: PathUri, data: Seq<u8>)
    requires
        state.stack.len() > 0,
        state.remaining > 0,
        fs.goes_by_uri(),
        (fs.metadata)(path) == Ok::<bool, FsError>(true),
        (fs.read)(path) == Ok::<Seq<u8>, FsError>(data),
        read_or_blank(fs, state, path, data),
    ensures
        read_one(fs, state) matches Ok(after) ==> read_or_blank(fs, after, path, data)
            && after.remaining <= state.remaining && after.remaining >= 0,
{
    let pending = state.stack.last();
    let popped = ReadState { stack: state.stack.drop_last(), ..state };
    if let Ok(after) = read_one(fs, state) {
        if let Ok(rooted) = known_root(fs, popped, pending) {
            assert(read_or_blank(fs, rooted, path, data));
            if let Ok(Some(found)) = canonical_instruction_path(
                fs,
                pending,
                rooted.canonical_root,
            ) {
                if !rooted.seen.contains(found.uri@) {
                    let same = found.uri@ == path.uri@;
                    if same {
                        assert((fs.metadata)(found) == (fs.metadata)(path));
                        assert((fs.read)(found) == (fs.read)(path));
                    }
                    let kept = kept_bytes(data, state.remaining);
                    match read_instruction_entry(fs, pending.path, found, rooted.remaining) {
                        Ok(None) => {
                            if same {
                                assert(all_white_space(
                                    utf8_lossy(kept_bytes(data, state.remaining)),
                                ));
                            }
                            assert(read_or_blank(fs, after, path, data));
                        },
                        Ok(Some((text, bytes, paths))) => {
                            let n = state.history.origins.len() as int;
                            let origin = EntryOrigin {
                                path: found,
                                depth: pending.depth as int,
                                bytes,
                            };
                            assert(after.history.origins == state.history.origins.push(origin));
                            assert(after.history.origins[n] == origin);
                            assert(after.remaining == state.remaining - bytes);
                            assert(after.entries[n].contents == text);
                            assert forall|j: int|
                                0 <= j < after.history.origins.len() && (
                                #[trigger] after.history.origins[j]).path.uri@
                                    == path.uri@ implies after.remaining == 0
                                || after.entries[j].contents == utf8_lossy(data) by {
                                if j < n {
                                    assert(after.history.origins[j] == state.history.origins[j]);
                                    assert(after.entries[j] == state.entries[j]);
                                }
                            }
                            if after.seen.contains(path.uri@) && !same {
                                assert(state.seen.contains(path.uri@));
                                if exists|j: int|
                                    0 <= j < n && (#[trigger] state.history.origins[j]).path.uri@
                                        == path.uri@ {
                                    let j = choose|j: int|
                                        0 <= j < n && (
                                        #[trigger] state.history.origins[j]).path.uri@ == path.uri@;
                                    assert(after.history.origins[j].path.uri@ == path.uri@);
                                }
                            }
                            assert(read_or_blank(fs, after, path, data));
                        },
                        Err(_) => {},
                    }
                }
            }
        }
    }
}

proof fn lemma_all_read(fs: FileSystem, state: ReadState, path: PathUri, data: Seq<u8>)
    requires
        0 <= state.references <= AGENTS_MD_REFERENCE_MAX_FILES,
        0 <= state.remaining,
        fs.goes_by_uri(),
        (fs.metadata)(path) == Ok::<bool, FsError>(true),
        (fs.read)(path) == Ok::<Seq<u8>, FsError>(data),
        waits_or_seen(state, path),
        read_or_blank(fs, state, path, data),
    ensures
        read_all(fs, state) matches Ok(end) ==> {
            &&& read_or_blank(fs, end, path, data)
            &&& end.remaining > 0 ==> end.seen.contains(path.uri@)
        },
    decreases state.files_left(),
{
    if state.stack.len() > 0 && state.remaining > 0 {
        lemma_read_one_waits(fs, state, path);
        lemma_read_one_read(fs, state, path, data);
        lemma_read_one_decreases(fs, state);
        if let Ok(after) = read_one(fs, state) {
            lemma_all_read(fs, after, path, data);
        }
    }
}

/// Every file that was found is read: where reading ends well and bytes may still be read, a
/// regular file whose text says something has an entry with all of its text.
pub proof fn law_every_source_is_read(
    fs: FileSystem,
    sources: Seq<AgentsMdSource>,
    reference_root: PathUri,
    max_total: int,
    environment_id: String,
    cwd: PathUri,
    i: int,
    data: Seq<u8>,
)
    requires
        0 <= max_total <= u64::MAX,
        fs.goes_by_uri(),
        0 <= i < sources.len(),
        sources[i].source_kind != InstructionSourceKind::Reference,
        (fs.metadata)(sources[i].path) == Ok::<bool, FsError>(true),
        (fs.read)(sources[i].path) == Ok::<Seq<u8>, FsError>(data),
    ensures
        ({
            let end = ReadState::initial(
                sources,
                reference_root,
                max_total,
                environment_id,
                cwd,
            ).run(fs);
            let owed = end.phase is Done && end.remaining > 0 && says_something(
                data,
                end.remaining,
            );
            owed ==> exists|j: int|
                0 <= j < end.entries.len() && (#[trigger] end.history.origins[j]).path.uri@
                    == sources[i].path.uri@ && end.entries[j].contents == utf8_lossy(data)
        }),
{
    let fresh = ReadState::fresh(sources, reference_root, max_total, environment_id, cwd);
    let path = sources[i].path;
    law_reading_reads_all(fs, sources, reference_root, max_total, environment_id, cwd);
    assert(fresh.stack[sources.len() - 1 - i].path == path);
    assert(waits_or_seen(fresh, path));
    assert(read_or_blank(fs, fresh, path, data));
    lemma_all_read(fs, fresh, path, data);
    if let Ok(end) = read_all(fs, fresh) {
        if end.remaining > 0 && says_something(data, end.remaining) {
            assert(end.seen.contains(path.uri@));
            assert(forall|limit: int|
                limit >= end.remaining ==> !all_white_space(
                    utf8_lossy(#[trigger] kept_bytes(data, limit)),
                ));
        }
    }
}

/// How many of the files come from references.
pub open spec fn pending_references(stack: Seq<PendingInstructionSource>) -> int
    decreases stack.len(),
{
    if stack.len() == 0 {
        0
    } else {
        pending_references(stack.drop_last()) + (if stack.last().source_kind
            == InstructionSourceKind::Reference {
            1int
        } else {
            0int
        })
    }
}

/// Whether an entry comes from a reference.
pub open spec fn is_referenced(entry: EntryState) -> bool {
    entry.provenance matches InstructionProvenance::Project { source_kind, .. } && source_kind
        == InstructionSourceKind::Reference
}

/// How many of the entries come from references.
pub open spec fn referenced_entries(entries: Seq<EntryState>) -> int
    decreases entries.len(),
{
    if entries.len() == 0 {
        0
    } else {
        referenced_entries(entries.drop_last()) + (if is_referenced(entries.last()) {
            1int
        } else {
            0int
        })
    }
}

proof fn lemma_pending_references(
    stack: Seq<PendingInstructionSource>,
    more: Seq<PendingInstructionSource>,
)
    requires
        stack.len() <= more.len(),
        forall|i: int| 0 <= i < stack.len() ==> more[i] == stack[i],
    ensures
        pending_references(more) <= pending_references(stack) + more.len() - stack.len(),
    decreases more.len(),
{
    if stack.len() == more.len() {
        assert(stack =~= more);
    } else {
        lemma_pending_references(stack, more.drop_last());
    }
}

proof fn lemma_no_pending_references(stack: Seq<PendingInstructionSource>)
    requires
        forall|i: int|
            0 <= i < stack.len() ==> (#[trigger] stack[i]).source_kind
                != InstructionSourceKind::Reference,
    ensures
        pending_references(stack) == 0,
    decreases stack.len(),
{
    if stack.len() > 0 {
        lemma_no_pending_references(stack.drop_last());
    }
}

impl ReadState {
    spec fn followed_covers_references(self) -> bool {
        referenced_entries(self.entries) + pending_references(self.stack) + (match self.pending() {
            Some(pending) if pending.source_kind == InstructionSourceKind::Reference => 1int,
            _ => 0int,
        }) <= self.references
    }
}

proof fn lemma_answer_covers_references(state: ReadState, fs: FileSystem)
    requires
        state.wf(),
        state.is_running(),
        state.followed_covers_references(),
    ensures
        state.answered(fs).followed_covers_references(),
{
    let after = state.answered(fs);
    if after.entries.len() > state.entries.len() {
        assert(after.entries.drop_last() =~= state.entries);
    }
    if let ReadPhase::Resolve { pending, references } = state.phase {
        let paths = resolved_paths((fs.resolve)(pending.path, references));
        let depth = (pending.depth + 1) as usize;
        lemma_with_references(state.stack, state.references, paths, state.seen, depth);
        lemma_pending_references(state.stack, state.following(pending, paths).stack);
    }
}

proof fn lemma_run_covers_references(state: ReadState, fs: FileSystem)
    requires
        state.wf(),
        state.followed_covers_references(),
    ensures
        state.run(fs).followed_covers_references(),
    decreases state.files_left(), state.questions_left(),
{
    if state.is_running() {
        lemma_answer_covers_references(state, fs);
        lemma_answer_wf(state, fs);
        law_reading_ends(state, fs);
        lemma_run_covers_references(state.answered(fs), fs);
    }
}

proof fn lemma_pending_references_bound(stack: Seq<PendingInstructionSource>)
    ensures
        pending_references(stack) >= 0,
    decreases stack.len(),
{
    if stack.len() > 0 {
        lemma_pending_references_bound(stack.drop_last());
    }
}

/// However many references there are, no more entries come from them than references may be
/// followed.
pub proof fn law_references_are_limited(
    fs: FileSystem,
    sources: Seq<AgentsMdSource>,
    reference_root: PathUri,
    max_total: int,
    environment_id: String,
    cwd: PathUri,
)
    requires
        0 <= max_total <= u64::MAX,
        forall|i: int|
            0 <= i < sources.len() ==> (#[trigger] sources[i]).source_kind
                != InstructionSourceKind::Reference,
    ensures
        referenced_entries(
            ReadState::initial(sources, reference_root, max_total, environment_id, cwd).run(
                fs,
            ).entries,
        ) <= AGENTS_MD_REFERENCE_MAX_FILES,
{
    let fresh = ReadState::fresh(sources, reference_root, max_total, environment_id, cwd);
    let start = fresh.next();
    lemma_next_wf(fresh);
    lemma_no_pending_references(fresh.stack);
    lemma_no_pending_references(start.stack);
    lemma_run_covers_references(start, fs);
    lemma_run_wf(fs, start);
    lemma_pending_references_bound(start.run(fs).stack);
}

/// Of every text that is kept, the references are asked for, however deep its file lies: those in
/// the text as it is kept, seen from the path at which the file was found and not from where it is
/// read. Where they lead is followed only where the file does not lie too deep.
pub proof fn law_references_of_kept_text(
    state: ReadState,
    data: Seq<u8>,
    resolved: Seq<Option<PathUri>>,
)
    requires
        state.question() is ReadFile,
    ensures
        ({
            let after = state.after_data(Ok::<Seq<u8>, FsError>(data));
            let text = utf8_lossy(kept_bytes(data, state.remaining));
            let pending = state.phase->ReadFile_pending;
            !all_white_space(text) ==> {
                &&& after.entries.last().contents == text
                &&& after.question() == (ReadQuestion::Resolve {
                    source: pending.path,
                    references: relative_paths(reference_targets(text)),
                })
                &&& after.after_resolved(resolved) == after.following(
                    pending,
                    resolved_paths(resolved),
                ).next()
            }
        }),
{
}

/// What is read of a file comes with the places where its references lead: those of the text as it
/// is kept, seen from the path at which the file was found.
pub proof fn law_entry_comes_with_references(
    fs: FileSystem,
    source: PathUri,
    path: PathUri,
    remaining: int,
)
    ensures
        read_instruction_entry(fs, source, path, remaining) matches Ok(Some((text, bytes, paths)))
            ==> {
            &&& (fs.metadata)(path) == Ok::<bool, FsError>(true)
            &&& (fs.read)(path) matches Ok(data)
            &&& text == utf8_lossy(kept_bytes(data, remaining))
            &&& bytes == kept_bytes(data, remaining).len()
            &&& paths == resolved_paths(
                (fs.resolve)(source, relative_paths(reference_targets(text))),
            )
        },
{
}

/// Whether a reference in an entry leads to `path`, seen from the file that the entry was found as.
pub open spec fn leads_to(fs: FileSystem, entry: EntryState, path: PathUri) -> bool {
    entry.provenance matches InstructionProvenance::Project { source_path, .. } && (fs.resolve)(
        source_path,
        relative_paths(reference_targets(entry.contents)),
    ).contains(Some(path))
}

/// Whether a reference to `path` can be followed: there is a regular file with the name of a text
/// file, which without links and detours is `canonical` and lies under the reference root, and
/// which holds `data`.
pub open spec fn can_be_followed(
    fs: FileSystem,
    reference_root: PathUri,
    path: PathUri,
    canonical: PathUri,
    data: Seq<u8>,
) -> bool {
    &&& (fs.metadata)(path) == Ok::<bool, FsError>(true)
    &&& is_text_path(path)
    &&& (fs.canonicalize)(reference_root) matches Ok((root, _))
    &&& (fs.canonicalize)(path) matches Ok((found, ancestors))
    &&& found == canonical
    &&& within_root(canonical, ancestors, root)
    &&& (fs.metadata)(canonical) == Ok::<bool, FsError>(true)
    &&& (fs.read)(canonical) == Ok::<Seq<u8>, FsError>(data)
}

/// Whether a reference to `path`, which is read as `canonical`, waits to be followed or has been.
spec fn waits_to_be_followed(state: ReadState, path: PathUri, canonical: PathUri) -> bool {
    ||| state.seen.contains(canonical.uri@)
    ||| state.seen.contains(path.uri@)
    ||| exists|i: int|
        0 <= i < state.stack.len() && (#[trigger] state.stack[i]).path == path
            && state.stack[i].source_kind == InstructionSourceKind::Reference
}

/// Whether no reference to `path` is forgotten, as long as references may be followed.
spec fn remembers_references(
    fs: FileSystem,
    state: ReadState,
    path: PathUri,
    canonical: PathUri,
) -> bool {
    &&& state.entries.len() == state.history.origins.len()
    &&& state.canonical_root matches Some(root) ==> {
        &&& (fs.canonicalize)(state.reference_root) matches Ok((known, _))
        &&& known == root
    }
    &&& forall|j: int|
        0 <= j < state.entries.len() && state.history.origins[j].depth
            < AGENTS_MD_REFERENCE_MAX_DEPTH && leads_to(fs, #[trigger] state.entries[j], path)
            ==> waits_to_be_followed(state, path, canonical) || state.references
            >= AGENTS_MD_REFERENCE_MAX_FILES
}

proof fn lemma_reference_is_followed(
    stack: Seq<PendingInstructionSource>,
    followed: int,
    paths: Seq<PathUri>,
    seen: Set<Seq<char>>,
    depth: usize,
    path: PathUri,
)
    requires
        followed <= AGENTS_MD_REFERENCE_MAX_FILES,
        paths.contains(path),
        !seen.contains(path.uri@),
    ensures
        ({
            let (after, count) = with_references(stack, followed, paths, seen, depth);
            count < AGENTS_MD_REFERENCE_MAX_FILES ==> exists|i: int|
                0 <= i < after.len() && (#[trigger] after[i]).path == path && after[i].source_kind
                    == InstructionSourceKind::Reference
        }),
    decreases paths.len(),
{
    let k = choose|k: int| 0 <= k < paths.len() && paths[k] == path;
    let rest = paths.drop_last();
    if k < rest.len() {
        assert(rest[k] == path);
    }
    if seen.contains(paths.last().uri@) {
        assert(k < rest.len());
        lemma_reference_is_followed(stack, followed, rest, seen, depth, path);
    } else if followed < AGENTS_MD_REFERENCE_MAX_FILES {
        let more = stack.push(
            PendingInstructionSource {
                path: paths.last(),
                source_kind: InstructionSourceKind::Reference,
                depth,
            },
        );
        lemma_with_references(more, followed + 1, rest, seen, depth);
        let after = with_references(stack, followed, paths, seen, depth).0;
        assert(after[stack.len() as int] == more[stack.len() as int]);
        if k < rest.len() {
            lemma_reference_is_followed(more, followed + 1, rest, seen, depth, path);
        }
    }
}

proof fn lemma_read_one_remembers(
    fs: FileSystem,
    state: ReadState,
    path: PathUri,
    canonical: PathUri,
    data: Seq<u8>,
)
    requires
        state.stack.len() > 0,
        0 <= state.references <= AGENTS_MD_REFERENCE_MAX_FILES,
        can_be_followed(fs, state.reference_root, path, canonical, data),
        remembers_references(fs, state, path, canonical),
    ensures
        read_one(fs, state) matches Ok(after) ==> remembers_references(fs, after, path, canonical)
            && after.reference_root == state.reference_root,
{
    let pending = state.stack.last();
    let rest = state.stack.drop_last();
    let popped = ReadState { stack: rest, ..state };
    if let Ok(after) = read_one(fs, state) {
        let rooted = known_root(fs, popped, pending)->Ok_0;
        let n = state.entries.len() as int;
        if let Ok(Some(found)) = canonical_instruction_path(fs, pending, rooted.canonical_root) {
            let seen = rooted.seen.insert(found.uri@);
            if let Ok(Some((text, bytes, paths))) = read_instruction_entry(
                fs,
                pending.path,
                found,
                rooted.remaining,
            ) {
                let depth = (pending.depth + 1) as usize;
                lemma_with_references(rest, state.references, paths, seen, depth);
                if !rooted.seen.contains(found.uri@) {
                    assert(after.entries[n].contents == text);
                    let resolved = (fs.resolve)(
                        pending.path,
                        relative_paths(reference_targets(text)),
                    );
                    if resolved.contains(Some(path)) {
                        let k = choose|k: int| 0 <= k < resolved.len() && resolved[k] == Some(path);
                        law_resolved_path_is_kept(resolved, k);
                        if !seen.contains(path.uri@) {
                            lemma_reference_is_followed(
                                rest,
                                state.references,
                                paths,
                                seen,
                                depth,
                                path,
                            );
                        }
                    }
                }
            }
        }
        assert(after.stack.len() >= rest.len());
        assert(forall|i: int| 0 <= i < rest.len() ==> after.stack[i] == rest[i]);
        assert(state.references <= after.references);
        assert(waits_to_be_followed(state, path, canonical) ==> waits_to_be_followed(
            after,
            path,
            canonical,
        )) by {
            if !state.seen.contains(canonical.uri@) && !state.seen.contains(path.uri@)
                && waits_to_be_followed(state, path, canonical) {
                let i = choose|i: int|
                    0 <= i < state.stack.len() && (#[trigger] state.stack[i]).path == path
                        && state.stack[i].source_kind == InstructionSourceKind::Reference;
                if i < rest.len() {
                    assert(after.stack[i] == state.stack[i]);
                } else {
                    assert(pending.path == path);
                    assert(after.seen.contains(canonical.uri@));
                }
            }
        }
        assert forall|j: int|
            0 <= j < after.entries.len() && after.history.origins[j].depth
                < AGENTS_MD_REFERENCE_MAX_DEPTH && leads_to(
                fs,
                #[trigger] after.entries[j],
                path,
            ) implies waits_to_be_followed(after, path, canonical) || after.references
            >= AGENTS_MD_REFERENCE_MAX_FILES by {
            if j < n {
                assert(after.entries[j] == state.entries[j]);
                assert(after.history.origins[j] == state.history.origins[j]);
            }
        }
    }
}

proof fn lemma_all_followed(
    fs: FileSystem,
    state: ReadState,
    path: PathUri,
    canonical: PathUri,
    data: Seq<u8>,
)
    requires
        0 <= state.references <= AGENTS_MD_REFERENCE_MAX_FILES,
        0 <= state.remaining,
        fs.goes_by_uri(),
        can_be_followed(fs, state.reference_root, path, canonical, data),
        remembers_references(fs, state, path, canonical),
        read_or_blank(fs, state, canonical, data),
    ensures
        read_all(fs, state) matches Ok(end) ==> {
            &&& remembers_references(fs, end, path, canonical)
            &&& read_or_blank(fs, end, canonical, data)
            &&& end.remaining > 0 ==> end.stack.len() == 0
        },
    decreases state.files_left(),
{
    if state.stack.len() > 0 && state.remaining > 0 {
        lemma_read_one_remembers(fs, state, path, canonical, data);
        lemma_read_one_read(fs, state, canonical, data);
        lemma_read_one_decreases(fs, state);
        if let Ok(after) = read_one(fs, state) {
            lemma_all_followed(fs, after, path, canonical, data);
        }
    }
}

/// Every reference is followed: where reading ends well, bytes may still be read and not all
/// references that may be followed were, a file that any entry references, and that does not lie
/// too deep, has an entry with all of its text, if it can be followed and says something. The one
/// exception is a path that itself was read already, under another name than the one without links
/// and detours.
pub proof fn law_every_reference_is_followed(
    fs: FileSystem,
    sources: Seq<AgentsMdSource>,
    reference_root: PathUri,
    max_total: int,
    environment_id: String,
    cwd: PathUri,
    j: int,
    path: PathUri,
    canonical: PathUri,
    data: Seq<u8>,
)
    requires
        0 <= max_total <= u64::MAX,
        fs.goes_by_uri(),
        can_be_followed(fs, reference_root, path, canonical, data),
    ensures
        ({
            let end = ReadState::initial(
                sources,
                reference_root,
                max_total,
                environment_id,
                cwd,
            ).run(fs);
            &&& end.phase is Done
            &&& end.remaining > 0
            &&& end.references < AGENTS_MD_REFERENCE_MAX_FILES
            &&& 0 <= j < end.entries.len()
            &&& end.history.origins[j].depth < AGENTS_MD_REFERENCE_MAX_DEPTH
            &&& leads_to(fs, end.entries[j], path)
            &&& says_something(data, end.remaining)
        }) ==> ({
            let end = ReadState::initial(
                sources,
                reference_root,
                max_total,
                environment_id,
                cwd,
            ).run(fs);
            ||| path.uri@ != canonical.uri@ && end.seen.contains(path.uri@)
            ||| exists|k: int|
                0 <= k < end.entries.len() && (#[trigger] end.history.origins[k]).path.uri@
                    == canonical.uri@ && end.entries[k].contents == utf8_lossy(data)
        }),
{
    let fresh = ReadState::fresh(sources, reference_root, max_total, environment_id, cwd);
    law_reading_reads_all(fs, sources, reference_root, max_total, environment_id, cwd);
    assert(remembers_references(fs, fresh, path, canonical));
    assert(read_or_blank(fs, fresh, canonical, data));
    lemma_all_followed(fs, fresh, path, canonical, data);
    if let Ok(end) = read_all(fs, fresh) {
        if end.remaining > 0 && end.references < AGENTS_MD_REFERENCE_MAX_FILES && 0 <= j
            < end.entries.len() && end.history.origins[j].depth < AGENTS_MD_REFERENCE_MAX_DEPTH
            && leads_to(fs, end.entries[j], path) && says_something(data, end.remaining) {
            assert(waits_to_be_followed(end, path, canonical));
            assert(forall|limit: int|
                limit >= end.remaining ==> !all_white_space(
                    utf8_lossy(#[trigger] kept_bytes(data, limit)),
                ));
        }
    }
}

/// Data that holds no more bytes than may be left says something if its text is not blank.
pub proof fn law_whole_text_says_something(data: Seq<u8>, least: int)
    requires
        data.len() <= least,
        !all_white_space(utf8_lossy(data)),
    ensures
        says_something(data, least),
{
    assert forall|limit: int| limit >= least implies !all_white_space(
        utf8_lossy(#[trigger] kept_bytes(data, limit)),
    ) by {
        assert(kept_bytes(data, limit) == data);
    }
}

/// Whether a reference to `path` waits, or what it is read as has been asked for.
spec fn waits_or_is_known(state: ReadState, path: PathUri, canonical: PathUri) -> bool {
    ||| state.seen.contains(canonical.uri@)
    ||| exists|i: int|
        0 <= i < state.stack.len() && (#[trigger] state.stack[i]).path == path
            && state.stack[i].source_kind == InstructionSourceKind::Reference
}

spec fn knows_its_root(fs: FileSystem, state: ReadState) -> bool {
    state.canonical_root matches Some(root) ==> {
        &&& (fs.canonicalize)(state.reference_root) matches Ok((known, _))
        &&& known == root
    }
}

proof fn lemma_read_one_keeps_waiting(
    fs: FileSystem,
    state: ReadState,
    path: PathUri,
    canonical: PathUri,
    data: Seq<u8>,
)
    requires
        state.stack.len() > 0,
        0 <= state.references <= AGENTS_MD_REFERENCE_MAX_FILES,
        can_be_followed(fs, state.reference_root, path, canonical, data),
        knows_its_root(fs, state),
        waits_or_is_known(state, path, canonical),
    ensures
        read_one(fs, state) matches Ok(after) ==> {
            &&& waits_or_is_known(after, path, canonical)
            &&& knows_its_root(fs, after)
            &&& after.reference_root == state.reference_root
        },
{
    let pending = state.stack.last();
    let rest = state.stack.drop_last();
    if let Ok(after) = read_one(fs, state) {
        let rooted = known_root(fs, ReadState { stack: rest, ..state }, pending)->Ok_0;
        if let Ok(Some(found)) = canonical_instruction_path(fs, pending, rooted.canonical_root) {
            if let Ok(Some((text, bytes, paths))) = read_instruction_entry(
                fs,
                pending.path,
                found,
                rooted.remaining,
            ) {
                lemma_with_references(
                    rest,
                    state.references,
                    paths,
                    rooted.seen.insert(found.uri@),
                    (pending.depth + 1) as usize,
                );
            }
        }
        assert(after.stack.len() >= rest.len());
        assert(forall|i: int| 0 <= i < rest.len() ==> after.stack[i] == rest[i]);
        if !state.seen.contains(canonical.uri@) {
            let i = choose|i: int|
                0 <= i < state.stack.len() && (#[trigger] state.stack[i]).path == path
                    && state.stack[i].source_kind == InstructionSourceKind::Reference;
            if i < rest.len() {
                assert(after.stack[i] == state.stack[i]);
            } else {
                assert(pending.path == path);
                assert(after.seen.contains(canonical.uri@));
            }
        }
    }
}

proof fn lemma_all_waiting_read(
    fs: FileSystem,
    state: ReadState,
    path: PathUri,
    canonical: PathUri,
    data: Seq<u8>,
)
    requires
        0 <= state.references <= AGENTS_MD_REFERENCE_MAX_FILES,
        0 <= state.remaining,
        fs.goes_by_uri(),
        can_be_followed(fs, state.reference_root, path, canonical, data),
        knows_its_root(fs, state),
        waits_or_is_known(state, path, canonical),
        read_or_blank(fs, state, canonical, data),
    ensures
        read_all(fs, state) matches Ok(end) ==> {
            &&& read_or_blank(fs, end, canonical, data)
            &&& end.remaining > 0 ==> end.seen.contains(canonical.uri@)
        },
    decreases state.files_left(),
{
    if state.stack.len() > 0 && state.remaining > 0 {
        lemma_read_one_keeps_waiting(fs, state, path, canonical, data);
        lemma_read_one_read(fs, state, canonical, data);
        lemma_read_one_decreases(fs, state);
        if let Ok(after) = read_one(fs, state) {
            lemma_all_waiting_read(fs, after, path, canonical, data);
        }
    }
}

/// Every reference that waits is read, however many were followed: from any point between two
/// files, where reading ends well and bytes may still be read, a reference that waits, that can be
/// followed and whose file has not been asked for before, gets an entry with all of its text, if
/// that says something.
pub proof fn law_every_waiting_reference_is_read(
    fs: FileSystem,
    state: ReadState,
    i: int,
    canonical: PathUri,
    data: Seq<u8>,
)
    requires
        state.wf(),
        state.phase is Done,
        fs.goes_by_uri(),
        0 <= i < state.stack.len(),
        state.stack[i].source_kind == InstructionSourceKind::Reference,
        can_be_followed(fs, state.reference_root, state.stack[i].path, canonical, data),
        state.canonical_root matches Some(root) ==> {
            &&& (fs.canonicalize)(state.reference_root) matches Ok((known, _))
            &&& known == root
        },
        !state.seen.contains(canonical.uri@),
    ensures
        ({
            let end = state.next().run(fs);
            let owed = end.phase is Done && end.remaining > 0 && says_something(
                data,
                end.remaining,
            );
            owed ==> exists|k: int|
                0 <= k < end.entries.len() && (#[trigger] end.history.origins[k]).path.uri@
                    == canonical.uri@ && end.entries[k].contents == utf8_lossy(data)
        }),
{
    let path = state.stack[i].path;
    lemma_run_all(fs, state);
    assert(waits_or_is_known(state, path, canonical));
    assert(read_or_blank(fs, state, canonical, data));
    lemma_all_waiting_read(fs, state, path, canonical, data);
    if let Ok(end) = read_all(fs, state) {
        if end.remaining > 0 && says_something(data, end.remaining) {
            assert(end.seen.contains(canonical.uri@));
            assert(forall|limit: int|
                limit >= end.remaining ==> !all_white_space(
                    utf8_lossy(#[trigger] kept_bytes(data, limit)),
                ));
        }
    }
}

} // verus!
