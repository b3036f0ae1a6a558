//! What is read, seen from what is in the file system.

use vstd::prelude::*;
use crate::discovery::AgentsMdSource;
use crate::errors::{FsError, FsErrorState};
use crate::loaded::{InstructionProvenance, InstructionSourceKind};
use crate::markdown::reference_targets;
use crate::paths::{relative_paths, resolved_paths, PathUri};
use crate::reader::{
    kept_bytes, lemma_with_references, pending_sources, total_bytes, with_references, EntryOrigin,
    EntryState, PendingInstructionSource, ReadHistory, ReadPhase, ReadQuestion, ReadState,
    AGENTS_MD_REFERENCE_MAX_DEPTH, AGENTS_MD_REFERENCE_MAX_FILES,
};
use crate::reader_run::{
    canonical_instruction_path, known_root, law_reading_ends, law_reading_reads_all, leads_to,
    lemma_answer_wf, lemma_read_one_decreases, read_all, read_instruction_entry, read_one,
    FileSystem,
};
use crate::stdlib::utf8_lossy;

verus! {

/// As many bytes are kept as there are and may be read, from the front.
pub proof fn law_bytes_are_kept_from_the_front(data: Seq<u8>, remaining: int)
    requires
        0 <= remaining,
    ensures
        kept_bytes(data, remaining).is_prefix_of(data),
        data.len() <= remaining ==> kept_bytes(data, remaining) == data,
        data.len() > remaining ==> kept_bytes(data, remaining).len() == remaining,
{
    assert(data.take(data.len() as int) =~= data);
}

/// References that have been asked for are left out, and nothing else changes for the others.
pub proof fn law_known_references_are_left_out(
    stack: Seq<PendingInstructionSource>,
    followed: int,
    paths: Seq<PathUri>,
    seen: Set<Seq<char>>,
    depth: usize,
)
    ensures
        with_references(stack, followed, paths, seen, depth) == with_references(
            stack,
            followed,
            paths.filter(|path: PathUri| !seen.contains(path.uri@)),
            seen,
            depth,
        ),
    decreases paths.len(),
{
    reveal(Seq::filter);
    let is_new = |path: PathUri| !seen.contains(path.uri@);
    let kept = paths.filter(is_new);
    if paths.len() > 0 {
        let rest = paths.drop_last();
        if seen.contains(paths.last().uri@) {
            law_known_references_are_left_out(stack, followed, rest, seen, depth);
            assert(kept =~= rest.filter(is_new));
        } else {
            assert(kept =~= rest.filter(is_new).push(paths.last()));
            assert(kept.drop_last() =~= rest.filter(is_new));
            if followed < AGENTS_MD_REFERENCE_MAX_FILES {
                let pending = PendingInstructionSource {
                    path: paths.last(),
                    source_kind: InstructionSourceKind::Reference,
                    depth,
                };
                law_known_references_are_left_out(
                    stack.push(pending),
                    followed + 1,
                    rest,
                    seen,
                    depth,
                );
            }
        }
    }
}

/// Of more new references than may still be followed, the last ones are followed, as many as may
/// be.
pub proof fn law_last_references_are_followed(
    stack: Seq<PendingInstructionSource>,
    followed: int,
    paths: Seq<PathUri>,
    seen: Set<Seq<char>>,
    depth: usize,
)
    requires
        0 <= followed <= AGENTS_MD_REFERENCE_MAX_FILES,
        followed + paths.len() > AGENTS_MD_REFERENCE_MAX_FILES,
        forall|i: int| 0 <= i < paths.len() ==> !seen.contains((#[trigger] paths[i]).uri@),
    ensures
        with_references(stack, followed, paths, seen, depth) == with_references(
            stack,
            followed,
            paths.skip(paths.len() - (AGENTS_MD_REFERENCE_MAX_FILES - followed)),
            seen,
            depth,
        ),
    decreases paths.len(),
{
    let room = AGENTS_MD_REFERENCE_MAX_FILES - followed;
    let last = paths.skip(paths.len() - room);
    let rest = paths.drop_last();
    if room > 0 {
        assert(!seen.contains(paths.last().uri@));
        let pending = PendingInstructionSource {
            path: paths.last(),
            source_kind: InstructionSourceKind::Reference,
            depth,
        };
        assert forall|i: int| 0 <= i < rest.len() implies !seen.contains(
            (#[trigger] rest[i]).uri@,
        ) by {
            assert(rest[i] == paths[i]);
        }
        law_last_references_are_followed(stack.push(pending), followed + 1, rest, seen, depth);
        assert(last.last() == paths.last());
        assert(last.drop_last() =~= rest.skip(rest.len() - (room - 1)));
    } else {
        assert(!seen.contains(paths.last().uri@));
        assert(last =~= Seq::empty());
    }
}

/// Whether a file is named for reading: one that was found, by the sources; one that is referenced,
/// by a reference in one of the first `n` entries, which lies one reference less deep. Between that
/// entry and the file stand only entries that lie as deep as the file, or deeper: the other files
/// that the entry references, and what these reference.
pub open spec fn is_named(
    fs: FileSystem,
    sources: Seq<AgentsMdSource>,
    entries: Seq<EntryState>,
    origins: Seq<EntryOrigin>,
    n: int,
    path: PathUri,
    kind: InstructionSourceKind,
    depth: int,
) -> bool {
    if kind == InstructionSourceKind::Reference {
        exists|j: int|
            0 <= j < n && leads_to(fs, #[trigger] entries[j], path) && origins[j].depth + 1
                == depth && forall|l: int| j < l < n ==> (#[trigger] origins[l]).depth >= depth
    } else {
        &&& depth == 0
        &&& exists|k: int|
            0 <= k < sources.len() && (#[trigger] sources[k]).path == path
                && sources[k].source_kind == kind
    }
}

/// Whether entry `i` holds what a file holds that was named for reading and does not lie too deep:
/// all of its text, as far as the entries before it left bytes to read.
pub open spec fn stems_from_a_file(
    fs: FileSystem,
    sources: Seq<AgentsMdSource>,
    max_total: int,
    entries: Seq<EntryState>,
    origins: Seq<EntryOrigin>,
    i: int,
) -> bool {
    let left = max_total - total_bytes(origins.take(i));
    &&& entries[i].provenance matches InstructionProvenance::Project {
        source_path,
        source_kind,
        ..
    }
    &&& is_named(fs, sources, entries, origins, i, source_path, source_kind, origins[i].depth)
    &&& source_kind != InstructionSourceKind::Reference ==> origins[i].path == source_path
    &&& origins[i].depth <= AGENTS_MD_REFERENCE_MAX_DEPTH
    &&& (fs.metadata)(origins[i].path) == Ok::<bool, FsError>(true)
    &&& (fs.read)(origins[i].path) matches Ok(data)
    &&& 0 <= origins[i].bytes <= data.len()
    &&& origins[i].bytes == (if data.len() <= left {
        data.len() as int
    } else {
        left
    })
    &&& entries[i].contents == utf8_lossy(data.take(origins[i].bytes))
}

spec fn is_accounted_for(
    fs: FileSystem,
    sources: Seq<AgentsMdSource>,
    max_total: int,
    state: ReadState,
) -> bool {
    let entries = state.entries;
    let origins = state.history.origins;
    &&& forall|i: int|
        0 <= i < entries.len() ==> ((#[trigger] entries[i]).provenance matches
            InstructionProvenance::Project { environment_id, cwd, .. } && environment_id
            == state.environment_id && cwd == state.cwd)
    &&& forall|i: int, j: int|
        0 <= i < j < state.stack.len() ==> (#[trigger] state.stack[i]).depth <= (
        #[trigger] state.stack[j]).depth
    &&& forall|i: int|
        0 <= i < state.stack.len() ==> (#[trigger] state.stack[i]).depth
            <= AGENTS_MD_REFERENCE_MAX_DEPTH
    &&& origins.len() == entries.len()
    &&& state.remaining >= 0
    &&& state.remaining == max_total - total_bytes(origins)
    &&& forall|i: int|
        0 <= i < entries.len() ==> #[trigger] stems_from_a_file(
            fs,
            sources,
            max_total,
            entries,
            origins,
            i,
        )
    &&& forall|i: int|
        0 <= i < state.stack.len() ==> is_named(
            fs,
            sources,
            entries,
            origins,
            entries.len() as int,
            (#[trigger] state.stack[i]).path,
            state.stack[i].source_kind,
            state.stack[i].depth as int,
        )
}

proof fn lemma_named_stays(
    fs: FileSystem,
    sources: Seq<AgentsMdSource>,
    entries: Seq<EntryState>,
    origins: Seq<EntryOrigin>,
    more: Seq<EntryState>,
    all: Seq<EntryOrigin>,
    n: int,
    m: int,
    path: PathUri,
    kind: InstructionSourceKind,
    depth: int,
)
    requires
        is_named(fs, sources, entries, origins, n, path, kind, depth),
        n <= m,
        n <= entries.len() <= more.len(),
        n <= origins.len() <= all.len(),
        forall|j: int| 0 <= j < n ==> more[j] == entries[j],
        forall|j: int| 0 <= j < n ==> all[j] == origins[j],
        forall|l: int| n <= l < m ==> (#[trigger] all[l]).depth >= depth,
    ensures
        is_named(fs, sources, more, all, m, path, kind, depth),
{
    if kind == InstructionSourceKind::Reference {
        let j = choose|j: int|
            0 <= j < n && leads_to(fs, #[trigger] entries[j], path) && origins[j].depth + 1
                == depth && forall|l: int| j < l < n ==> (#[trigger] origins[l]).depth >= depth;
        assert(more[j] == entries[j]);
        assert(all[j] == origins[j]);
        assert forall|l: int| j < l < m implies (#[trigger] all[l]).depth >= depth by {
            if l < n {
                assert(all[l] == origins[l]);
            }
        }
    }
}

proof fn lemma_followed_paths(
    stack: Seq<PendingInstructionSource>,
    followed: int,
    paths: Seq<PathUri>,
    seen: Set<Seq<char>>,
    depth: usize,
)
    requires
        followed <= AGENTS_MD_REFERENCE_MAX_FILES,
    ensures
        ({
            let after = with_references(stack, followed, paths, seen, depth).0;
            forall|i: int|
                stack.len() <= i < after.len() ==> paths.contains((#[trigger] after[i]).path)
        }),
    decreases paths.len(),
{
    if paths.len() > 0 {
        let rest = paths.drop_last();
        let after = with_references(stack, followed, paths, seen, depth).0;
        assert forall|path: PathUri| #[trigger] rest.contains(path) implies paths.contains(
            path,
        ) by {
            let k = choose|k: int| 0 <= k < rest.len() && rest[k] == path;
            assert(paths[k] == path);
        }
        if seen.contains(paths.last().uri@) {
            lemma_followed_paths(stack, followed, rest, seen, depth);
        } else if followed < AGENTS_MD_REFERENCE_MAX_FILES {
            let more = stack.push(
                PendingInstructionSource {
                    path: paths.last(),
                    source_kind: InstructionSourceKind::Reference,
                    depth,
                },
            );
            lemma_followed_paths(more, followed + 1, rest, seen, depth);
            lemma_with_references(more, followed + 1, rest, seen, depth);
            assert(after[stack.len() as int] == more[stack.len() as int]);
            assert(paths.contains(paths.last()));
        }
    }
}

proof fn lemma_kept_was_resolved(resolved: Seq<Option<PathUri>>, path: PathUri)
    requires
        resolved_paths(resolved).contains(path),
    ensures
        resolved.contains(Some(path)),
    decreases resolved.len(),
{
    if resolved.len() > 0 {
        let rest = resolved.drop_first();
        let kept = resolved_paths(resolved);
        let k = choose|k: int| 0 <= k < kept.len() && kept[k] == path;
        if resolved[0] == Some(path) {
            assert(resolved.contains(resolved[0]));
        } else {
            if resolved[0] is Some {
                assert(resolved_paths(rest)[k - 1] == path);
            } else {
                assert(resolved_paths(rest)[k] == path);
            }
            lemma_kept_was_resolved(rest, path);
            let i = choose|i: int| 0 <= i < rest.len() && rest[i] == Some(path);
            assert(resolved[i + 1] == Some(path));
        }
    }
}

proof fn lemma_read_one_accounts(
    fs: FileSystem,
    sources: Seq<AgentsMdSource>,
    max_total: int,
    state: ReadState,
)
    requires
        state.stack.len() > 0,
        0 <= state.references <= AGENTS_MD_REFERENCE_MAX_FILES,
        is_accounted_for(fs, sources, max_total, state),
    ensures
        read_one(fs, state) matches Ok(after) ==> is_accounted_for(fs, sources, max_total, after)
            && after.environment_id == state.environment_id && after.cwd == state.cwd,
{
    let pending = state.stack.last();
    let rest = state.stack.drop_last();
    let entries = state.entries;
    let origins = state.history.origins;
    let n = entries.len() as int;
    assert(state.stack[rest.len() as int] == pending);
    assert forall|i: int| 0 <= i < rest.len() implies (#[trigger] rest[i]).depth
        <= pending.depth by {
        assert(state.stack[i] == rest[i]);
    }
    assert forall|i: int, j: int| 0 <= i < j < rest.len() implies (#[trigger] rest[i]).depth <= (
    #[trigger] rest[j]).depth by {
        assert(state.stack[i] == rest[i]);
        assert(state.stack[j] == rest[j]);
    }
    assert forall|i: int| 0 <= i < rest.len() implies is_named(
        fs,
        sources,
        entries,
        origins,
        n,
        (#[trigger] rest[i]).path,
        rest[i].source_kind,
        rest[i].depth as int,
    ) by {
        assert(state.stack[i] == rest[i]);
    }
    if let Ok(after) = read_one(fs, state) {
        let rooted = known_root(fs, ReadState { stack: rest, ..state }, pending)->Ok_0;
        if after.entries.len() > n {
            let found = canonical_instruction_path(fs, pending, rooted.canonical_root)->Ok_0->0;
            let (text, bytes, paths) = read_instruction_entry(
                fs,
                pending.path,
                found,
                rooted.remaining,
            )->Ok_0->0;
            let data = (fs.read)(found)->Ok_0;
            let more = after.entries;
            let all = after.history.origins;
            let origin = EntryOrigin { path: found, depth: pending.depth as int, bytes };
            let entry = EntryState { contents: text, provenance: state.provenance_of(pending) };
            assert(more == entries.push(entry));
            assert(all == origins.push(origin));
            assert(all.drop_last() =~= origins);
            law_bytes_are_kept_from_the_front(data, state.remaining);
            assert(kept_bytes(data, state.remaining) =~= data.take(bytes));
            assert(all.take(n) =~= origins);
            assert(is_named(
                fs,
                sources,
                entries,
                origins,
                n,
                pending.path,
                pending.source_kind,
                pending.depth as int,
            ));
            lemma_named_stays(
                fs,
                sources,
                entries,
                origins,
                more,
                all,
                n,
                n,
                pending.path,
                pending.source_kind,
                pending.depth as int,
            );
            assert(stems_from_a_file(fs, sources, max_total, more, all, n));
            assert forall|i: int| 0 <= i < more.len() implies ((
            #[trigger] more[i]).provenance matches InstructionProvenance::Project {
                environment_id,
                cwd,
                ..
            } && environment_id == state.environment_id && cwd == state.cwd) by {
                if i < n {
                    assert(more[i] == entries[i]);
                }
            }
            assert forall|i: int| 0 <= i < more.len() implies #[trigger] stems_from_a_file(
                fs,
                sources,
                max_total,
                more,
                all,
                i,
            ) by {
                if i < n {
                    assert(stems_from_a_file(fs, sources, max_total, entries, origins, i));
                    assert(all.take(i) =~= origins.take(i));
                    assert(more[i] == entries[i]);
                    assert(all[i] == origins[i]);
                    if let InstructionProvenance::Project { source_path, source_kind, .. } =
                        entries[i].provenance {
                        lemma_named_stays(
                            fs,
                            sources,
                            entries,
                            origins,
                            more,
                            all,
                            i,
                            i,
                            source_path,
                            source_kind,
                            origins[i].depth,
                        );
                    }
                }
            }
            let seen = rooted.seen.insert(found.uri@);
            let depth = (pending.depth + 1) as usize;
            if pending.depth < AGENTS_MD_REFERENCE_MAX_DEPTH {
                lemma_with_references(rest, state.references, paths, seen, depth);
                lemma_followed_paths(rest, state.references, paths, seen, depth);
            }
            let resolved = (fs.resolve)(pending.path, relative_paths(reference_targets(text)));
            assert forall|i: int| 0 <= i < after.stack.len() implies is_named(
                fs,
                sources,
                more,
                all,
                n + 1,
                (#[trigger] after.stack[i]).path,
                after.stack[i].source_kind,
                after.stack[i].depth as int,
            ) by {
                if i < rest.len() {
                    assert(after.stack[i] == rest[i]);
                    lemma_named_stays(
                        fs,
                        sources,
                        entries,
                        origins,
                        more,
                        all,
                        n,
                        n + 1,
                        rest[i].path,
                        rest[i].source_kind,
                        rest[i].depth as int,
                    );
                } else {
                    let path = after.stack[i].path;
                    lemma_kept_was_resolved(resolved, path);
                    assert(leads_to(fs, more[n], path));
                    assert(all[n].depth + 1 == depth);
                    assert(forall|l: int| n < l < n + 1 ==> (#[trigger] all[l]).depth >= depth);
                }
            }
        } else {
            assert(after.entries == entries);
            assert(after.stack == rest);
        }
    }
}

proof fn lemma_all_accounted_for(
    fs: FileSystem,
    sources: Seq<AgentsMdSource>,
    max_total: int,
    state: ReadState,
)
    requires
        0 <= state.references <= AGENTS_MD_REFERENCE_MAX_FILES,
        is_accounted_for(fs, sources, max_total, state),
    ensures
        read_all(fs, state) matches Ok(end) ==> is_accounted_for(fs, sources, max_total, end)
            && end.environment_id == state.environment_id && end.cwd == state.cwd,
    decreases state.files_left(),
{
    if state.stack.len() > 0 && state.remaining != 0 {
        lemma_read_one_accounts(fs, sources, max_total, state);
        lemma_read_one_decreases(fs, state);
        if let Ok(after) = read_one(fs, state) {
            lemma_all_accounted_for(fs, sources, max_total, after);
        }
    }
}

/// Every entry holds what a file holds that was named for reading, by the sources or by a reference
/// in an entry before it: all of its text, as far as the entries before it left bytes to read. It
/// says how the file was found, the path at which it was, and the environment. What may be read
/// after all entries is what they left.
pub proof fn law_every_entry_stems_from_a_file(
    fs: FileSystem,
    sources: Seq<AgentsMdSource>,
    reference_root: PathUri,
    max_total: int,
    environment_id: String,
    cwd: PathUri,
    i: int,
)
    requires
        0 <= max_total <= u64::MAX,
        forall|k: int|
            0 <= k < sources.len() ==> (#[trigger] sources[k]).source_kind
                != InstructionSourceKind::Reference,
    ensures
        ({
            let end = ReadState::initial(
                sources,
                reference_root,
                max_total,
                environment_id,
                cwd,
            ).run(fs);
            &&& end.phase is Done && 0 <= i < end.entries.len() ==> {
                &&& stems_from_a_file(
                    fs,
                    sources,
                    max_total,
                    end.entries,
                    end.history.origins,
                    i,
                )
                &&& end.entries[i].provenance->environment_id == environment_id
                &&& end.entries[i].provenance->cwd == cwd
            }
            &&& end.phase is Done ==> end.remaining == max_total - total_bytes(end.history.origins)
        }),
{
    let fresh = ReadState::fresh(sources, reference_root, max_total, environment_id, cwd);
    law_reading_reads_all(fs, sources, reference_root, max_total, environment_id, cwd);
    assert forall|k: int| 0 <= k < fresh.stack.len() implies is_named(
        fs,
        sources,
        fresh.entries,
        fresh.history.origins,
        0,
        (#[trigger] fresh.stack[k]).path,
        fresh.stack[k].source_kind,
        fresh.stack[k].depth as int,
    ) by {
        let source = sources[sources.len() - 1 - k];
        assert(source.path == fresh.stack[k].path);
    }
    assert(is_accounted_for(fs, sources, max_total, fresh));
    lemma_all_accounted_for(fs, sources, max_total, fresh);
}

/// Whether two states are the same but for `bottom`, which waits below everything else in one of
/// them.
pub open spec fn differs_by_bottom(
    state: ReadState,
    other: ReadState,
    bottom: Seq<PendingInstructionSource>,
) -> bool {
    other == (ReadState {
        stack: bottom + state.stack,
        history: ReadHistory { source_count: other.history.source_count, ..state.history },
        ..state
    })
}

proof fn lemma_references_above(
    bottom: Seq<PendingInstructionSource>,
    stack: Seq<PendingInstructionSource>,
    followed: int,
    paths: Seq<PathUri>,
    seen: Set<Seq<char>>,
    depth: usize,
)
    ensures
        with_references(bottom + stack, followed, paths, seen, depth).0 == bottom + with_references(
            stack,
            followed,
            paths,
            seen,
            depth,
        ).0,
        with_references(bottom + stack, followed, paths, seen, depth).1 == with_references(
            stack,
            followed,
            paths,
            seen,
            depth,
        ).1,
    decreases paths.len(),
{
    if paths.len() > 0 {
        let rest = paths.drop_last();
        if seen.contains(paths.last().uri@) {
            lemma_references_above(bottom, stack, followed, rest, seen, depth);
        } else if followed < AGENTS_MD_REFERENCE_MAX_FILES {
            let pending = PendingInstructionSource {
                path: paths.last(),
                source_kind: InstructionSourceKind::Reference,
                depth,
            };
            lemma_references_above(bottom, stack.push(pending), followed + 1, rest, seen, depth);
            assert((bottom + stack).push(pending) =~= bottom + stack.push(pending));
        }
    }
}

proof fn lemma_read_one_above(
    fs: FileSystem,
    state: ReadState,
    other: ReadState,
    bottom: Seq<PendingInstructionSource>,
)
    requires
        state.stack.len() > 0,
        differs_by_bottom(state, other, bottom),
    ensures
        match read_one(fs, state) {
            Ok(after) => read_one(fs, other) matches Ok(behind) && differs_by_bottom(
                after,
                behind,
                bottom,
            ),
            Err(error) => read_one(fs, other) == Err::<ReadState, FsErrorState>(error),
        },
{
    let pending = state.stack.last();
    let rest = state.stack.drop_last();
    assert(other.stack.last() == pending);
    assert(other.stack.drop_last() =~= bottom + rest);
    let popped = ReadState { stack: rest, ..state };
    if let Ok(rooted) = known_root(fs, popped, pending) {
        if let Ok(Some(path)) = canonical_instruction_path(fs, pending, rooted.canonical_root) {
            if let Ok(Some((text, bytes, paths))) = read_instruction_entry(
                fs,
                pending.path,
                path,
                rooted.remaining,
            ) {
                lemma_references_above(
                    bottom,
                    rest,
                    state.references,
                    paths,
                    rooted.seen.insert(path.uri@),
                    (pending.depth + 1) as usize,
                );
            }
        }
    }
}

proof fn lemma_read_all_above(
    fs: FileSystem,
    state: ReadState,
    other: ReadState,
    bottom: Seq<PendingInstructionSource>,
)
    requires
        0 <= state.references <= AGENTS_MD_REFERENCE_MAX_FILES,
        differs_by_bottom(state, other, bottom),
    ensures
        match read_all(fs, state) {
            Ok(end) => {
                let behind = ReadState {
                    stack: bottom + end.stack,
                    history: ReadHistory {
                        source_count: other.history.source_count,
                        ..end.history
                    },
                    ..end
                };
                &&& read_all(fs, other) == read_all(fs, behind)
                &&& 0 <= end.references <= AGENTS_MD_REFERENCE_MAX_FILES
            },
            Err(error) => read_all(fs, other) == Err::<ReadState, FsErrorState>(error),
        },
    decreases state.files_left(),
{
    if state.stack.len() > 0 && state.remaining != 0 {
        lemma_read_one_above(fs, state, other, bottom);
        lemma_read_one_decreases(fs, state);
        if let Ok(after) = read_one(fs, state) {
            let behind = read_one(fs, other)->Ok_0;
            assert(behind.history.source_count == other.history.source_count);
            lemma_read_all_above(fs, after, behind, bottom);
        }
    }
}

proof fn lemma_entries_grow(fs: FileSystem, state: ReadState)
    requires
        0 <= state.references <= AGENTS_MD_REFERENCE_MAX_FILES,
    ensures
        read_all(fs, state) matches Ok(end) ==> state.entries.is_prefix_of(end.entries),
    decreases state.files_left(),
{
    if state.stack.len() > 0 && state.remaining != 0 {
        lemma_read_one_decreases(fs, state);
        if let Ok(after) = read_one(fs, state) {
            assert(state.entries.is_prefix_of(after.entries));
            lemma_entries_grow(fs, after);
        }
    }
}

/// What waits below everything else is read last: the rest is read as if it were not there, and
/// the entries of what waited follow. So a file comes with everything that it references, and what
/// that references, before the next one.
pub proof fn law_what_waits_below_comes_last(
    fs: FileSystem,
    state: ReadState,
    other: ReadState,
    bottom: Seq<PendingInstructionSource>,
)
    requires
        0 <= state.references <= AGENTS_MD_REFERENCE_MAX_FILES,
        differs_by_bottom(state, other, bottom),
    ensures
        match read_all(fs, state) {
            Ok(end) => read_all(fs, other) matches Ok(behind) ==> end.entries.is_prefix_of(
                behind.entries,
            ),
            Err(error) => read_all(fs, other) == Err::<ReadState, FsErrorState>(error),
        },
{
    lemma_read_all_above(fs, state, other, bottom);
    if let Ok(end) = read_all(fs, state) {
        let behind = ReadState {
            stack: bottom + end.stack,
            history: ReadHistory { source_count: other.history.source_count, ..end.history },
            ..end
        };
        lemma_entries_grow(fs, behind);
    }
}

/// Files that were found are read in the order in which they were: with more of them behind, the
/// same entries come first, and what goes wrong goes wrong all the same.
pub proof fn law_found_files_in_order(
    fs: FileSystem,
    first: Seq<AgentsMdSource>,
    others: Seq<AgentsMdSource>,
    reference_root: PathUri,
    max_total: int,
    environment_id: String,
    cwd: PathUri,
)
    requires
        0 <= max_total <= u64::MAX,
    ensures
        ({
            let some = ReadState::initial(
                first,
                reference_root,
                max_total,
                environment_id,
                cwd,
            ).run(fs);
            let all = ReadState::initial(
                first + others,
                reference_root,
                max_total,
                environment_id,
                cwd,
            ).run(fs);
            match some.phase {
                ReadPhase::Failed { error } => all.phase == (ReadPhase::Failed { error }),
                _ => all.phase is Done ==> some.entries.is_prefix_of(all.entries),
            }
        }),
{
    let state = ReadState::fresh(first, reference_root, max_total, environment_id, cwd);
    let other = ReadState::fresh(first + others, reference_root, max_total, environment_id, cwd);
    let bottom = pending_sources(others);
    assert(pending_sources(first + others) =~= bottom + pending_sources(first));
    assert(differs_by_bottom(state, other, bottom));
    law_reading_reads_all(fs, first, reference_root, max_total, environment_id, cwd);
    law_reading_reads_all(fs, first + others, reference_root, max_total, environment_id, cwd);
    law_what_waits_below_comes_last(fs, state, other, bottom);
}

impl ReadState {
    /// The state after `n` answers of `fs`, or after all of them where there are fewer.
    pub open spec fn after_answers(self, fs: FileSystem, n: nat) -> ReadState
        decreases n,
    {
        if n > 0 && self.is_running() {
            self.answered(fs).after_answers(fs, (n - 1) as nat)
        } else {
            self
        }
    }

    /// The error that `fs` answers the last question with, if it ends reading. That there is
    /// nothing at a path does not, unless it is the reference root.
    pub open spec fn fatal_answer(self, fs: FileSystem) -> Option<FsErrorState> {
        let error = match self.question() {
            ReadQuestion::Metadata { path } => match (fs.metadata)(path) {
                Err(error) => Some(error),
                Ok(_) => None,
            },
            ReadQuestion::Canonicalize { path } => match (fs.canonicalize)(path) {
                Err(error) => Some(error),
                Ok(_) => None,
            },
            ReadQuestion::ReadFile { path } => match (fs.read)(path) {
                Err(error) => Some(error),
                Ok(_) => None,
            },
            _ => None,
        };
        match error {
            Some(error) => if error.not_found && !(self.phase is CanonicalizeRoot) {
                None
            } else {
                Some(error@)
            },
            None => None,
        }
    }

    /// Whether the question that is asked after `n` answers ends reading with `error`.
    pub open spec fn ends_after(self, fs: FileSystem, n: nat, error: FsErrorState) -> bool {
        self.after_answers(fs, n).fatal_answer(fs) == Some(error)
    }
}

/// Reading fails if and only if one of its questions is answered with an error other than that
/// there is nothing, or with any error on the reference root; and it fails with that very error.
pub proof fn law_reading_fails_with_an_answer(
    state: ReadState,
    fs: FileSystem,
    error: FsErrorState,
)
    requires
        state.wf(),
        !(state.phase is Failed),
    ensures
        state.run(fs).phase == (ReadPhase::Failed { error }) <==> exists|n: nat|
            #[trigger] state.ends_after(fs, n, error),
    decreases state.files_left(), state.questions_left(),
{
    if state.is_running() {
        let next = state.answered(fs);
        lemma_answer_wf(state, fs);
        law_reading_ends(state, fs);
        assert(state.after_answers(fs, 0) == state);
        assert(state.ends_after(fs, 0, error) == (state.fatal_answer(fs) == Some(error)));
        assert forall|n: nat| n > 0 implies #[trigger] state.ends_after(fs, n, error)
            == next.ends_after(fs, (n - 1) as nat, error) by {}
        match state.fatal_answer(fs) {
            None => {
                assert(!(next.phase is Failed));
                law_reading_fails_with_an_answer(next, fs, error);
                if exists|n: nat| #[trigger] next.ends_after(fs, n, error) {
                    let n = choose|n: nat| #[trigger] next.ends_after(fs, n, error);
                    assert(state.ends_after(fs, (n + 1) as nat, error));
                }
            },
            Some(reason) => {
                assert(next.phase == (ReadPhase::Failed { error: reason }));
                assert forall|n: nat| !#[trigger] next.ends_after(fs, n, error) by {}
            },
        }
    } else {
        assert forall|n: nat| !#[trigger] state.ends_after(fs, n, error) by {}
    }
}

} // verus!
