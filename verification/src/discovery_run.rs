//! What a search for instruction files finds in a file system that does not change.

use vstd::prelude::*;
use crate::discovery::{
    candidate_names, directories_from, lemma_first_names, lemma_with_fallbacks, up_to_root,
    with_fallbacks, AgentsMdSource, DiscoveryPhase, DiscoveryQuestion, DiscoveryState, Probe,
    ProbeFailure, DEFAULT_AGENTS_MD_FILENAME, LOCAL_AGENTS_MD_FILENAME,
    OVERRIDE_AGENTS_MD_FILENAME,
};
use crate::loaded::InstructionSourceKind;
use crate::paths::PathUri;

verus! {

/// A file system that does not change: what is at a name in a directory.
pub type Listing = spec_fn(PathUri, Seq<char>) -> Probe;

/// Whether one of the markers from `m` on is in `directory`. They are tried in order, up to the
/// first that is there or that fails.
pub open spec fn marked(
    fs: Listing,
    directory: PathUri,
    markers: Seq<Seq<char>>,
    m: int,
) -> Result<bool, ProbeFailure>
    decreases markers.len() - m,
{
    if m < 0 || m >= markers.len() {
        Ok(false)
    } else {
        match fs(directory, markers[m]).failure() {
            Some(failure) => Err(failure),
            None => if fs(directory, markers[m]) is Found {
                Ok(true)
            } else {
                marked(fs, directory, markers, m + 1)
            },
        }
    }
}

/// The first of the ancestors from `a` on that holds a marker.
pub open spec fn nearest_marked(
    fs: Listing,
    ancestors: Seq<PathUri>,
    markers: Seq<Seq<char>>,
    a: int,
) -> Result<Option<PathUri>, ProbeFailure>
    decreases ancestors.len() - a,
{
    if a < 0 || a >= ancestors.len() {
        Ok(None)
    } else {
        match marked(fs, ancestors[a], markers, 0) {
            Ok(true) => Ok(Some(ancestors[a])),
            Ok(false) => nearest_marked(fs, ancestors, markers, a + 1),
            Err(failure) => Err(failure),
        }
    }
}

/// The project root. Without markers no directory is asked.
pub open spec fn project_root(
    fs: Listing,
    ancestors: Seq<PathUri>,
    markers: Seq<Seq<char>>,
) -> Result<Option<PathUri>, ProbeFailure> {
    if markers.len() == 0 {
        Ok(None)
    } else {
        nearest_marked(fs, ancestors, markers, 0)
    }
}

/// The first of the candidates from `n` on that is a regular file in `directory`.
pub open spec fn primary_file(
    fs: Listing,
    directory: PathUri,
    names: Seq<Seq<char>>,
    n: int,
) -> Result<Option<PathUri>, ProbeFailure>
    decreases names.len() - n,
{
    if n < 0 || n >= names.len() {
        Ok(None)
    } else {
        match (fs(directory, names[n]).failure(), fs(directory, names[n])) {
            (Some(failure), _) => Err(failure),
            (None, Probe::Found { path, is_file: true }) => Ok(Some(path)),
            _ => primary_file(fs, directory, names, n + 1),
        }
    }
}

/// The local overlay in `directory`, if it is a regular file.
pub open spec fn local_file(
    fs: Listing,
    directory: PathUri,
) -> Result<Option<PathUri>, ProbeFailure> {
    let probe = fs(directory, LOCAL_AGENTS_MD_FILENAME@);
    match (probe.failure(), probe) {
        (Some(failure), _) => Err(failure),
        (None, Probe::Found { path, is_file: true }) => Ok(Some(path)),
        _ => Ok(None),
    }
}

/// A file as a source, if there is one.
pub open spec fn as_sources(
    file: Option<PathUri>,
    source_kind: InstructionSourceKind,
) -> Seq<AgentsMdSource> {
    match file {
        Some(path) => seq![AgentsMdSource { path, source_kind }],
        None => Seq::empty(),
    }
}

/// One search behind another, where the first does not fail.
pub open spec fn and_sources(
    first: Result<Seq<AgentsMdSource>, ProbeFailure>,
    second: Result<Seq<AgentsMdSource>, ProbeFailure>,
) -> Result<Seq<AgentsMdSource>, ProbeFailure> {
    match (first, second) {
        (Err(failure), _) => Err(failure),
        (_, Err(failure)) => Err(failure),
        (Ok(a), Ok(b)) => Ok(a + b),
    }
}

/// The local overlay of a directory, as a source.
pub open spec fn local_sources(
    fs: Listing,
    directory: PathUri,
) -> Result<Seq<AgentsMdSource>, ProbeFailure> {
    match local_file(fs, directory) {
        Ok(file) => Ok(as_sources(file, InstructionSourceKind::LocalAddition)),
        Err(failure) => Err(failure),
    }
}

/// What a directory contributes: the first of the candidates from `n` on, then its local overlay.
pub open spec fn directory_sources(
    fs: Listing,
    directory: PathUri,
    names: Seq<Seq<char>>,
    n: int,
) -> Result<Seq<AgentsMdSource>, ProbeFailure> {
    match primary_file(fs, directory, names, n) {
        Ok(file) => and_sources(
            Ok(as_sources(file, InstructionSourceKind::Primary)),
            local_sources(fs, directory),
        ),
        Err(failure) => Err(failure),
    }
}

/// What the directories from `d` on contribute, in order.
pub open spec fn sources_in(
    fs: Listing,
    directories: Seq<PathUri>,
    names: Seq<Seq<char>>,
    d: int,
) -> Result<Seq<AgentsMdSource>, ProbeFailure>
    decreases directories.len() - d,
{
    if d < 0 || d >= directories.len() {
        Ok(Seq::empty())
    } else {
        and_sources(
            directory_sources(fs, directories[d], names, 0),
            sources_in(fs, directories, names, d + 1),
        )
    }
}

/// What a search finds once the project root is known: the sources, and the directory that
/// references may lead into.
pub open spec fn found_from_root(
    fs: Listing,
    cwd: PathUri,
    parents: Seq<PathUri>,
    names: Seq<Seq<char>>,
    root: Option<PathUri>,
) -> Result<(Seq<AgentsMdSource>, PathUri), ProbeFailure> {
    let (directories, reference_root) = match root {
        Some(root) => (directories_from(root, cwd, parents), root),
        None => (seq![cwd], cwd),
    };
    match sources_in(fs, directories, names, 0) {
        Ok(sources) => Ok((sources, reference_root)),
        Err(failure) => Err(failure),
    }
}

/// What a search finds.
pub open spec fn discovered(
    fs: Listing,
    cwd: PathUri,
    ancestors: Seq<PathUri>,
    parents: Seq<PathUri>,
    markers: Seq<Seq<char>>,
    names: Seq<Seq<char>>,
) -> Result<(Seq<AgentsMdSource>, PathUri), ProbeFailure> {
    match project_root(fs, ancestors, markers) {
        Ok(root) => found_from_root(fs, cwd, parents, names, root),
        Err(failure) => Err(failure),
    }
}

impl DiscoveryState {
    /// The state once all questions are answered by `fs`.
    pub open spec fn run(self, fs: Listing) -> DiscoveryState
        decreases self.stage(), self.places_left(), self.names_left(),
    {
        match self.question() {
            DiscoveryQuestion::Probe { directory, name } if self.wf() => self.answered(
                fs(directory, name),
            ).run(fs),
            _ => self,
        }
    }

    /// How many stages are left.
    pub open spec fn stage(self) -> nat {
        match self.phase {
            DiscoveryPhase::Markers { .. } => 2,
            DiscoveryPhase::Candidates { .. } => 1,
            DiscoveryPhase::Local { .. } => 1,
            _ => 0,
        }
    }

    /// How many directories are left in the stage.
    pub open spec fn places_left(self) -> int {
        match self.phase {
            DiscoveryPhase::Markers { ancestor, .. } => self.ancestors.len() - ancestor,
            DiscoveryPhase::Candidates { directory, .. } => self.directories.len() - directory,
            DiscoveryPhase::Local { directory } => self.directories.len() - directory,
            _ => 0,
        }
    }

    /// How many names are left in the directory.
    pub open spec fn names_left(self) -> int {
        match self.phase {
            DiscoveryPhase::Markers { marker, .. } => self.markers.len() - marker,
            DiscoveryPhase::Candidates { name, .. } => self.names.len() - name,
            _ => 0,
        }
    }

    /// What the search is going to have found.
    pub open spec fn outcome(
        self,
        fs: Listing,
    ) -> Result<(Seq<AgentsMdSource>, PathUri), ProbeFailure> {
        match self.phase {
            DiscoveryPhase::Markers { ancestor, marker } => {
                let root = match marked(
                    fs,
                    self.ancestors[ancestor],
                    self.markers,
                    marker,
                ) {
                    Ok(true) => Ok(Some(self.ancestors[ancestor])),
                    Ok(false) => nearest_marked(fs, self.ancestors, self.markers, ancestor + 1),
                    Err(failure) => Err(failure),
                };
                match root {
                    Ok(root) => found_from_root(fs, self.cwd, self.parents, self.names, root),
                    Err(failure) => Err(failure),
                }
            },
            DiscoveryPhase::Candidates { directory, name } => self.outcome_with(
                directory_sources(fs, self.directories[directory], self.names, name),
                fs,
                directory,
            ),
            DiscoveryPhase::Local { directory } => self.outcome_with(
                local_sources(fs, self.directories[directory]),
                fs,
                directory,
            ),
            DiscoveryPhase::Done => Ok((self.found, self.reference_root)),
            DiscoveryPhase::Failed { failure } => Err(failure),
        }
    }

    /// What the search is going to have found, where `here` is still found in the directory.
    pub open spec fn outcome_with(
        self,
        here: Result<Seq<AgentsMdSource>, ProbeFailure>,
        fs: Listing,
        directory: int,
    ) -> Result<(Seq<AgentsMdSource>, PathUri), ProbeFailure> {
        match and_sources(here, sources_in(fs, self.directories, self.names, directory + 1)) {
            Ok(sources) => Ok((self.found + sources, self.reference_root)),
            Err(failure) => Err(failure),
        }
    }
}

proof fn lemma_enter_directories(state: DiscoveryState, fs: Listing)
    requires
        state.phase == (DiscoveryPhase::Candidates { directory: 0, name: 0 }),
        state.found.len() == 0,
        state.directories.len() > 0,
    ensures
        state.outcome(fs) == (match sources_in(fs, state.directories, state.names, 0) {
            Ok(sources) => Ok((sources, state.reference_root)),
            Err(failure) => Err(failure),
        }),
{
    if let Ok(sources) = sources_in(fs, state.directories, state.names, 0) {
        assert(state.found + sources =~= sources);
    }
}

proof fn lemma_marker_answer(state: DiscoveryState, fs: Listing)
    requires
        state.wf(),
        state.phase is Markers,
    ensures
        ({
            let next = state.answered(fs(state.question()->directory, state.question()->name));
            next.wf() && next.outcome(fs) == state.outcome(fs)
        }),
{
    let probe = fs(state.question()->directory, state.question()->name);
    let next = state.answered(probe);
    assert((seq![state.cwd] + state.parents).len() > 0);
    assert(next.wf());
    reveal_with_fuel(marked, 2);
    reveal_with_fuel(nearest_marked, 2);
    if next.phase is Candidates {
        lemma_enter_directories(next, fs);
    }
}

proof fn lemma_candidate_answer(state: DiscoveryState, fs: Listing)
    requires
        state.wf(),
        state.phase is Candidates,
    ensures
        ({
            let next = state.answered(fs(state.question()->directory, state.question()->name));
            next.wf() && next.outcome(fs) == state.outcome(fs)
        }),
{
    let directory = state.phase->Candidates_directory;
    let probe = fs(state.question()->directory, state.question()->name);
    let next = state.answered(probe);
    assert(next.wf());
    reveal_with_fuel(primary_file, 2);
    let local = local_sources(fs, state.directories[directory]);
    let tail = sources_in(fs, state.directories, state.names, directory + 1);
    if local is Ok && tail is Ok {
        let l = local->Ok_0;
        let t = tail->Ok_0;
        assert(Seq::<AgentsMdSource>::empty() + l =~= l);
        if let Probe::Found { path, is_file: true } = probe {
            let p = as_sources(Some(path), InstructionSourceKind::Primary);
            assert(next.found + (l + t) =~= state.found + (p + l + t));
        }
    }
}

proof fn lemma_local_answer(state: DiscoveryState, fs: Listing)
    requires
        state.wf(),
        state.phase is Local,
    ensures
        ({
            let next = state.answered(fs(state.question()->directory, state.question()->name));
            next.wf() && next.outcome(fs) == state.outcome(fs)
        }),
{
    let directory = state.phase->Local_directory;
    let probe = fs(state.question()->directory, state.question()->name);
    let next = state.answered(probe);
    assert(next.wf());
    reveal_with_fuel(sources_in, 2);
    let tail = sources_in(fs, state.directories, state.names, directory + 1);
    if let Ok(t) = tail {
        assert(Seq::<AgentsMdSource>::empty() + t =~= t);
        if directory + 1 >= state.directories.len() {
            assert(t =~= Seq::empty());
            assert(state.found + t =~= state.found);
        }
        if let Probe::Found { path, is_file: true } = probe {
            let p = as_sources(Some(path), InstructionSourceKind::LocalAddition);
            assert(next.found + t =~= state.found + (p + t));
            assert(t.len() == 0 ==> next.found =~= state.found + (p + t));
        }
    }
}

proof fn lemma_answer_keeps_outcome(state: DiscoveryState, fs: Listing)
    requires
        state.wf(),
        state.question() is Probe,
    ensures
        ({
            let next = state.answered(fs(state.question()->directory, state.question()->name));
            next.wf() && next.outcome(fs) == state.outcome(fs)
        }),
{
    match state.phase {
        DiscoveryPhase::Markers { .. } => lemma_marker_answer(state, fs),
        DiscoveryPhase::Candidates { .. } => lemma_candidate_answer(state, fs),
        DiscoveryPhase::Local { .. } => lemma_local_answer(state, fs),
        _ => {},
    }
}

/// Every answer brings a search nearer to its end.
pub proof fn law_discovery_ends(state: DiscoveryState, probe: Probe)
    requires
        state.wf(),
        state.question() is Probe,
    ensures
        decreases_to!(
            state.stage(), state.places_left(), state.names_left()
            => state.answered(probe).stage(), state.answered(probe).places_left(),
            state.answered(probe).names_left()
        ),
{
}

proof fn lemma_run(state: DiscoveryState, fs: Listing)
    requires
        state.wf(),
    ensures
        match state.outcome(fs) {
            Ok((sources, reference_root)) => {
                &&& state.run(fs).phase is Done
                &&& state.run(fs).found == sources
                &&& state.run(fs).reference_root == reference_root
            },
            Err(failure) => state.run(fs).phase == (DiscoveryPhase::Failed { failure }),
        },
    decreases state.stage(), state.places_left(), state.names_left(),
{
    if let DiscoveryQuestion::Probe { directory, name } = state.question() {
        lemma_answer_keeps_outcome(state, fs);
        lemma_run(state.answered(fs(directory, name)), fs);
    }
}

/// A search whose questions are all answered by one file system ends with what [`discovered`]
/// says: the sources of every directory from the project root down to the working directory, in
/// that order, or the first failure.
pub proof fn law_discovery_finds(
    fs: Listing,
    cwd: PathUri,
    ancestors: Seq<PathUri>,
    parents: Seq<PathUri>,
    markers: Seq<Seq<char>>,
    names: Seq<Seq<char>>,
)
    requires
        names.len() > 0,
    ensures
        ({
            let end = DiscoveryState::initial(cwd, ancestors, parents, markers, names).run(fs);
            match discovered(fs, cwd, ancestors, parents, markers, names) {
                Ok((sources, reference_root)) => {
                    &&& end.phase is Done
                    &&& end.found == sources
                    &&& end.reference_root == reference_root
                },
                Err(failure) => end.phase == (DiscoveryPhase::Failed { failure }),
            }
        }),
{
    let start = DiscoveryState::initial(cwd, ancestors, parents, markers, names);
    lemma_run(start, fs);
    if start.phase is Candidates {
        lemma_enter_directories(start, fs);
    }
}

/// An empty list of markers, like one of which none is found, leaves the working directory alone:
/// nothing else is searched, and references may lead nowhere else.
pub proof fn law_no_root_no_traversal(
    fs: Listing,
    cwd: PathUri,
    ancestors: Seq<PathUri>,
    parents: Seq<PathUri>,
    markers: Seq<Seq<char>>,
    names: Seq<Seq<char>>,
)
    requires
        markers.len() == 0 || project_root(fs, ancestors, markers) == Ok::<
            Option<PathUri>,
            ProbeFailure,
        >(None),
    ensures
        discovered(fs, cwd, ancestors, parents, markers, names) == (match directory_sources(
            fs,
            cwd,
            names,
            0,
        ) {
            Ok(sources) => Ok((sources, cwd)),
            Err(failure) => Err(failure),
        }),
{
    reveal_with_fuel(sources_in, 2);
    if let Ok(sources) = directory_sources(fs, cwd, names, 0) {
        assert(sources + Seq::<AgentsMdSource>::empty() =~= sources);
    }
}

proof fn lemma_up_to_root(chain: Seq<PathUri>, root: PathUri)
    ensures
        up_to_root(chain, root).len() <= chain.len(),
        up_to_root(chain, root) == chain.take(up_to_root(chain, root).len() as int),
        chain.len() > 0 ==> up_to_root(chain, root).len() > 0,
        forall|i: int|
            0 <= i < up_to_root(chain, root).len() - 1 ==> (#[trigger] chain[i]).uri@ != root.uri@,
        (exists|i: int| 0 <= i < chain.len() && (#[trigger] chain[i]).uri@ == root.uri@)
            ==> up_to_root(chain, root).last().uri@ == root.uri@,
    decreases chain.len(),
{
    if chain.len() > 0 {
        let rest = chain.drop_first();
        lemma_up_to_root(rest, root);
        let n = up_to_root(chain, root).len() as int;
        assert(up_to_root(chain, root) =~= chain.take(n)) by {
            if chain[0].uri@ != root.uri@ {
                assert(up_to_root(rest, root) =~= rest.take(n - 1));
            }
        }
        assert forall|i: int| 0 <= i < n - 1 implies (#[trigger] chain[i]).uri@ != root.uri@ by {
            if i > 0 {
                assert(chain[i] == rest[i - 1]);
            }
        }
        if chain[0].uri@ != root.uri@ && exists|i: int|
            0 <= i < chain.len() && (#[trigger] chain[i]).uri@ == root.uri@ {
            let i = choose|i: int| 0 <= i < chain.len() && (#[trigger] chain[i]).uri@ == root.uri@;
            assert(rest[i - 1] == chain[i]);
        }
    }
}

/// The search does not go past the project root: the directories that are searched are the working
/// directory and its nearest parents, from the outermost down to the working directory, and the
/// root stands at the front or nowhere. It does stand there where it is one of those directories.
pub proof fn law_not_past_root(root: PathUri, cwd: PathUri, parents: Seq<PathUri>)
    ensures
        ({
            let directories = directories_from(root, cwd, parents);
            let chain = seq![cwd] + parents;
            &&& 0 < directories.len() <= chain.len()
            &&& directories == chain.take(directories.len() as int).reverse()
            &&& directories.last() == cwd
            &&& forall|i: int|
                0 < i < directories.len() ==> (#[trigger] directories[i]).uri@ != root.uri@
            &&& (exists|i: int| 0 <= i < chain.len() && (#[trigger] chain[i]).uri@ == root.uri@)
                ==> directories[0].uri@ == root.uri@
        }),
{
    let chain = seq![cwd] + parents;
    let directories = directories_from(root, cwd, parents);
    lemma_up_to_root(chain, root);
    assert forall|i: int| 0 < i < directories.len() implies (#[trigger] directories[i]).uri@
        != root.uri@ by {
        assert(directories[i] == chain[directories.len() - 1 - i]);
    }
}

/// The candidate names begin with the override and the usual name. They hold no name twice, the
/// local overlay not at all, and besides the first two exactly the other fallbacks that are not
/// empty.
pub proof fn law_candidate_names(fallbacks: Seq<Seq<char>>)
    ensures
        ({
            let names = candidate_names(fallbacks);
            &&& names.no_duplicates()
            &&& names.len() >= 2
            &&& names[0] == OVERRIDE_AGENTS_MD_FILENAME@
            &&& names[1] == DEFAULT_AGENTS_MD_FILENAME@
            &&& forall|name: Seq<char>|
                #[trigger] names.contains(name) <==> (name == OVERRIDE_AGENTS_MD_FILENAME@ || name
                    == DEFAULT_AGENTS_MD_FILENAME@ || fallbacks.contains(name) && name.len() > 0
                    && name != LOCAL_AGENTS_MD_FILENAME@)
        }),
{
    let first = seq![OVERRIDE_AGENTS_MD_FILENAME@, DEFAULT_AGENTS_MD_FILENAME@];
    lemma_first_names();
    lemma_with_fallbacks(first, fallbacks);
    let names = candidate_names(fallbacks);
    assert(names.take(2) == first);
    assert(names[0] == names.take(2)[0]);
    assert(names[1] == names.take(2)[1]);
    assert forall|name: Seq<char>| #[trigger] names.contains(name) <==> (name
        == OVERRIDE_AGENTS_MD_FILENAME@ || name == DEFAULT_AGENTS_MD_FILENAME@
        || fallbacks.contains(name) && name.len() > 0 && name != LOCAL_AGENTS_MD_FILENAME@) by {
        assert(first[0] == OVERRIDE_AGENTS_MD_FILENAME@);
        assert(first[1] == DEFAULT_AGENTS_MD_FILENAME@);
        assert(first.contains(name) <==> (name == OVERRIDE_AGENTS_MD_FILENAME@ || name
            == DEFAULT_AGENTS_MD_FILENAME@));
    }
}

/// A directory contributes at most two files: at most one of its candidates, and behind it at most
/// its local overlay.
pub proof fn law_directory_sources(fs: Listing, directory: PathUri, names: Seq<Seq<char>>)
    ensures
        directory_sources(fs, directory, names, 0) matches Ok(sources) ==> {
            &&& sources.len() <= 2
            &&& sources.len() == 2 ==> sources[0].source_kind == InstructionSourceKind::Primary
                && sources[1].source_kind == InstructionSourceKind::LocalAddition
            &&& forall|i: int|
                0 <= i < sources.len() ==> (#[trigger] sources[i]).source_kind
                    != InstructionSourceKind::Reference
        },
{
}

/// The override takes the place of every other candidate: where it is a regular file, it is what
/// its directory contributes, and the others are not asked for.
pub proof fn law_override_preferred(
    fs: Listing,
    directory: PathUri,
    fallbacks: Seq<Seq<char>>,
    path: PathUri,
)
    requires
        fs(directory, OVERRIDE_AGENTS_MD_FILENAME@) == (Probe::Found { path, is_file: true }),
    ensures
        primary_file(fs, directory, candidate_names(fallbacks), 0) == Ok::<
            Option<PathUri>,
            ProbeFailure,
        >(Some(path)),
{
    law_candidate_names(fallbacks);
}

proof fn lemma_nearest_marked(
    fs: Listing,
    ancestors: Seq<PathUri>,
    markers: Seq<Seq<char>>,
    a: int,
)
    requires
        0 <= a <= ancestors.len(),
    ensures
        match nearest_marked(fs, ancestors, markers, a) {
            Ok(Some(root)) => exists|i: int|
                a <= i < ancestors.len() && #[trigger] ancestors[i] == root && marked(
                    fs,
                    ancestors[i],
                    markers,
                    0,
                ) == Ok::<bool, ProbeFailure>(true) && forall|j: int|
                    a <= j < i ==> marked(fs, #[trigger] ancestors[j], markers, 0) == Ok::<
                        bool,
                        ProbeFailure,
                    >(false),
            Ok(None) => forall|j: int|
                a <= j < ancestors.len() ==> marked(fs, #[trigger] ancestors[j], markers, 0)
                    == Ok::<bool, ProbeFailure>(false),
            Err(_) => true,
        },
    decreases ancestors.len() - a,
{
    if a < ancestors.len() {
        lemma_nearest_marked(fs, ancestors, markers, a + 1);
        match marked(fs, ancestors[a], markers, 0) {
            Ok(true) => {
                assert(ancestors[a] == ancestors[a]);
            },
            Ok(false) => {
                if let Ok(Some(root)) = nearest_marked(fs, ancestors, markers, a + 1) {
                    let i = choose|i: int|
                        a + 1 <= i < ancestors.len() && #[trigger] ancestors[i] == root && marked(
                            fs,
                            ancestors[i],
                            markers,
                            0,
                        ) == Ok::<bool, ProbeFailure>(true) && forall|j: int|
                            a + 1 <= j < i ==> marked(fs, #[trigger] ancestors[j], markers, 0)
                                == Ok::<bool, ProbeFailure>(false);
                    assert(ancestors[i] == root);
                }
            },
            Err(_) => {},
        }
    }
}

/// The project root is the nearest directory that holds a marker, and there is none only where no
/// directory holds one.
pub proof fn law_root_is_nearest(fs: Listing, ancestors: Seq<PathUri>, markers: Seq<Seq<char>>)
    requires
        markers.len() > 0,
    ensures
        match project_root(fs, ancestors, markers) {
            Ok(Some(root)) => exists|i: int|
                0 <= i < ancestors.len() && #[trigger] ancestors[i] == root && marked(
                    fs,
                    ancestors[i],
                    markers,
                    0,
                ) == Ok::<bool, ProbeFailure>(true) && forall|j: int|
                    0 <= j < i ==> marked(fs, #[trigger] ancestors[j], markers, 0) == Ok::<
                        bool,
                        ProbeFailure,
                    >(false),
            Ok(None) => forall|j: int|
                0 <= j < ancestors.len() ==> marked(fs, #[trigger] ancestors[j], markers, 0)
                    == Ok::<bool, ProbeFailure>(false),
            Err(_) => true,
        },
{
    lemma_nearest_marked(fs, ancestors, markers, 0);
}

/// A directory holds a marker if and only if one of them is there, as long as no answer fails.
pub proof fn law_marked(fs: Listing, directory: PathUri, markers: Seq<Seq<char>>, m: int)
    requires
        0 <= m <= markers.len(),
        forall|i: int|
            m <= i < markers.len() ==> fs(directory, #[trigger] markers[i]).failure() is None,
    ensures
        marked(fs, directory, markers, m) == Ok::<bool, ProbeFailure>(
            exists|i: int|
                m <= i < markers.len() && fs(directory, #[trigger] markers[i]) is Found,
        ),
    decreases markers.len() - m,
{
    if m < markers.len() {
        law_marked(fs, directory, markers, m + 1);
        assert(markers[m] == markers[m]);
    }
}

/// The file that a directory contributes is the first of its candidates that is a regular file.
pub proof fn law_primary_is_first(
    fs: Listing,
    directory: PathUri,
    names: Seq<Seq<char>>,
    n: int,
)
    requires
        0 <= n <= names.len(),
    ensures
        match primary_file(fs, directory, names, n) {
            Ok(Some(path)) => exists|i: int|
                n <= i < names.len() && fs(directory, #[trigger] names[i]) == (Probe::Found {
                    path,
                    is_file: true,
                }) && forall|j: int|
                    n <= j < i ==> !(fs(directory, #[trigger] names[j]) matches Probe::Found {
                        is_file: true,
                        ..
                    }),
            Ok(None) => forall|j: int|
                n <= j < names.len() ==> !(fs(directory, #[trigger] names[j]) matches Probe::Found {
                    is_file: true,
                    ..
                }),
            Err(_) => true,
        },
    decreases names.len() - n,
{
    if n < names.len() {
        law_primary_is_first(fs, directory, names, n + 1);
        assert(names[n] == names[n]);
        if let Ok(Some(path)) = primary_file(fs, directory, names, n + 1) {
            if !(fs(directory, names[n]) matches Probe::Found { is_file: true, .. }) {
                let i = choose|i: int|
                    n + 1 <= i < names.len() && fs(directory, #[trigger] names[i])
                        == (Probe::Found { path, is_file: true }) && forall|j: int|
                        n + 1 <= j < i ==> !(fs(
                            directory,
                            #[trigger] names[j],
                        ) matches Probe::Found { is_file: true, .. });
                assert(names[i] == names[i]);
            }
        }
    }
}

proof fn lemma_fallbacks_in_order(
    names: Seq<Seq<char>>,
    fallbacks: Seq<Seq<char>>,
    i: int,
    j: int,
)
    requires
        names.no_duplicates(),
        !names.contains(LOCAL_AGENTS_MD_FILENAME@),
        !names.contains(Seq::empty()),
        names.len() <= i < j < with_fallbacks(names, fallbacks).len(),
    ensures
        ({
            let all = with_fallbacks(names, fallbacks);
            exists|k: int|
                0 <= k < fallbacks.len() && #[trigger] fallbacks[k] == all[i] && forall|l: int|
                    0 <= l <= k ==> #[trigger] fallbacks[l] != all[j]
        }),
    decreases fallbacks.len(),
{
    let all = with_fallbacks(names, fallbacks);
    lemma_with_fallbacks(names, fallbacks);
    let first = fallbacks[0];
    let rest = fallbacks.drop_first();
    assert(all.contains(all[j]));
    assert(!names.contains(all[j])) by {
        if names.contains(all[j]) {
            let n = choose|n: int| 0 <= n < names.len() && names[n] == all[j];
            assert(all.take(names.len() as int)[n] == all[n]);
        }
    }
    if first.len() == 0 || first == LOCAL_AGENTS_MD_FILENAME@ || names.contains(first) {
        if first.len() == 0 {
            assert(first =~= Seq::empty());
        }
        assert(first != all[j]);
        lemma_fallbacks_in_order(names, rest, i, j);
    } else {
        let more = names.push(first);
        let n = names.len() as int;
        assert forall|name: Seq<char>| #[trigger] more.contains(name) implies names.contains(name)
            || name == first by {}
        assert(first != Seq::<char>::empty());
        lemma_with_fallbacks(more, rest);
        assert(all.take(n + 1)[n] == all[n]);
        assert(all[n] == first);
        if i > n {
            lemma_fallbacks_in_order(more, rest, i, j);
        }
    }
    if exists|k: int|
        0 <= k < rest.len() && #[trigger] rest[k] == all[i] && forall|l: int|
            0 <= l <= k ==> #[trigger] rest[l] != all[j] {
        let k = choose|k: int|
            0 <= k < rest.len() && #[trigger] rest[k] == all[i] && forall|l: int|
                0 <= l <= k ==> #[trigger] rest[l] != all[j];
        assert(fallbacks[k + 1] == all[i]);
        assert forall|l: int| 0 <= l <= k + 1 implies #[trigger] fallbacks[l] != all[j] by {
            if l > 0 {
                assert(rest[l - 1] == fallbacks[l]);
            }
        }
    } else {
        assert(fallbacks[0] == all[i]);
    }
}

/// Behind the first two, the candidate names stand in the order in which the fallbacks name them
/// first: of two of them, the former occurs among the fallbacks before the latter does.
pub proof fn law_fallbacks_in_order(fallbacks: Seq<Seq<char>>, i: int, j: int)
    requires
        2 <= i < j < candidate_names(fallbacks).len(),
    ensures
        ({
            let names = candidate_names(fallbacks);
            exists|k: int|
                0 <= k < fallbacks.len() && #[trigger] fallbacks[k] == names[i] && forall|l: int|
                    0 <= l <= k ==> #[trigger] fallbacks[l] != names[j]
        }),
{
    lemma_first_names();
    lemma_fallbacks_in_order(
        seq![OVERRIDE_AGENTS_MD_FILENAME@, DEFAULT_AGENTS_MD_FILENAME@],
        fallbacks,
        i,
        j,
    );
}

/// A search fails if and only if an answer makes it fail: a name that makes no path, or an error
/// other than that nothing is there. What it fails with is that very answer.
pub proof fn law_failure_is_the_answer(state: DiscoveryState, probe: Probe, failure: ProbeFailure)
    requires
        state.question() is Probe,
    ensures
        state.answered(probe).phase == (DiscoveryPhase::Failed { failure }) <==> probe.failure()
            == Some(failure),
        probe matches Probe::InvalidName { message } ==> state.answered(probe).phase == (
        DiscoveryPhase::Failed { failure: ProbeFailure::InvalidName { message } }),
        probe matches Probe::Failed { error } ==> if error.not_found {
            !(state.answered(probe).phase is Failed)
        } else {
            state.answered(probe).phase == (DiscoveryPhase::Failed {
                failure: ProbeFailure::Io { error },
            })
        },
        probe is Found ==> !(state.answered(probe).phase is Failed),
{
}

impl DiscoveryState {
    /// The state after `n` answers of `fs`, or after all of them where there are fewer.
    pub open spec fn after_answers(self, fs: Listing, n: nat) -> DiscoveryState
        decreases n,
    {
        match self.question() {
            DiscoveryQuestion::Probe { directory, name } if n > 0 => self.answered(
                fs(directory, name),
            ).after_answers(fs, (n - 1) as nat),
            _ => self,
        }
    }

    /// Whether the question that is asked after `n` answers is answered with `failure`.
    pub open spec fn fails_after(self, fs: Listing, n: nat, failure: ProbeFailure) -> bool {
        self.after_answers(fs, n).question() matches DiscoveryQuestion::Probe { directory, name }
            && fs(directory, name).failure() == Some(failure)
    }
}

/// A whole search fails with `failure` if and only if one of its questions is answered with it.
pub proof fn law_search_fails_with_an_answer(
    state: DiscoveryState,
    fs: Listing,
    failure: ProbeFailure,
)
    requires
        state.wf(),
        !(state.phase is Failed),
    ensures
        state.run(fs).phase == (DiscoveryPhase::Failed { failure }) <==> exists|n: nat|
            #[trigger] state.fails_after(fs, n, failure),
    decreases state.stage(), state.places_left(), state.names_left(),
{
    if let DiscoveryQuestion::Probe { directory, name } = state.question() {
        let probe = fs(directory, name);
        let next = state.answered(probe);
        lemma_answer_keeps_outcome(state, fs);
        law_discovery_ends(state, probe);
        assert(state.after_answers(fs, 0) == state);
        assert(state.fails_after(fs, 0, failure) == (probe.failure() == Some(failure)));
        assert forall|n: nat| n > 0 implies #[trigger] state.fails_after(fs, n, failure)
            == next.fails_after(fs, (n - 1) as nat, failure) by {}
        if probe.failure() is None {
            law_search_fails_with_an_answer(next, fs, failure);
            if exists|n: nat| #[trigger] next.fails_after(fs, n, failure) {
                let n = choose|n: nat| #[trigger] next.fails_after(fs, n, failure);
                assert(state.fails_after(fs, (n + 1) as nat, failure));
            }
        } else {
            assert forall|n: nat| !#[trigger] next.fails_after(fs, n, failure) by {}
        }
    } else {
        assert forall|n: nat| !#[trigger] state.fails_after(fs, n, failure) by {}
    }
}

} // verus!
