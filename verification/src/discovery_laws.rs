//! What a search for instruction files finds, seen from what is in the file system.

use vstd::prelude::*;
use crate::discovery::{
    directories_from, markers_in_force, outer_layers, up_to_root, AgentsMdSource, ConfigLayerSource,
    DiscoveryPhase, DiscoveryState, Probe, ProbeFailure, LOCAL_AGENTS_MD_FILENAME,
};
use crate::discovery_run::{
    directory_sources, law_discovery_finds, law_no_root_no_traversal, law_not_past_root, marked,
    nearest_marked, primary_file, sources_in, Listing,
};
use crate::loaded::InstructionSourceKind;
use crate::paths::PathUri;

verus! {

/// Whether nothing is there.
pub open spec fn is_missing(probe: Probe) -> bool {
    probe matches Probe::Failed { error } && error.not_found
}

/// Whether a regular file is there.
pub open spec fn is_regular_file(probe: Probe) -> bool {
    probe matches Probe::Found { is_file, .. } && is_file
}

/// Whether `ancestors[r]` is the first that holds a marker, and `markers[m]` the first that it
/// holds.
pub open spec fn first_marker_at(
    fs: Listing,
    ancestors: Seq<PathUri>,
    markers: Seq<Seq<char>>,
    r: int,
    m: int,
) -> bool {
    &&& 0 <= r < ancestors.len()
    &&& 0 <= m < markers.len()
    &&& fs(ancestors[r], markers[m]) is Found
    &&& forall|l: int| 0 <= l < m ==> is_missing(fs(ancestors[r], #[trigger] markers[l]))
    &&& forall|j: int, l: int|
        0 <= j < r && 0 <= l < markers.len() ==> is_missing(
            fs(#[trigger] ancestors[j], #[trigger] markers[l]),
        )
}

/// Whether no ancestor holds a marker.
pub open spec fn no_marker(
    fs: Listing,
    ancestors: Seq<PathUri>,
    markers: Seq<Seq<char>>,
) -> bool {
    forall|j: int, l: int|
        0 <= j < ancestors.len() && 0 <= l < markers.len() ==> is_missing(
            fs(#[trigger] ancestors[j], #[trigger] markers[l]),
        )
}

/// What a search in one directory alone ends with.
pub open spec fn search_of_one(
    fs: Listing,
    names: Seq<Seq<char>>,
    directory: PathUri,
) -> DiscoveryState {
    DiscoveryState::initial(directory, Seq::empty(), Seq::empty(), Seq::empty(), names).run(fs)
}

/// What searches in each of the directories of `chain` from `d` down to the first find, one behind
/// the other.
pub open spec fn found_in_each(
    fs: Listing,
    names: Seq<Seq<char>>,
    chain: Seq<PathUri>,
    d: int,
) -> Seq<AgentsMdSource>
    decreases d + 1,
{
    if d < 0 {
        Seq::empty()
    } else {
        search_of_one(fs, names, chain[d]).found + found_in_each(fs, names, chain, d - 1)
    }
}

proof fn lemma_unmarked(fs: Listing, directory: PathUri, markers: Seq<Seq<char>>, m: int)
    requires
        0 <= m,
        forall|l: int| m <= l < markers.len() ==> is_missing(fs(directory, #[trigger] markers[l])),
    ensures
        marked(fs, directory, markers, m) == Ok::<bool, ProbeFailure>(false),
    decreases markers.len() - m,
{
    if m < markers.len() {
        assert(is_missing(fs(directory, markers[m])));
        lemma_unmarked(fs, directory, markers, m + 1);
    }
}

proof fn lemma_marked(fs: Listing, directory: PathUri, markers: Seq<Seq<char>>, k: int, m: int)
    requires
        0 <= k <= m < markers.len(),
        fs(directory, markers[m]) is Found,
        forall|l: int| k <= l < m ==> is_missing(fs(directory, #[trigger] markers[l])),
    ensures
        marked(fs, directory, markers, k) == Ok::<bool, ProbeFailure>(true),
    decreases m - k,
{
    if k < m {
        assert(is_missing(fs(directory, markers[k])));
        lemma_marked(fs, directory, markers, k + 1, m);
    }
}

proof fn lemma_root(
    fs: Listing,
    ancestors: Seq<PathUri>,
    markers: Seq<Seq<char>>,
    r: int,
    m: int,
    a: int,
)
    requires
        first_marker_at(fs, ancestors, markers, r, m),
        0 <= a <= r,
    ensures
        nearest_marked(fs, ancestors, markers, a) == Ok::<Option<PathUri>, ProbeFailure>(
            Some(ancestors[r]),
        ),
    decreases r - a,
{
    if a < r {
        assert forall|l: int| 0 <= l < markers.len() implies is_missing(
            fs(ancestors[a], #[trigger] markers[l]),
        ) by {
            assert(is_missing(fs(ancestors[a], markers[l])));
        }
        lemma_unmarked(fs, ancestors[a], markers, 0);
        lemma_root(fs, ancestors, markers, r, m, a + 1);
    } else {
        lemma_marked(fs, ancestors[r], markers, 0, m);
    }
}

proof fn lemma_no_root(fs: Listing, ancestors: Seq<PathUri>, markers: Seq<Seq<char>>, a: int)
    requires
        no_marker(fs, ancestors, markers),
        0 <= a <= ancestors.len(),
    ensures
        nearest_marked(fs, ancestors, markers, a) == Ok::<Option<PathUri>, ProbeFailure>(None),
    decreases ancestors.len() - a,
{
    if a < ancestors.len() {
        assert forall|l: int| 0 <= l < markers.len() implies is_missing(
            fs(ancestors[a], #[trigger] markers[l]),
        ) by {
            assert(is_missing(fs(ancestors[a], markers[l])));
        }
        lemma_unmarked(fs, ancestors[a], markers, 0);
        lemma_no_root(fs, ancestors, markers, a + 1);
    }
}

proof fn lemma_search_of_one(fs: Listing, names: Seq<Seq<char>>, directory: PathUri)
    requires
        names.len() > 0,
    ensures
        match directory_sources(fs, directory, names, 0) {
            Ok(sources) => search_of_one(fs, names, directory).phase is Done && search_of_one(
                fs,
                names,
                directory,
            ).found == sources,
            Err(failure) => search_of_one(fs, names, directory).phase == (DiscoveryPhase::Failed {
                failure,
            }),
        },
{
    let none = Seq::<PathUri>::empty();
    let no_names = Seq::<Seq<char>>::empty();
    law_discovery_finds(fs, directory, none, none, no_names, names);
    law_no_root_no_traversal(fs, directory, none, none, no_names, names);
}

proof fn lemma_sources_in_each(
    fs: Listing,
    names: Seq<Seq<char>>,
    chain: Seq<PathUri>,
    directories: Seq<PathUri>,
    j: int,
)
    requires
        names.len() > 0,
        0 <= j <= directories.len() <= chain.len(),
        directories == chain.take(directories.len() as int).reverse(),
    ensures
        ({
            let d = directories.len() - 1 - j;
            let all_done = forall|i: int|
                0 <= i <= d ==> search_of_one(fs, names, #[trigger] chain[i]).phase is Done;
            match sources_in(fs, directories, names, j) {
                Ok(sources) => all_done && sources == found_in_each(fs, names, chain, d),
                Err(_) => !all_done,
            }
        }),
    decreases directories.len() - j,
{
    if j < directories.len() {
        let d = directories.len() - 1 - j;
        assert(directories[j] == chain[d]);
        lemma_search_of_one(fs, names, chain[d]);
        lemma_sources_in_each(fs, names, chain, directories, j + 1);
        if directory_sources(fs, directories[j], names, 0) is Ok && sources_in(
            fs,
            directories,
            names,
            j + 1,
        ) is Ok {
            assert forall|i: int| 0 <= i <= d implies search_of_one(
                fs,
                names,
                #[trigger] chain[i],
            ).phase is Done by {}
        } else if directory_sources(fs, directories[j], names, 0) is Err {
            assert(!(search_of_one(fs, names, chain[d]).phase is Done));
        } else {
            let i = choose|i: int|
                0 <= i <= d - 1 && !(search_of_one(fs, names, #[trigger] chain[i]).phase is Done);
            assert(!(search_of_one(fs, names, chain[i]).phase is Done));
        }
    }
}

/// Every directory counts, from the project root down to the working directory: a search whose
/// root is the ancestor that holds the first marker finds what searches in each of those
/// directories alone find, one behind the other, with that of the root first and that of the
/// working directory last, however many there are. It ends well if and only if each of them does.
///
/// `chain` are the working directory and its parents, and `d` is the first of them that is the
/// root, or the last one where none is.
pub proof fn law_every_directory_counts(
    fs: Listing,
    cwd: PathUri,
    ancestors: Seq<PathUri>,
    parents: Seq<PathUri>,
    markers: Seq<Seq<char>>,
    names: Seq<Seq<char>>,
    r: int,
    m: int,
    d: int,
)
    requires
        names.len() > 0,
        first_marker_at(fs, ancestors, markers, r, m),
        ({
            let chain = seq![cwd] + parents;
            &&& 0 <= d < chain.len()
            &&& forall|i: int| 0 <= i < d ==> (#[trigger] chain[i]).uri@ != ancestors[r].uri@
            &&& chain[d].uri@ == ancestors[r].uri@ || d == chain.len() - 1
        }),
    ensures
        ({
            let chain = seq![cwd] + parents;
            let end = DiscoveryState::initial(cwd, ancestors, parents, markers, names).run(fs);
            &&& end.phase is Done <==> forall|i: int|
                0 <= i <= d ==> search_of_one(fs, names, #[trigger] chain[i]).phase is Done
            &&& end.phase is Done ==> end.found == found_in_each(fs, names, chain, d)
                && end.reference_root == ancestors[r]
        }),
{
    let chain = seq![cwd] + parents;
    let root = ancestors[r];
    law_discovery_finds(fs, cwd, ancestors, parents, markers, names);
    lemma_root(fs, ancestors, markers, r, m, 0);
    let directories = directories_from(root, cwd, parents);
    law_not_past_root(root, cwd, parents);
    lemma_directories(root, chain, d);
    assert(directories.len() == d + 1);
    lemma_sources_in_each(fs, names, chain, directories, 0);
}

proof fn lemma_directories(root: PathUri, chain: Seq<PathUri>, d: int)
    requires
        0 <= d < chain.len(),
        forall|i: int| 0 <= i < d ==> (#[trigger] chain[i]).uri@ != root.uri@,
        chain[d].uri@ == root.uri@ || d == chain.len() - 1,
    ensures
        up_to_root(chain, root).len() == d + 1,
    decreases chain.len(),
{
    if d > 0 {
        assert(chain[0].uri@ != root.uri@);
        let rest = chain.drop_first();
        assert forall|i: int| 0 <= i < d - 1 implies (#[trigger] rest[i]).uri@ != root.uri@ by {
            assert(rest[i] == chain[i + 1]);
        }
        assert(rest[d - 1] == chain[d]);
        lemma_directories(root, rest, d - 1);
    } else if chain[0].uri@ != root.uri@ {
        assert(up_to_root(chain.drop_first(), root) =~= Seq::empty());
    }
}

/// Without a marker in any ancestor, or without markers to look for, a search finds what a search
/// in the working directory alone finds, and references may lead nowhere else.
pub proof fn law_no_marker_one_directory(
    fs: Listing,
    cwd: PathUri,
    ancestors: Seq<PathUri>,
    parents: Seq<PathUri>,
    markers: Seq<Seq<char>>,
    names: Seq<Seq<char>>,
)
    requires
        names.len() > 0,
        no_marker(fs, ancestors, markers),
    ensures
        ({
            let end = DiscoveryState::initial(cwd, ancestors, parents, markers, names).run(fs);
            let one = search_of_one(fs, names, cwd);
            &&& end.phase == one.phase
            &&& end.phase is Done ==> end.found == one.found && end.reference_root == cwd
        }),
{
    law_discovery_finds(fs, cwd, ancestors, parents, markers, names);
    lemma_no_root(fs, ancestors, markers, 0);
    law_no_root_no_traversal(fs, cwd, ancestors, parents, markers, names);
    lemma_search_of_one(fs, names, cwd);
}

proof fn lemma_primary_file(
    fs: Listing,
    directory: PathUri,
    names: Seq<Seq<char>>,
    k: int,
    n: int,
)
    requires
        0 <= k <= n <= names.len(),
        forall|j: int| k <= j < n ==> !is_regular_file(fs(directory, #[trigger] names[j])),
        n < names.len() ==> is_regular_file(fs(directory, names[n])),
    ensures
        match primary_file(fs, directory, names, k) {
            Ok(file) => file == (if n < names.len() {
                Some(fs(directory, names[n])->path)
            } else {
                None
            }) && forall|j: int|
                k <= j < n ==> fs(directory, #[trigger] names[j]).failure() is None,
            Err(_) => exists|j: int|
                k <= j < n && fs(directory, #[trigger] names[j]).failure() is Some,
        },
    decreases n - k,
{
    if k < n {
        assert(!is_regular_file(fs(directory, names[k])));
        lemma_primary_file(fs, directory, names, k + 1, n);
        if fs(directory, names[k]).failure() is None {
            if primary_file(fs, directory, names, k) is Err {
                let j = choose|j: int|
                    k + 1 <= j < n && fs(directory, #[trigger] names[j]).failure() is Some;
                assert(fs(directory, names[j]).failure() is Some);
            }
        }
    }
}

/// What one directory contributes: the first of the candidates that is a regular file, and behind
/// it the local overlay, if that is one. `n` is that candidate, or the number of candidates where
/// none is a regular file. The search ends well if and only if no answer on those up to `n`, and
/// on the overlay, makes it fail.
pub proof fn law_what_a_directory_contributes(
    fs: Listing,
    names: Seq<Seq<char>>,
    directory: PathUri,
    n: int,
)
    requires
        names.len() > 0,
        0 <= n <= names.len(),
        forall|j: int| 0 <= j < n ==> !is_regular_file(fs(directory, #[trigger] names[j])),
        n < names.len() ==> is_regular_file(fs(directory, names[n])),
    ensures
        ({
            let end = search_of_one(fs, names, directory);
            let local = fs(directory, LOCAL_AGENTS_MD_FILENAME@);
            let first = AgentsMdSource {
                path: fs(directory, names[n])->path,
                source_kind: InstructionSourceKind::Primary,
            };
            let second = AgentsMdSource {
                path: local->path,
                source_kind: InstructionSourceKind::LocalAddition,
            };
            &&& end.phase is Done <==> local.failure() is None && forall|j: int|
                0 <= j < n ==> fs(directory, #[trigger] names[j]).failure() is None
            &&& end.phase is Done && n < names.len() && is_regular_file(local) ==> end.found
                == seq![first, second]
            &&& end.phase is Done && n < names.len() && !is_regular_file(local) ==> end.found
                == seq![first]
            &&& end.phase is Done && n == names.len() && is_regular_file(local) ==> end.found
                == seq![second]
            &&& end.phase is Done && n == names.len() && !is_regular_file(local)
                ==> end.found.len() == 0
        }),
{
    lemma_search_of_one(fs, names, directory);
    lemma_primary_file(fs, directory, names, 0, n);
    let none = Seq::<AgentsMdSource>::empty();
    let end = search_of_one(fs, names, directory);
    let local = fs(directory, LOCAL_AGENTS_MD_FILENAME@);
    let first = AgentsMdSource {
        path: fs(directory, names[n])->path,
        source_kind: InstructionSourceKind::Primary,
    };
    let second = AgentsMdSource {
        path: local->path,
        source_kind: InstructionSourceKind::LocalAddition,
    };
    assert(seq![first] + seq![second] =~= seq![first, second]);
    assert(seq![first] + none =~= seq![first]);
    assert(none + seq![second] =~= seq![second]);
    assert(none + none =~= none);
    if primary_file(fs, directory, names, 0) is Err {
        let j = choose|j: int| 0 <= j < n && fs(directory, #[trigger] names[j]).failure() is Some;
        assert(fs(directory, names[j]).failure() is Some);
    }
}

proof fn lemma_found_in_each(
    fs: Listing,
    names: Seq<Seq<char>>,
    chain: Seq<PathUri>,
    d: int,
    i: int,
    source: AgentsMdSource,
)
    requires
        0 <= i <= d,
        search_of_one(fs, names, chain[i]).found.contains(source),
    ensures
        found_in_each(fs, names, chain, d).contains(source),
    decreases d,
{
    let here = search_of_one(fs, names, chain[d]).found;
    let rest = found_in_each(fs, names, chain, d - 1);
    let all = found_in_each(fs, names, chain, d);
    if i == d {
        let k = choose|k: int| 0 <= k < here.len() && here[k] == source;
        assert(all[k] == source);
    } else {
        lemma_found_in_each(fs, names, chain, d - 1, i, source);
        let k = choose|k: int| 0 <= k < rest.len() && rest[k] == source;
        assert(all[here.len() + k] == source);
    }
}

/// No directory between the project root and the working directory is passed over: the first
/// candidate that is a regular file in any of them, the root and the working directory included,
/// is among the sources of a search that ends well, and so is its local overlay.
pub proof fn law_no_directory_is_passed_over(
    fs: Listing,
    cwd: PathUri,
    ancestors: Seq<PathUri>,
    parents: Seq<PathUri>,
    markers: Seq<Seq<char>>,
    names: Seq<Seq<char>>,
    r: int,
    m: int,
    d: int,
    i: int,
    n: int,
)
    requires
        names.len() > 0,
        first_marker_at(fs, ancestors, markers, r, m),
        ({
            let chain = seq![cwd] + parents;
            &&& 0 <= i <= d < chain.len()
            &&& forall|j: int| 0 <= j < d ==> (#[trigger] chain[j]).uri@ != ancestors[r].uri@
            &&& chain[d].uri@ == ancestors[r].uri@ || d == chain.len() - 1
            &&& 0 <= n <= names.len()
            &&& forall|j: int| 0 <= j < n ==> !is_regular_file(fs(chain[i], #[trigger] names[j]))
            &&& n < names.len() ==> is_regular_file(fs(chain[i], names[n]))
        }),
    ensures
        ({
            let directory = (seq![cwd] + parents)[i];
            let end = DiscoveryState::initial(cwd, ancestors, parents, markers, names).run(fs);
            let local = fs(directory, LOCAL_AGENTS_MD_FILENAME@);
            &&& end.phase is Done && n < names.len() ==> end.found.contains(
                AgentsMdSource {
                    path: fs(directory, names[n])->path,
                    source_kind: InstructionSourceKind::Primary,
                },
            )
            &&& end.phase is Done && is_regular_file(local) ==> end.found.contains(
                AgentsMdSource {
                    path: local->path,
                    source_kind: InstructionSourceKind::LocalAddition,
                },
            )
        }),
{
    let chain = seq![cwd] + parents;
    let directory = chain[i];
    let end = DiscoveryState::initial(cwd, ancestors, parents, markers, names).run(fs);
    law_every_directory_counts(fs, cwd, ancestors, parents, markers, names, r, m, d);
    law_what_a_directory_contributes(fs, names, directory, n);
    if end.phase is Done {
        assert(search_of_one(fs, names, chain[i]).phase is Done);
        let here = search_of_one(fs, names, directory).found;
        if n < names.len() {
            assert(here.contains(here[0]));
            lemma_found_in_each(fs, names, chain, d, i, here[0]);
        }
        if is_regular_file(fs(directory, LOCAL_AGENTS_MD_FILENAME@)) {
            assert(here.contains(here.last()));
            lemma_found_in_each(fs, names, chain, d, i, here.last());
        }
    }
}

/// Where the root is not among the working directory and its parents, all of them are searched.
pub proof fn law_whole_chain_without_root(root: PathUri, cwd: PathUri, parents: Seq<PathUri>)
    requires
        forall|i: int|
            0 <= i < (seq![cwd] + parents).len() ==> (
            #[trigger] (seq![cwd] + parents)[i]).uri@ != root.uri@,
    ensures
        directories_from(root, cwd, parents) == (seq![cwd] + parents).reverse(),
{
    let chain = seq![cwd] + parents;
    lemma_directories(root, chain, chain.len() - 1);
    law_not_past_root(root, cwd, parents);
    assert(chain.take(chain.len() as int) =~= chain);
}

proof fn lemma_outer_layers(layers: Seq<ConfigLayerSource>, n: int)
    requires
        0 <= n <= layers.len() <= usize::MAX,
    ensures
        forall|k: usize|
            #[trigger] outer_layers(layers, n).contains(k) <==> k < n && layers[k as int]
                == ConfigLayerSource::Other,
        forall|i: int, j: int|
            0 <= i < j < outer_layers(layers, n).len() ==> (#[trigger] outer_layers(layers, n)[i])
                < (#[trigger] outer_layers(layers, n)[j]),
    decreases n,
{
    if n > 0 {
        lemma_outer_layers(layers, n - 1);
        let before = outer_layers(layers, n - 1);
        let after = outer_layers(layers, n);
        if layers[n - 1] == ConfigLayerSource::Other {
            assert(after == before.push((n - 1) as usize));
            assert forall|k: usize| #[trigger] after.contains(k) <==> k < n && layers[k as int]
                == ConfigLayerSource::Other by {
                if before.contains(k) {
                    let i = choose|i: int| 0 <= i < before.len() && before[i] == k;
                    assert(after[i] == k);
                }
                assert(after[before.len() as int] == (n - 1) as usize);
                if after.contains(k) && k != n - 1 {
                    let i = choose|i: int| 0 <= i < after.len() && after[i] == k;
                    assert(before[i] == k);
                }
            }
            assert forall|i: int| 0 <= i < before.len() implies before[i] < n - 1 by {
                assert(before.contains(before[i]));
            }
        }
    }
}

/// The layers that can set the root markers are exactly those that do not come from the project,
/// from the lowest to the highest.
pub proof fn law_outer_layers(layers: Seq<ConfigLayerSource>)
    requires
        layers.len() <= usize::MAX,
    ensures
        forall|k: usize|
            #[trigger] outer_layers(layers, layers.len() as int).contains(k) <==> k < layers.len()
                && layers[k as int] == ConfigLayerSource::Other,
        forall|i: int, j: int|
            0 <= i < j < outer_layers(layers, layers.len() as int).len() ==> (
            #[trigger] outer_layers(layers, layers.len() as int)[i]) < (
            #[trigger] outer_layers(layers, layers.len() as int)[j]),
{
    lemma_outer_layers(layers, layers.len() as int);
}

/// The markers that the configuration sets are the ones that hold, each of them and in order, also
/// where there are none; `.git` alone holds where it sets none or where they cannot be read.
pub proof fn law_configured_markers_hold(
    configured: Result<Option<Vec<String>>, String>,
    i: int,
)
    ensures
        configured matches Ok(Some(markers)) ==> {
            &&& markers_in_force(configured).len() == markers@.len()
            &&& 0 <= i < markers@.len() ==> markers_in_force(configured)[i] == markers@[i]@
        },
        !(configured matches Ok(Some(_))) ==> markers_in_force(configured) == seq![".git"@],
{
}

} // verus!
