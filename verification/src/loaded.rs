//! Loaded instructions, and the text that a model sees of them.

use vstd::prelude::*;
use vstd::string::*;
use crate::paths::{AbsolutePathBuf, PathUri};
use crate::text::{all_white_space, is_blank, is_white_space};

verus! {

/// Separates instructions of the user, or internal ones, from those of a project behind them.
pub const AGENTS_MD_SEPARATOR: &'static str = "\n\n--- project-doc ---\n\n";

/// How an instruction file was found.
#[derive(Clone, Copy, Debug, PartialEq, Eq, Structural)]
pub enum InstructionSourceKind {
    /// The first of the candidate files of a directory.
    Primary,
    /// The local overlay of a directory.
    LocalAddition,
    /// Referenced by another instruction file.
    Reference,
}

/// Where instructions come from.
#[derive(Clone, Debug, PartialEq, Eq)]
pub enum InstructionProvenance {
    /// Instructions of a workspace.
    Project {
        /// The instruction file; not the same as the working directory of the environment.
        source_path: PathUri,
        /// How the file was found.
        source_kind: InstructionSourceKind,
        /// The environment that the file was found in.
        environment_id: String,
        /// The working directory of that environment.
        cwd: PathUri,
    },
    /// Instructions that come from no file.
    Internal,
}

/// One instruction that a model sees, and where it comes from.
#[derive(Clone, Debug, PartialEq, Eq)]
pub struct InstructionEntry {
    pub contents: String,
    pub provenance: InstructionProvenance,
}

/// Instructions of the user, which the host provides.
#[derive(Clone, Debug, PartialEq, Eq)]
pub struct UserInstructions {
    pub text: String,
    /// The file that they come from.
    pub source: AbsolutePathBuf,
}

/// The instructions that a model sees: those of the user, and those of instruction files.
#[derive(Clone, Debug, PartialEq, Eq)]
pub struct LoadedAgentsMd {
    pub user_instructions: Option<UserInstructions>,
    /// The instructions of files, in order.
    pub entries: Vec<InstructionEntry>,
}

/// What the message with the instructions consists of: the directory that they hold for, where it
/// is named outside of their text, and the text.
#[derive(Clone, Debug, PartialEq, Eq)]
pub struct ContextUserInstructions {
    pub directory: Option<String>,
    pub text: String,
}

/// How a path is shown: as the path on this system, or else in its own notation.
pub open spec fn shown_path(path: PathUri) -> Seq<char> {
    match path.absolute {
        Some(text) => text@,
        None => path.native@,
    }
}

/// The words before the path in the heading of an instruction file.
pub open spec fn heading_words(kind: InstructionSourceKind) -> Seq<char> {
    match kind {
        InstructionSourceKind::Primary => "Instructions from `"@,
        InstructionSourceKind::LocalAddition => "Local additions from `"@,
        InstructionSourceKind::Reference => "Referenced instructions from `"@,
    }
}

/// The heading of an instruction file.
pub open spec fn heading(path: Seq<char>, kind: InstructionSourceKind) -> Seq<char> {
    heading_words(kind) + path + "`"@
}

impl InstructionProvenance {
    /// The file that the instructions come from.
    pub fn path(&self) -> (r: Option<PathUri>)
        ensures
            r == (match *self {
                InstructionProvenance::Project { source_path, .. } => Some(source_path),
                InstructionProvenance::Internal => None,
            }),
    {
        match self {
            InstructionProvenance::Project { source_path, .. } => Some(source_path.clone()),
            InstructionProvenance::Internal => None,
        }
    }
}

/// The heading of an instruction file that is shown under `path`.
pub fn heading_text(path: &str, kind: InstructionSourceKind) -> (r: String)
    ensures
        r@ == heading(path@, kind),
{
    let mut output = String::new();
    match kind {
        InstructionSourceKind::Primary => output.append("Instructions from `"),
        InstructionSourceKind::LocalAddition => output.append("Local additions from `"),
        InstructionSourceKind::Reference => output.append("Referenced instructions from `"),
    }
    output.append(path);
    output.append("`");
    assert(output@ =~= heading(path@, kind));
    output
}

/// The heading of the instruction file at `source_path`.
pub fn source_heading(source_path: &PathUri, source_kind: InstructionSourceKind) -> (r: String)
    ensures
        r@ == heading(shown_path(*source_path), source_kind),
{
    match &source_path.absolute {
        Some(path) => heading_text(path.as_str(), source_kind),
        None => heading_text(source_path.native.as_str(), source_kind),
    }
}

impl InstructionEntry {
    /// The contents as they are shown: those of a file stand under its heading.
    pub open spec fn rendered(self) -> Seq<char> {
        match self.provenance {
            InstructionProvenance::Project { source_path, source_kind, .. } => heading(
                shown_path(source_path),
                source_kind,
            ) + "\n\n"@ + self.contents@,
            InstructionProvenance::Internal => self.contents@,
        }
    }

    /// The contents as they are shown.
    pub fn rendered_contents(&self) -> (r: String)
        ensures
            r@ == self.rendered(),
    {
        match &self.provenance {
            InstructionProvenance::Project { source_path, source_kind, .. } => {
                let mut output = source_heading(source_path, *source_kind);
                output.append("\n\n");
                output.append(self.contents.as_str());
                output
            },
            InstructionProvenance::Internal => self.contents.clone(),
        }
    }

    /// Whether the instructions come from a file of a project.
    pub open spec fn is_project(self) -> bool {
        self.provenance is Project
    }

    /// The environment that the instructions were found in.
    pub open spec fn environment(self) -> Seq<char>
        recommends
            self.is_project(),
    {
        self.provenance->environment_id@
    }

    /// Whether the instructions of two entries were found in the same environment, with the same
    /// working directory.
    pub open spec fn same_environment(self, other: InstructionEntry) -> bool {
        &&& self.is_project()
        &&& other.is_project()
        &&& self.environment() == other.environment()
        &&& self.provenance->cwd.uri@ == other.provenance->cwd.uri@
    }
}

/// What a loaded set of instructions says of several environments.
pub open spec fn environment_label(environment: Seq<char>, cwd: PathUri) -> Seq<char> {
    "for `"@ + environment + "` with root "@ + cwd.native@ + "\n\n"@
}

impl LoadedAgentsMd {
    /// Whether something is shown before entry `i`.
    pub open spec fn has_previous(self, i: int) -> bool {
        i > 0 || self.user_instructions is Some
    }

    /// The text of the instructions of the user.
    pub open spec fn user_text(self) -> Seq<char> {
        match self.user_instructions {
            Some(instructions) => instructions.text@,
            None => Seq::empty(),
        }
    }

    /// What stands before entry `i`: nothing before the first thing shown, the project separator
    /// where instructions of a project follow others, and an empty line elsewhere.
    pub open spec fn separator_before(self, i: int) -> Seq<char> {
        if !self.has_previous(i) {
            Seq::empty()
        } else if self.entries@[i].is_project() && !(i > 0 && self.entries@[i - 1].is_project()) {
            AGENTS_MD_SEPARATOR@
        } else {
            "\n\n"@
        }
    }

    /// The instructions of the user and the first `n` entries, without labels.
    pub open spec fn plain_text(self, n: int) -> Seq<char>
        decreases n,
    {
        if n <= 0 {
            self.user_text()
        } else {
            self.plain_text(n - 1) + self.separator_before(n - 1) + self.entries@[n - 1].rendered()
        }
    }

    /// The label before entry `i`: it names the environment of the entry, where the entry before
    /// it does not come from the same one.
    pub open spec fn label_before(self, i: int) -> Seq<char> {
        let entry = self.entries@[i];
        if entry.is_project() && !(i > 0 && entry.same_environment(self.entries@[i - 1])) {
            environment_label(entry.environment(), entry.provenance->cwd)
        } else {
            Seq::empty()
        }
    }

    /// The instructions of the user and the first `n` entries, with labels.
    pub open spec fn labeled_text(self, n: int) -> Seq<char>
        decreases n,
    {
        if n <= 0 {
            self.user_text()
        } else {
            let gap = if self.has_previous(n - 1) {
                "\n\n"@
            } else {
                Seq::empty()
            };
            self.labeled_text(n - 1) + gap + self.label_before(n - 1) + self.entries@[n
                - 1].rendered()
        }
    }

    /// Whether entries come from more than one environment.
    pub open spec fn multiple_environments(self) -> bool {
        exists|i: int, j: int|
            0 <= i < self.entries@.len() && 0 <= j < self.entries@.len() && (
            #[trigger] self.entries@[i]).is_project() && (#[trigger] self.entries@[j]).is_project()
                && self.entries@[i].environment() != self.entries@[j].environment()
    }

    /// The text that a model sees.
    pub open spec fn full_text(self) -> Seq<char> {
        if self.multiple_environments() {
            self.labeled_text(self.entries@.len() as int)
        } else {
            self.plain_text(self.entries@.len() as int)
        }
    }

    /// The directory that the instructions hold for, where it is named outside of their text.
    pub open spec fn context_directory(self) -> Option<Seq<char>> {
        if self.multiple_environments() || self.first_project() >= self.entries@.len() {
            None
        } else {
            Some(self.entries@[self.first_project()].provenance->cwd.native@)
        }
    }

    /// Whether there is nothing to show.
    pub open spec fn shows_nothing(self) -> bool {
        &&& self.user_instructions is None
        &&& forall|i: int|
            0 <= i < self.entries@.len() ==> all_white_space(
                (#[trigger] self.entries@[i]).contents@,
            )
    }
}

/// The instructions of the user, if there are any that are not blank.
pub open spec fn kept_user_instructions(
    user_instructions: Option<UserInstructions>,
) -> Option<UserInstructions> {
    match user_instructions {
        Some(instructions) if !all_white_space(instructions.text@) => Some(instructions),
        _ => None,
    }
}

impl Default for LoadedAgentsMd {
    /// No instructions.
    fn default() -> (r: Self)
        ensures
            r.user_instructions is None,
            r.entries@.len() == 0,
    {
        LoadedAgentsMd { user_instructions: None, entries: Vec::new() }
    }
}

impl LoadedAgentsMd {
    /// The instructions of the user in `contents`, from the file at `path`; none where the text is
    /// blank.
    pub fn new_user(contents: String, path: AbsolutePathBuf) -> (r: Self)
        ensures
            r.user_instructions == (if all_white_space(contents@) {
                None
            } else {
                Some(UserInstructions { text: contents, source: path })
            }),
            r.user_instructions == kept_user_instructions(
                Some(UserInstructions { text: contents, source: path }),
            ),
            r.entries@.len() == 0,
    {
        if is_blank(contents.as_str()) {
            return LoadedAgentsMd::default();
        }
        LoadedAgentsMd {
            user_instructions: Some(UserInstructions { text: contents, source: path }),
            entries: Vec::new(),
        }
    }

    /// The given instructions of the user, without those that are blank.
    pub fn from_user_instructions(user_instructions: Option<UserInstructions>) -> (r: Self)
        ensures
            r.user_instructions == kept_user_instructions(user_instructions),
            r.entries@.len() == 0,
    {
        let kept = match user_instructions {
            Some(instructions) => if is_blank(instructions.text.as_str()) {
                None
            } else {
                Some(instructions)
            },
            None => None,
        };
        LoadedAgentsMd { user_instructions: kept, entries: Vec::new() }
    }

    /// Instructions that come from no file, for tests; none where the text is blank.
    pub fn from_text_for_testing(contents: String) -> (r: Self)
        ensures
            r.user_instructions is None,
            r.entries@ == (if all_white_space(contents@) {
                Seq::empty()
            } else {
                seq![InstructionEntry { contents, provenance: InstructionProvenance::Internal }]
            }),
    {
        if is_blank(contents.as_str()) {
            return LoadedAgentsMd::default();
        }
        let mut entries: Vec<InstructionEntry> = Vec::new();
        entries.push(InstructionEntry { contents, provenance: InstructionProvenance::Internal });
        LoadedAgentsMd { user_instructions: None, entries }
    }

    /// Whether there is nothing to show.
    pub fn is_empty(&self) -> (r: bool)
        ensures
            r == self.shows_nothing(),
    {
        if self.user_instructions.is_some() {
            return false;
        }
        for i in 0..self.entries.len()
            invariant
                self.user_instructions is None,
                forall|j: int|
                    0 <= j < i ==> all_white_space((#[trigger] self.entries@[j]).contents@),
        {
            if !is_blank(self.entries[i].contents.as_str()) {
                return false;
            }
        }
        true
    }

    /// The text that a model sees of the instructions.
    pub fn text(&self) -> (r: String)
        ensures
            r@ == self.full_text(),
    {
        if self.has_multiple_project_environments() {
            self.environment_labeled_text()
        } else {
            self.legacy_text()
        }
    }

    /// The text without labels of environments.
    pub fn legacy_text(&self) -> (r: String)
        ensures
            r@ == self.plain_text(self.entries@.len() as int),
    {
        let mut output = String::new();
        let mut has_previous = false;
        let mut previous_was_project = false;
        if let Some(instructions) = &self.user_instructions {
            output.append(instructions.text.as_str());
            has_previous = true;
        }
        assert(output@ =~= self.user_text());
        for i in 0..self.entries.len()
            invariant
                output@ == self.plain_text(i as int),
                has_previous == self.has_previous(i as int),
                previous_was_project == (i > 0 && self.entries@[i - 1].is_project()),
        {
            let entry = &self.entries[i];
            let is_project = match &entry.provenance {
                InstructionProvenance::Project { .. } => true,
                InstructionProvenance::Internal => false,
            };
            if has_previous {
                // The separator tells the model where the instructions of the workspace begin, so
                // it stands only where they follow other instructions.
                if is_project && !previous_was_project {
                    output.append(AGENTS_MD_SEPARATOR);
                } else {
                    output.append("\n\n");
                }
            } else {
                assert(output@ + self.separator_before(i as int) =~= output@);
            }
            output.append(entry.rendered_contents().as_str());
            has_previous = true;
            previous_was_project = is_project;
        }
        output
    }

    /// The text with a label before the instructions of each environment.
    pub fn environment_labeled_text(&self) -> (r: String)
        ensures
            r@ == self.labeled_text(self.entries@.len() as int),
    {
        let mut output = String::new();
        let mut has_previous = false;
        let mut previous_environment: Option<(&String, &PathUri)> = None;
        if let Some(instructions) = &self.user_instructions {
            output.append(instructions.text.as_str());
            has_previous = true;
        }
        assert(output@ =~= self.user_text());
        for i in 0..self.entries.len()
            invariant
                output@ == self.labeled_text(i as int),
                has_previous == self.has_previous(i as int),
                match previous_environment {
                    Some((id, cwd)) => {
                        &&& i > 0
                        &&& self.entries@[i - 1].is_project()
                        &&& *id == self.entries@[i - 1].provenance->environment_id
                        &&& *cwd == self.entries@[i - 1].provenance->cwd
                    },
                    None => i == 0 || !self.entries@[i - 1].is_project(),
                },
        {
            let entry = &self.entries[i];
            let ghost before = output@;
            let ghost gap = if has_previous {
                "\n\n"@
            } else {
                Seq::empty()
            };
            if has_previous {
                output.append("\n\n");
            }
            assert(output@ =~= before + gap);
            match &entry.provenance {
                InstructionProvenance::Project { environment_id, cwd, .. } => {
                    // One environment can contribute several files, from its project root down to
                    // its working directory: one label stands before all of them.
                    let labeled = match previous_environment {
                        Some((id, previous_cwd)) => *id == *environment_id && *previous_cwd == *cwd,
                        None => false,
                    };
                    let ghost unlabeled = output@;
                    if !labeled {
                        output.append("for `");
                        output.append(environment_id.as_str());
                        output.append("` with root ");
                        output.append(cwd.native.as_str());
                        output.append("\n\n");
                        assert(output@ =~= unlabeled + environment_label(environment_id@, *cwd));
                    }
                    assert(output@ =~= unlabeled + self.label_before(i as int));
                    output.append(entry.rendered_contents().as_str());
                    previous_environment = Some((environment_id, cwd));
                },
                InstructionProvenance::Internal => {
                    assert(output@ + self.label_before(i as int) =~= output@);
                    output.append(entry.contents.as_str());
                    previous_environment = None;
                },
            }
            has_previous = true;
        }
        output
    }

    /// The message with the instructions. One contributing environment is named by its working
    /// directory around the text; the text itself labels two or more.
    pub fn context_user_instructions(&self) -> (r: ContextUserInstructions)
        ensures
            r.text@ == self.full_text(),
            match r.directory {
                Some(directory) => Some(directory@),
                None => None,
            } == self.context_directory(),
            match r.directory {
                Some(directory) => {
                    &&& !self.multiple_environments()
                    &&& self.first_project() < self.entries@.len()
                    &&& directory@
                        == self.entries@[self.first_project()].provenance->cwd.native@
                },
                None => self.multiple_environments() || self.first_project()
                    == self.entries@.len(),
            },
    {
        let directory = if self.has_multiple_project_environments() {
            None
        } else {
            match self.single_project_cwd() {
                Some(cwd) => Some(cwd.native.clone()),
                None => None,
            }
        };
        ContextUserInstructions { directory, text: self.text() }
    }

    /// The instructions of the user.
    pub fn user_instructions(&self) -> (r: Option<&UserInstructions>)
        ensures
            r == (match self.user_instructions {
                Some(instructions) => Some(&instructions),
                None => None,
            }),
    {
        self.user_instructions.as_ref()
    }

    /// The files of the first `n` entries, in order.
    pub open spec fn entry_sources(self, n: int) -> Seq<PathUri>
        decreases n,
    {
        if n <= 0 {
            Seq::empty()
        } else {
            match self.entries@[n - 1].provenance {
                InstructionProvenance::Project { source_path, .. } => self.entry_sources(
                    n - 1,
                ).push(source_path),
                InstructionProvenance::Internal => self.entry_sources(n - 1),
            }
        }
    }

    /// The file of the instructions of the user, and those of the entries.
    pub open spec fn all_sources(self) -> Seq<PathUri> {
        let user = match self.user_instructions {
            Some(instructions) => seq![instructions.source.uri],
            None => Seq::empty(),
        };
        user + self.entry_sources(self.entries@.len() as int)
    }

    /// The files that the instructions come from, in order.
    pub fn sources(&self) -> (r: Vec<PathUri>)
        ensures
            r@ == self.all_sources(),
    {
        let mut paths: Vec<PathUri> = Vec::new();
        if let Some(instructions) = &self.user_instructions {
            paths.push(instructions.source.uri.clone());
        }
        let ghost user = paths@;
        assert(user =~= (match self.user_instructions {
            Some(instructions) => seq![instructions.source.uri],
            None => Seq::empty(),
        }));
        assert(paths@ =~= user + self.entry_sources(0));
        for i in 0..self.entries.len()
            invariant
                paths@ == user + self.entry_sources(i as int),
        {
            if let Some(path) = self.entries[i].provenance.path() {
                paths.push(path);
                assert(paths@ =~= user + self.entry_sources(i as int).push(path));
            }
        }
        paths
    }

    /// Whether entries come from more than one environment.
    pub fn has_multiple_project_environments(&self) -> (r: bool)
        ensures
            r == self.multiple_environments(),
    {
        let mut first_environment_id: Option<&String> = None;
        let ghost mut first: int = 0;
        for i in 0..self.entries.len()
            invariant
                match first_environment_id {
                    Some(id) => {
                        &&& 0 <= first < i
                        &&& self.entries@[first].is_project()
                        &&& id@ == self.entries@[first].environment()
                        &&& forall|j: int|
                            0 <= j < i && (#[trigger] self.entries@[j]).is_project()
                                ==> self.entries@[j].environment() == id@
                    },
                    None => forall|j: int|
                        0 <= j < i ==> !(#[trigger] self.entries@[j]).is_project(),
                },
        {
            let provenance = &self.entries[i].provenance;
            if let InstructionProvenance::Project { environment_id, .. } = provenance {
                match first_environment_id {
                    Some(id) => if *id != *environment_id {
                        assert(self.entries@[first].is_project());
                        assert(self.entries@[i as int].is_project());
                        return true;
                    },
                    None => {
                        first_environment_id = Some(environment_id);
                        proof {
                            first = i as int;
                        }
                    },
                }
            }
        }
        false
    }

    /// The first of the entries from `i` on that comes from a project, or the number of entries.
    pub open spec fn first_project_from(self, i: int) -> int
        decreases self.entries@.len() - i,
    {
        if i < 0 || i >= self.entries@.len() {
            self.entries@.len() as int
        } else if self.entries@[i].is_project() {
            i
        } else {
            self.first_project_from(i + 1)
        }
    }

    /// The first entry that comes from a project, or the number of entries.
    pub open spec fn first_project(self) -> int {
        self.first_project_from(0)
    }

    /// The working directory of the first entry that comes from a project.
    pub fn single_project_cwd(&self) -> (r: Option<&PathUri>)
        ensures
            match r {
                Some(cwd) => self.first_project() < self.entries@.len() && *cwd
                    == self.entries@[self.first_project()].provenance->cwd,
                None => self.first_project() == self.entries@.len(),
            },
    {
        for i in 0..self.entries.len()
            invariant
                self.first_project() == self.first_project_from(i as int),
        {
            if let InstructionProvenance::Project { cwd, .. } = &self.entries[i].provenance {
                return Some(cwd);
            }
        }
        None
    }
}

/// The entries that the first `n` environments contribute, in order; one whose files could not be
/// read contributes none.
pub open spec fn contributed_entries(
    docs: Seq<Result<Option<LoadedAgentsMd>, String>>,
    n: int,
) -> Seq<InstructionEntry>
    decreases n,
{
    if n <= 0 {
        Seq::empty()
    } else {
        contributed_entries(docs, n - 1) + (match docs[n - 1] {
            Ok(Some(loaded)) => loaded.entries@,
            _ => Seq::empty(),
        })
    }
}

/// Combines the instructions of the user with those that were read in each environment, in order.
/// An environment whose files could not be read contributes nothing; `None` where there is nothing
/// to show.
pub fn load_project_instructions(
    user_instructions: Option<UserInstructions>,
    docs: Vec<Result<Option<LoadedAgentsMd>, String>>,
) -> (r: Option<LoadedAgentsMd>)
    ensures
        match r {
            Some(loaded) => {
                &&& loaded.user_instructions == kept_user_instructions(user_instructions)
                &&& loaded.entries@ == contributed_entries(docs@, docs@.len() as int)
                &&& !loaded.shows_nothing()
            },
            None => {
                &&& kept_user_instructions(user_instructions) is None
                &&& forall|i: int|
                    0 <= i < contributed_entries(docs@, docs@.len() as int).len()
                        ==> all_white_space(
                        (#[trigger] contributed_entries(docs@, docs@.len() as int)[i]).contents@,
                    )
            },
        },
{
    let mut loaded = LoadedAgentsMd::from_user_instructions(user_instructions);
    assert(loaded.entries@ =~= contributed_entries(docs@, 0));
    let ghost all = docs@;
    for outcome in outcomes: docs
        invariant
            outcomes.seq() == all,
            loaded.user_instructions == kept_user_instructions(user_instructions),
            loaded.entries@ == contributed_entries(all, outcomes.index() as int),
    {
        let ghost before = loaded.entries@;
        match outcome {
            Ok(Some(read)) => {
                let mut entries = read.entries;
                loaded.entries.append(&mut entries);
            },
            _ => {
                assert(before + Seq::<InstructionEntry>::empty() =~= before);
            },
        }
    }
    if loaded.is_empty() {
        None
    } else {
        Some(loaded)
    }
}

/// Instructions of the user alone are shown as they are, and come from their file alone.
pub proof fn law_user_instructions_alone(loaded: LoadedAgentsMd)
    requires
        loaded.entries@.len() == 0,
    ensures
        loaded.full_text() == loaded.user_text(),
        loaded.shows_nothing() <==> loaded.user_instructions is None,
        loaded.user_instructions matches Some(instructions) ==> loaded.all_sources() == seq![
            instructions.source.uri,
        ],
        loaded.user_instructions is None ==> loaded.all_sources().len() == 0,
{
    if let Some(instructions) = loaded.user_instructions {
        assert(loaded.all_sources() =~= seq![instructions.source.uri]);
    }
}

/// One instruction that comes from no file is shown as it is, and names no source.
pub proof fn law_internal_instruction_alone(loaded: LoadedAgentsMd)
    requires
        loaded.user_instructions is None,
        loaded.entries@.len() == 1,
        loaded.entries@[0].provenance is Internal,
    ensures
        loaded.full_text() == loaded.entries@[0].contents@,
        loaded.all_sources().len() == 0,
{
    reveal_with_fuel(LoadedAgentsMd::plain_text, 2);
    reveal_with_fuel(LoadedAgentsMd::entry_sources, 2);
    assert(loaded.full_text() =~= loaded.entries@[0].contents@);
}

/// The instructions of one environment, entries `i` to `j - 1`, stand under one label: it stands
/// before the first of them, and none before the others.
pub proof fn law_one_label_per_group(loaded: LoadedAgentsMd, i: int, j: int)
    requires
        0 <= i < j <= loaded.entries@.len(),
        forall|k: int|
            i <= k < j ==> (#[trigger] loaded.entries@[k]).same_environment(loaded.entries@[i]),
        i > 0 ==> !loaded.entries@[i].same_environment(loaded.entries@[i - 1]),
    ensures
        loaded.label_before(i) == environment_label(
            loaded.entries@[i].environment(),
            loaded.entries@[i].provenance->cwd,
        ),
        forall|k: int| i < k < j ==> (#[trigger] loaded.label_before(k)).len() == 0,
{
    assert forall|k: int| i < k < j implies (#[trigger] loaded.label_before(k)).len() == 0 by {
        assert(loaded.entries@[k].same_environment(loaded.entries@[i]));
        assert(loaded.entries@[k - 1].same_environment(loaded.entries@[i]));
    }
}

/// Instructions of the user are separated from those of a project behind them, in the text of one
/// environment.
pub proof fn law_user_then_project(loaded: LoadedAgentsMd)
    requires
        loaded.user_instructions is Some,
        loaded.entries@.len() > 0,
        loaded.entries@[0].is_project(),
        !loaded.multiple_environments(),
    ensures
        (loaded.user_text() + AGENTS_MD_SEPARATOR@ + loaded.entries@[0].rendered()).is_prefix_of(
            loaded.full_text(),
        ),
{
    reveal_with_fuel(LoadedAgentsMd::plain_text, 2);
    law_text_grows(loaded, 1, loaded.entries@.len() as int);
}

/// The project separator stands at most once in a row of project entries: between two entries of
/// projects there is an empty line.
pub proof fn law_no_separator_within_project(loaded: LoadedAgentsMd, i: int)
    requires
        0 < i < loaded.entries@.len(),
        loaded.entries@[i - 1].is_project(),
    ensures
        loaded.separator_before(i) == "\n\n"@,
{
}

/// The text of more entries goes on where the text of fewer ends: what is shown first stays as it
/// is, with labels and without.
pub proof fn law_text_grows(loaded: LoadedAgentsMd, m: int, n: int)
    requires
        0 <= m <= n <= loaded.entries@.len(),
    ensures
        loaded.plain_text(m).is_prefix_of(loaded.plain_text(n)),
        loaded.labeled_text(m).is_prefix_of(loaded.labeled_text(n)),
    decreases n,
{
    if m < n {
        law_text_grows(loaded, m, n - 1);
    }
}

proof fn lemma_entry_sources(loaded: LoadedAgentsMd, n: int)
    requires
        0 <= n <= loaded.entries@.len(),
    ensures
        forall|path: PathUri|
            #[trigger] loaded.entry_sources(n).contains(path) <==> exists|i: int|
                0 <= i < n && (#[trigger] loaded.entries@[i]).is_project()
                    && loaded.entries@[i].provenance->source_path == path,
    decreases n,
{
    if n > 0 {
        lemma_entry_sources(loaded, n - 1);
        let before = loaded.entry_sources(n - 1);
        let after = loaded.entry_sources(n);
        let last = loaded.entries@[n - 1];
        assert forall|path: PathUri| #[trigger] after.contains(path) <==> exists|i: int|
            0 <= i < n && (#[trigger] loaded.entries@[i]).is_project()
                && loaded.entries@[i].provenance->source_path == path by {
            assert(before.contains(path) ==> after.contains(path)) by {
                if before.contains(path) {
                    let i = choose|i: int| 0 <= i < before.len() && before[i] == path;
                    assert(after[i] == path);
                }
            }
            if last.is_project() {
                assert(after[before.len() as int] == last.provenance->source_path);
            }
            if after.contains(path) && !before.contains(path) {
                let i = choose|i: int| 0 <= i < after.len() && after[i] == path;
                if i < before.len() {
                    assert(before[i] == path);
                }
                assert(loaded.entries@[n - 1].is_project());
            }
        }
    }
}

/// Every file named as a source is the file of the user or that of an entry, and both the file of
/// the user and that of every project entry are named.
pub proof fn law_sources_are_complete(loaded: LoadedAgentsMd, path: PathUri)
    ensures
        loaded.all_sources().contains(path) <==> {
            ||| loaded.user_instructions matches Some(instructions) && instructions.source.uri
                == path
            ||| exists|i: int|
                0 <= i < loaded.entries@.len() && (#[trigger] loaded.entries@[i]).is_project()
                    && loaded.entries@[i].provenance->source_path == path
        },
{
    let n = loaded.entries@.len() as int;
    lemma_entry_sources(loaded, n);
    let tail = loaded.entry_sources(n);
    let all = loaded.all_sources();
    let offset = all.len() - tail.len();
    if tail.contains(path) {
        let i = choose|i: int| 0 <= i < tail.len() && tail[i] == path;
        assert(all[offset + i] == path);
    }
    if let Some(instructions) = loaded.user_instructions {
        assert(all[0] == instructions.source.uri);
    }
    if all.contains(path) {
        let i = choose|i: int| 0 <= i < all.len() && all[i] == path;
        if i >= offset {
            assert(tail[i - offset] == path);
        }
    }
}

/// How an entry is shown, whatever its kind: the instructions of a file stand behind a heading that
/// says how the file was found and names it, and an empty line; others stand alone. All of the
/// contents are shown.
pub proof fn law_entry_is_shown_whole(entry: InstructionEntry)
    ensures
        entry.contents@.is_suffix_of(entry.rendered()),
        entry.provenance is Internal ==> entry.rendered() == entry.contents@,
        entry.provenance matches InstructionProvenance::Project { source_path, source_kind, .. }
            ==> {
            let words = match source_kind {
                InstructionSourceKind::Primary => "Instructions from `"@,
                InstructionSourceKind::LocalAddition => "Local additions from `"@,
                InstructionSourceKind::Reference => "Referenced instructions from `"@,
            };
            let shown = match source_path.absolute {
                Some(path) => path@,
                None => source_path.native@,
            };
            entry.rendered() == words + shown + "`"@ + "\n\n"@ + entry.contents@
        },
{
    let whole = entry.rendered();
    assert(entry.contents@ =~= whole.subrange(
        whole.len() - entry.contents@.len(),
        whole.len() as int,
    ));
}

proof fn lemma_same_beginning(loaded: LoadedAgentsMd, more: LoadedAgentsMd, n: int)
    requires
        more.user_instructions == loaded.user_instructions,
        0 <= n <= loaded.entries@.len() <= more.entries@.len(),
        forall|i: int| 0 <= i < n ==> more.entries@[i] == loaded.entries@[i],
    ensures
        more.plain_text(n) == loaded.plain_text(n),
        more.labeled_text(n) == loaded.labeled_text(n),
        more.entry_sources(n) == loaded.entry_sources(n),
    decreases n,
{
    if n > 0 {
        lemma_same_beginning(loaded, more, n - 1);
        assert(more.entries@[n - 1] == loaded.entries@[n - 1]);
        assert(n > 1 ==> more.entries@[n - 2] == loaded.entries@[n - 2]);
    }
}

/// How the text grows by one entry: what was shown before stays, and the entry follows it. Without
/// labels, the project separator stands between them where a project entry follows another or the
/// instructions of the user, and an empty line elsewhere; with labels, an empty line, and the
/// label of the environment where the entry before is not of the same one. Nothing stands before
/// the first thing shown.
pub proof fn law_text_with_one_more_entry(
    loaded: LoadedAgentsMd,
    more: LoadedAgentsMd,
    entry: InstructionEntry,
)
    requires
        more.user_instructions == loaded.user_instructions,
        more.entries@ == loaded.entries@.push(entry),
    ensures
        ({
            let n = loaded.entries@.len() as int;
            let is_first = n == 0 && loaded.user_instructions is None;
            let after_project = n > 0 && loaded.entries@[n - 1].provenance is Project;
            let separator = if is_first {
                Seq::empty()
            } else if entry.provenance is Project && !after_project {
                "\n\n--- project-doc ---\n\n"@
            } else {
                "\n\n"@
            };
            let gap = if is_first {
                Seq::empty()
            } else {
                "\n\n"@
            };
            let label = match entry.provenance {
                InstructionProvenance::Project { environment_id, cwd, .. } => if n > 0 && (
                loaded.entries@[n - 1].provenance matches InstructionProvenance::Project {
                    environment_id: id,
                    cwd: directory,
                    ..
                } && id@ == environment_id@ && directory.uri@ == cwd.uri@) {
                    Seq::empty()
                } else {
                    "for `"@ + environment_id@ + "` with root "@ + cwd.native@ + "\n\n"@
                },
                InstructionProvenance::Internal => Seq::empty(),
            };
            &&& more.plain_text(n + 1) == loaded.plain_text(n) + separator + entry.rendered()
            &&& more.labeled_text(n + 1) == loaded.labeled_text(n) + gap + label + entry.rendered()
        }),
{
    let n = loaded.entries@.len() as int;
    assert forall|i: int| 0 <= i < n implies more.entries@[i] == loaded.entries@[i] by {}
    lemma_same_beginning(loaded, more, n);
    assert(more.entries@[n] == entry);
    assert(n > 0 ==> more.entries@[n - 1] == loaded.entries@[n - 1]);
}

/// Without entries, the text is that of the user, if there is one.
pub proof fn law_text_without_entries(loaded: LoadedAgentsMd)
    ensures
        loaded.user_instructions matches Some(instructions) ==> loaded.plain_text(0)
            == instructions.text@ && loaded.labeled_text(0) == instructions.text@,
        loaded.user_instructions is None ==> loaded.plain_text(0).len() == 0
            && loaded.labeled_text(0).len() == 0,
{
}

/// The text has labels if and only if two of the entries come from files of different environments.
pub proof fn law_labels_tell_environments_apart(loaded: LoadedAgentsMd, i: int, j: int)
    requires
        0 <= i < loaded.entries@.len(),
        0 <= j < loaded.entries@.len(),
    ensures
        loaded.entries@[i].provenance matches InstructionProvenance::Project {
            environment_id: a,
            ..
        } ==> (loaded.entries@[j].provenance matches InstructionProvenance::Project {
            environment_id: b,
            ..
        } ==> (a@ != b@ ==> loaded.full_text() == loaded.labeled_text(
            loaded.entries@.len() as int,
        ))),
        (forall|k: int, l: int|
            0 <= k < loaded.entries@.len() && 0 <= l < loaded.entries@.len() && (
            #[trigger] loaded.entries@[k]).provenance is Project && (
            #[trigger] loaded.entries@[l]).provenance is Project
                ==> loaded.entries@[k].provenance->environment_id@
                == loaded.entries@[l].provenance->environment_id@) ==> loaded.full_text()
            == loaded.plain_text(loaded.entries@.len() as int),
{
    if loaded.entries@[i].is_project() && loaded.entries@[j].is_project() {
        assert(loaded.entries@[i].environment() != loaded.entries@[j].environment()
            ==> loaded.multiple_environments());
    }
}

/// The contents of every entry stand in the text, all of them.
pub proof fn law_every_entry_is_shown(loaded: LoadedAgentsMd, i: int)
    requires
        0 <= i < loaded.entries@.len(),
    ensures
        exists|before: Seq<char>, after: Seq<char>|
            loaded.full_text() == #[trigger] (before + loaded.entries@[i].contents@ + after),
{
    let n = loaded.entries@.len() as int;
    let entry = loaded.entries@[i];
    let contents = entry.contents@;
    law_entry_is_shown_whole(entry);
    law_text_grows(loaded, i + 1, n);
    let text = loaded.full_text();
    let shown = if loaded.multiple_environments() {
        loaded.labeled_text(i + 1)
    } else {
        loaded.plain_text(i + 1)
    };
    let rendered = entry.rendered();
    let start = shown.len() - rendered.len();
    assert(shown.skip(start) =~= rendered);
    let before = shown.take(shown.len() - contents.len());
    let after = text.skip(shown.len() as int);
    assert(shown =~= before + contents) by {
        assert(shown.skip(shown.len() - contents.len()) =~= rendered.skip(
            rendered.len() - contents.len(),
        ));
        assert(rendered.skip(rendered.len() - contents.len()) =~= contents);
    }
    assert(text.take(shown.len() as int) =~= shown);
    assert(text =~= before + contents + after);
}

/// How the sources grow by one entry: by its file, if it comes from one.
pub proof fn law_sources_with_one_more_entry(
    loaded: LoadedAgentsMd,
    more: LoadedAgentsMd,
    entry: InstructionEntry,
)
    requires
        more.user_instructions == loaded.user_instructions,
        more.entries@ == loaded.entries@.push(entry),
    ensures
        entry.provenance matches InstructionProvenance::Project { source_path, .. }
            ==> more.all_sources() == loaded.all_sources().push(source_path),
        entry.provenance is Internal ==> more.all_sources() == loaded.all_sources(),
{
    let n = loaded.entries@.len() as int;
    assert forall|i: int| 0 <= i < n implies more.entries@[i] == loaded.entries@[i] by {}
    lemma_same_beginning(loaded, more, n);
    assert(more.entries@[n] == entry);
    if let InstructionProvenance::Project { source_path, .. } = entry.provenance {
        assert(more.all_sources() =~= loaded.all_sources().push(source_path));
    } else {
        assert(more.all_sources() =~= loaded.all_sources());
    }
}

proof fn lemma_first_project_from(loaded: LoadedAgentsMd, i: int)
    requires
        0 <= i <= loaded.entries@.len(),
    ensures
        i <= loaded.first_project_from(i) <= loaded.entries@.len(),
        forall|k: int|
            i <= k < loaded.first_project_from(i) ==> (
            #[trigger] loaded.entries@[k]).provenance is Internal,
        loaded.first_project_from(i) < loaded.entries@.len()
            ==> loaded.entries@[loaded.first_project_from(i)].provenance is Project,
    decreases loaded.entries@.len() - i,
{
    if i < loaded.entries@.len() {
        lemma_first_project_from(loaded, i + 1);
    }
}

/// The first entry of a project has none before it; there is none only where no entry comes from
/// a project.
pub proof fn law_first_project(loaded: LoadedAgentsMd)
    ensures
        0 <= loaded.first_project() <= loaded.entries@.len(),
        forall|k: int|
            0 <= k < loaded.first_project() ==> (
            #[trigger] loaded.entries@[k]).provenance is Internal,
        loaded.first_project() < loaded.entries@.len()
            ==> loaded.entries@[loaded.first_project()].provenance is Project,
{
    lemma_first_project_from(loaded, 0);
}

/// There is something to show if and only if there are instructions of the user, or a character in
/// an entry that is not white space.
pub proof fn law_something_to_show(loaded: LoadedAgentsMd)
    ensures
        !loaded.shows_nothing() <==> loaded.user_instructions is Some || exists|i: int, k: int|
            0 <= i < loaded.entries@.len() && 0 <= k < loaded.entries@[i].contents@.len()
                && !is_white_space(#[trigger] loaded.entries@[i].contents@[k]),
{
    if !loaded.shows_nothing() && loaded.user_instructions is None {
        let i = choose|i: int|
            0 <= i < loaded.entries@.len() && !all_white_space(
                (#[trigger] loaded.entries@[i]).contents@,
            );
        let k = choose|k: int|
            0 <= k < loaded.entries@[i].contents@.len() && !is_white_space(
                #[trigger] loaded.entries@[i].contents@[k],
            );
        assert(!is_white_space(loaded.entries@[i].contents@[k]));
    }
}

/// Instructions of the user are kept as they are where they hold a character that is not white
/// space, and not at all where they hold none.
pub proof fn law_user_instructions_are_kept(instructions: UserInstructions, k: int)
    ensures
        0 <= k < instructions.text@.len() && !is_white_space(instructions.text@[k])
            ==> kept_user_instructions(Some(instructions)) == Some(instructions),
        (forall|i: int|
            0 <= i < instructions.text@.len() ==> is_white_space(#[trigger] instructions.text@[i]))
            ==> kept_user_instructions(Some(instructions)) is None,
        kept_user_instructions(None) is None,
{
}

proof fn lemma_contributed_of_first(
    a: Seq<Result<Option<LoadedAgentsMd>, String>>,
    b: Seq<Result<Option<LoadedAgentsMd>, String>>,
    n: int,
)
    requires
        n <= a.len(),
        n <= b.len(),
        forall|i: int| 0 <= i < n ==> a[i] == b[i],
    ensures
        contributed_entries(a, n) == contributed_entries(b, n),
    decreases n,
{
    if n > 0 {
        lemma_contributed_of_first(a, b, n - 1);
    }
}

/// Every environment contributes on its own: the entries of environments behind others follow the
/// entries of the others, whatever those contributed. One whose files were read contributes all of
/// its entries; one without files, or whose files could not be read, contributes none.
pub proof fn law_environments_contribute_on_their_own(
    a: Seq<Result<Option<LoadedAgentsMd>, String>>,
    b: Seq<Result<Option<LoadedAgentsMd>, String>>,
    loaded: LoadedAgentsMd,
    error: String,
)
    ensures
        contributed_entries(a + b, (a + b).len() as int) == contributed_entries(a, a.len() as int)
            + contributed_entries(b, b.len() as int),
        contributed_entries(seq![Ok(Some(loaded))], 1) == loaded.entries@,
        contributed_entries(seq![Ok(None)], 1).len() == 0,
        contributed_entries(seq![Err(error)], 1).len() == 0,
    decreases b.len(),
{
    reveal_with_fuel(contributed_entries, 2);
    assert(Seq::<InstructionEntry>::empty() + loaded.entries@ =~= loaded.entries@);
    if b.len() == 0 {
        assert(a + b =~= a);
        assert(contributed_entries(a, a.len() as int) + Seq::<InstructionEntry>::empty()
            =~= contributed_entries(a, a.len() as int));
    } else {
        let rest = b.drop_last();
        let all = a + b;
        let n = all.len() as int;
        law_environments_contribute_on_their_own(a, rest, loaded, error);
        assert(all.drop_last() =~= a + rest);
        lemma_contributed_of_first(all, a + rest, n - 1);
        lemma_contributed_of_first(b, rest, b.len() - 1);
        assert(all[n - 1] == b[b.len() - 1]);
        let here = match b[b.len() - 1] {
            Ok(Some(loaded)) => loaded.entries@,
            _ => Seq::empty(),
        };
        let first = contributed_entries(a, a.len() as int);
        let second = contributed_entries(rest, rest.len() as int);
        assert((first + second) + here =~= first + (second + here));
    }
}

/// The entries of every environment whose files were read stand in one piece among those of all,
/// behind those of the environments before it and before those of the environments after it.
pub proof fn law_no_environment_is_lost(
    docs: Seq<Result<Option<LoadedAgentsMd>, String>>,
    i: int,
)
    requires
        0 <= i < docs.len(),
    ensures
        docs[i] matches Ok(Some(loaded)) ==> contributed_entries(docs, docs.len() as int)
            == contributed_entries(docs.take(i), i) + loaded.entries@ + contributed_entries(
            docs.skip(i + 1),
            docs.len() - i - 1,
        ),
        !(docs[i] matches Ok(Some(_))) ==> contributed_entries(docs, docs.len() as int)
            == contributed_entries(docs.take(i), i) + contributed_entries(
            docs.skip(i + 1),
            docs.len() - i - 1,
        ),
{
    let a = docs.take(i);
    let one = seq![docs[i]];
    let b = docs.skip(i + 1);
    let (loaded, error) = (arbitrary(), arbitrary());
    assert(docs =~= a + (one + b));
    law_environments_contribute_on_their_own(a, one + b, loaded, error);
    law_environments_contribute_on_their_own(one, b, loaded, error);
    reveal_with_fuel(contributed_entries, 2);
    let first = contributed_entries(a, i);
    let rest = contributed_entries(b, b.len() as int);
    match docs[i] {
        Ok(Some(loaded)) => {
            assert(contributed_entries(one, 1) =~= loaded.entries@);
            assert(first + (loaded.entries@ + rest) =~= first + loaded.entries@ + rest);
        },
        _ => {
            assert(contributed_entries(one, 1) =~= Seq::empty());
            assert(first + (Seq::<InstructionEntry>::empty() + rest) =~= first + rest);
        },
    }
}

/// Entries come from more than one environment if and only if two of them come from files of
/// environments with different names.
pub proof fn law_what_makes_several_environments(loaded: LoadedAgentsMd)
    ensures
        loaded.multiple_environments() <==> exists|i: int, j: int|
            0 <= i < loaded.entries@.len() && 0 <= j < loaded.entries@.len() && (
            #[trigger] loaded.entries@[i]).provenance is Project && (
            #[trigger] loaded.entries@[j]).provenance is Project
                && loaded.entries@[i].provenance->environment_id@
                != loaded.entries@[j].provenance->environment_id@,
{
    if loaded.multiple_environments() {
        let (i, j) = choose|i: int, j: int|
            0 <= i < loaded.entries@.len() && 0 <= j < loaded.entries@.len() && (
            #[trigger] loaded.entries@[i]).is_project() && (
            #[trigger] loaded.entries@[j]).is_project() && loaded.entries@[i].environment()
                != loaded.entries@[j].environment();
        assert(loaded.entries@[i].provenance is Project);
        assert(loaded.entries@[j].provenance is Project);
    }
    assert forall|i: int, j: int|
        0 <= i < loaded.entries@.len() && 0 <= j < loaded.entries@.len() && (
        #[trigger] loaded.entries@[i]).provenance is Project && (
        #[trigger] loaded.entries@[j]).provenance is Project
            && loaded.entries@[i].provenance->environment_id@
            != loaded.entries@[j].provenance->environment_id@ implies
        loaded.multiple_environments() by {
        assert(loaded.entries@[i].is_project());
        assert(loaded.entries@[j].is_project());
    }
}

/// The directory that is named outside of the text is the working directory of the first entry of a
/// project, where all of them come from one environment. It is not named where they come from
/// several, or where there is none.
pub proof fn law_directory_of_one_environment(loaded: LoadedAgentsMd, i: int)
    requires
        0 <= i < loaded.entries@.len(),
        loaded.entries@[i].provenance is Project,
        forall|k: int| 0 <= k < i ==> (#[trigger] loaded.entries@[k]).provenance is Internal,
    ensures
        (forall|k: int|
            0 <= k < loaded.entries@.len() && (#[trigger] loaded.entries@[k]).provenance is Project
                ==> loaded.entries@[k].provenance->environment_id@
                == loaded.entries@[i].provenance->environment_id@) ==> loaded.context_directory()
            == Some(loaded.entries@[i].provenance->cwd.native@),
        (exists|k: int|
            0 <= k < loaded.entries@.len() && (#[trigger] loaded.entries@[k]).provenance is Project
                && loaded.entries@[k].provenance->environment_id@
                != loaded.entries@[i].provenance->environment_id@)
            ==> loaded.context_directory() is None,
{
    law_first_project(loaded);
    assert(loaded.first_project() == i) by {
        if loaded.first_project() < i {
            assert(loaded.entries@[loaded.first_project()].provenance is Internal);
        } else if loaded.first_project() > i {
            assert(loaded.entries@[i].provenance is Internal);
        }
    }
    law_what_makes_several_environments(loaded);
    if exists|k: int|
        0 <= k < loaded.entries@.len() && (#[trigger] loaded.entries@[k]).provenance is Project
            && loaded.entries@[k].provenance->environment_id@
            != loaded.entries@[i].provenance->environment_id@ {
        let k = choose|k: int|
            0 <= k < loaded.entries@.len() && (#[trigger] loaded.entries@[k]).provenance is Project
                && loaded.entries@[k].provenance->environment_id@
                != loaded.entries@[i].provenance->environment_id@;
        assert(loaded.entries@[k].provenance is Project);
        assert(loaded.entries@[i].provenance is Project);
    }
}

/// Without an entry of a project no directory is named.
pub proof fn law_no_project_no_directory(loaded: LoadedAgentsMd)
    requires
        forall|k: int|
            0 <= k < loaded.entries@.len() ==> (#[trigger] loaded.entries@[k]).provenance
                is Internal,
    ensures
        loaded.context_directory() is None,
{
    law_first_project(loaded);
    if loaded.first_project() < loaded.entries@.len() {
        assert(loaded.entries@[loaded.first_project()].provenance is Internal);
    }
}

} // verus!
