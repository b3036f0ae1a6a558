//! Instructions of the user, from files in a home directory.
//!
//! The override is read, or else the usual file, and then the local overlay. A file that is not
//! there, is not a regular file or is blank counts for nothing; one that cannot be read leaves a
//! warning. Of several candidates the first counts that says something.

use vstd::prelude::*;
use vstd::string::*;
use vstd::utf8::*;
use crate::discovery::{
    DEFAULT_AGENTS_MD_FILENAME, LOCAL_AGENTS_MD_FILENAME, OVERRIDE_AGENTS_MD_FILENAME,
};
use crate::errors::FsError;
use crate::loaded::{heading, heading_text, InstructionSourceKind, UserInstructions};
use crate::paths::AbsolutePathBuf;
use crate::stdlib::{from_utf8_lossy, utf8_lossy};
use crate::text::{strings, trim, trimmed};

verus! {

/// Provides the instructions of the user from files in a home directory.
#[derive(Clone, Debug)]
pub struct CodexHomeUserInstructionsProvider {
    pub codex_home: AbsolutePathBuf,
}

/// A file with instructions of the user.
#[derive(Clone, Debug, PartialEq, Eq)]
pub struct InstructionFile {
    pub source: AbsolutePathBuf,
    pub kind: InstructionSourceKind,
    pub contents: String,
}

/// The instructions of the user, if there are any, and what went wrong in reading them.
#[derive(Clone, Debug)]
pub struct LoadedUserInstructions {
    pub instructions: Option<UserInstructions>,
    pub warnings: Vec<String>,
}

/// What is read of a file.
pub struct FileState {
    pub source: AbsolutePathBuf,
    pub kind: InstructionSourceKind,
    pub contents: Seq<char>,
}

impl View for InstructionFile {
    type V = FileState;

    open spec fn view(&self) -> FileState {
        FileState { source: self.source, kind: self.kind, contents: self.contents@ }
    }
}

/// What is read of files.
pub open spec fn file_states(files: Seq<InstructionFile>) -> Seq<FileState> {
    files.map_values(|file: InstructionFile| file@)
}

/// What is read of a file, if one counts.
pub open spec fn file_state(file: Option<InstructionFile>) -> Option<FileState> {
    match file {
        Some(file) => Some(file@),
        None => None,
    }
}

/// A file that counts, if there is one.
pub open spec fn as_files(file: Option<FileState>) -> Seq<FileState> {
    match file {
        Some(file) => seq![file],
        None => Seq::empty(),
    }
}

/// The warning about a file that could not be read.
pub open spec fn warning(path: AbsolutePathBuf, message: Seq<char>) -> Seq<char> {
    "Failed to read global AGENTS.md instructions from `"@ + path.display@ + "`: "@ + message
}

/// The contents of a file under its heading.
pub open spec fn rendered_file(file: FileState) -> Seq<char> {
    heading(file.source.display@, file.kind) + "\n\n"@ + file.contents
}

/// The contents of the first `n` files, each under its heading, with an empty line in between.
pub open spec fn rendered_files(files: Seq<FileState>, n: int) -> Seq<char>
    decreases n,
{
    if n <= 0 {
        Seq::empty()
    } else if n == 1 {
        rendered_file(files[0])
    } else {
        rendered_files(files, n - 1) + "\n\n"@ + rendered_file(files[n - 1])
    }
}

/// What reading wants next from the file system.
#[derive(Clone, Debug, PartialEq, Eq)]
pub enum HomeRequest {
    /// Whether a file is there as a regular file.
    Metadata { name: String },
    /// The contents of a file.
    ReadFile { name: String },
    /// Nothing: everything is read.
    Done,
}

/// What reading wants next from the file system.
pub enum HomeQuestion {
    Metadata { name: Seq<char> },
    ReadFile { name: Seq<char> },
    Done,
}

impl HomeRequest {
    /// What is wanted.
    pub open spec fn question(self) -> HomeQuestion {
        match self {
            HomeRequest::Metadata { name } => HomeQuestion::Metadata { name: name@ },
            HomeRequest::ReadFile { name } => HomeQuestion::ReadFile { name: name@ },
            HomeRequest::Done => HomeQuestion::Done,
        }
    }
}

/// The state of a [`FirstPresent`].
pub struct CandidatesState {
    /// The names that are tried, in order.
    pub candidates: Seq<Seq<char>>,
    /// How the file counts.
    pub kind: InstructionSourceKind,
    /// The candidate that is being looked at.
    pub index: int,
    /// Whether it is known to be a regular file.
    pub reading: bool,
    /// The first candidate that says something, once it is known.
    pub found: Option<FileState>,
    /// What went wrong, in order.
    pub warnings: Seq<Seq<char>>,
}

impl CandidatesState {
    /// The state before the first candidate, with the warnings that there are already.
    pub open spec fn initial(
        candidates: Seq<Seq<char>>,
        kind: InstructionSourceKind,
        warnings: Seq<Seq<char>>,
    ) -> CandidatesState {
        CandidatesState { candidates, kind, index: 0, reading: false, found: None, warnings }
    }

    /// The index is in range.
    pub open spec fn wf(self) -> bool {
        0 <= self.index <= self.candidates.len()
    }

    /// Whether a candidate says something, or none is left.
    pub open spec fn is_done(self) -> bool {
        self.found is Some || self.index >= self.candidates.len()
    }

    /// What reading wants next.
    pub open spec fn question(self) -> HomeQuestion {
        if self.is_done() {
            HomeQuestion::Done
        } else if self.reading {
            HomeQuestion::ReadFile { name: self.candidates[self.index] }
        } else {
            HomeQuestion::Metadata { name: self.candidates[self.index] }
        }
    }

    /// The state after a candidate that counts for nothing.
    pub open spec fn without_file(self) -> CandidatesState {
        CandidatesState { index: self.index + 1, reading: false, ..self }
    }

    /// The state after something that could not be found out about the candidate at `path`: it
    /// leaves a warning, unless there is no such file.
    pub open spec fn after_error(self, path: AbsolutePathBuf, error: FsError) -> CandidatesState {
        if error.not_found {
            self.without_file()
        } else {
            CandidatesState {
                warnings: self.warnings.push(warning(path, error.message@)),
                ..self.without_file()
            }
        }
    }

    /// The state after an answer on whether there is a regular file at `path`.
    pub open spec fn after_metadata(
        self,
        path: AbsolutePathBuf,
        is_file: Result<bool, FsError>,
    ) -> CandidatesState {
        match is_file {
            Ok(true) => CandidatesState { reading: true, ..self },
            Ok(false) => self.without_file(),
            Err(error) => self.after_error(path, error),
        }
    }

    /// The state after the text of the candidate at `path`, of which what stands between white
    /// space counts.
    pub open spec fn after_text(self, path: AbsolutePathBuf, text: Seq<char>) -> CandidatesState {
        if trimmed(text).len() == 0 {
            self.without_file()
        } else {
            CandidatesState {
                reading: false,
                found: Some(
                    FileState { source: path, kind: self.kind, contents: trimmed(text) },
                ),
                ..self
            }
        }
    }

    /// The state after the contents of the candidate at `path`.
    pub open spec fn after_data(
        self,
        path: AbsolutePathBuf,
        data: Result<Seq<u8>, FsError>,
    ) -> CandidatesState {
        match data {
            Ok(data) => self.after_text(path, utf8_lossy(data)),
            Err(error) => self.after_error(path, error),
        }
    }
}

/// Reads the first of several candidates in a home directory that says something, one question at
/// a time.
#[derive(Debug)]
pub struct FirstPresent {
    candidates: Vec<String>,
    kind: InstructionSourceKind,
    index: usize,
    reading: bool,
    found: Option<InstructionFile>,
    warnings: Vec<String>,
}

impl View for FirstPresent {
    type V = CandidatesState;

    closed spec fn view(&self) -> CandidatesState {
        CandidatesState {
            candidates: strings(self.candidates@),
            kind: self.kind,
            index: self.index as int,
            reading: self.reading,
            found: file_state(self.found),
            warnings: strings(self.warnings@),
        }
    }
}

impl FirstPresent {
    fn new(candidates: Vec<String>, kind: InstructionSourceKind, warnings: Vec<String>) -> (r: Self)
        ensures
            r@ == CandidatesState::initial(strings(candidates@), kind, strings(warnings@)),
    {
        FirstPresent { candidates, kind, index: 0, reading: false, found: None, warnings }
    }

    fn is_done(&self) -> (r: bool)
        ensures
            r == self@.is_done(),
    {
        self.found.is_some() || self.index >= self.candidates.len()
    }

    /// What reading wants next.
    pub fn request(&self) -> (r: HomeRequest)
        requires
            self@.wf(),
        ensures
            r.question() == self@.question(),
    {
        if self.is_done() {
            HomeRequest::Done
        } else if self.reading {
            HomeRequest::ReadFile { name: self.candidates[self.index].clone() }
        } else {
            HomeRequest::Metadata { name: self.candidates[self.index].clone() }
        }
    }

    /// Goes on to the next candidate.
    fn skip(&mut self)
        requires
            old(self)@.wf(),
            !old(self)@.is_done(),
        ensures
            final(self)@.wf(),
            final(self)@ == old(self)@.without_file(),
    {
        assert(self.index < self.candidates.len());
        self.index = self.index + 1;
        self.reading = false;
    }

    fn on_error(&mut self, path: &AbsolutePathBuf, error: FsError)
        requires
            old(self)@.wf(),
            !old(self)@.is_done(),
        ensures
            final(self)@.wf(),
            final(self)@ == old(self)@.after_error(*path, error),
    {
        let ghost before = self.warnings@;
        if !error.not_found {
            let mut text = String::new();
            text.append("Failed to read global AGENTS.md instructions from `");
            text.append(path.display.as_str());
            text.append("`: ");
            text.append(error.message.as_str());
            assert(text@ =~= warning(*path, error.message@));
            self.warnings.push(text);
            assert(strings(self.warnings@) =~= strings(before).push(text@));
        }
        self.skip();
    }

    /// Takes the answer on whether the candidate is there as a regular file; `path` is its path.
    pub fn on_metadata(&mut self, path: &AbsolutePathBuf, is_file: Result<bool, FsError>)
        requires
            old(self)@.wf(),
            old(self)@.question() is Metadata,
        ensures
            final(self)@.wf(),
            final(self)@ == old(self)@.after_metadata(*path, is_file),
    {
        match is_file {
            Ok(true) => {
                self.reading = true;
            },
            Ok(false) => self.skip(),
            Err(error) => self.on_error(path, error),
        }
    }

    /// Takes the contents of the candidate; `path` is its path. Of a file that is UTF-8, the text
    /// is taken as it stands.
    pub fn on_data(&mut self, path: &AbsolutePathBuf, data: Result<Vec<u8>, FsError>)
        requires
            old(self)@.wf(),
            old(self)@.question() is ReadFile,
        ensures
            final(self)@.wf(),
            final(self)@ == old(self)@.after_data(
                *path,
                match data {
                    Ok(data) => Ok(data@),
                    Err(error) => Err(error),
                },
            ),
            data matches Ok(data) ==> (valid_utf8(data@) ==> utf8_lossy(data@) == decode_utf8(
                data@,
            )),
    {
        match data {
            Ok(data) => {
                let text = from_utf8_lossy(&data);
                self.on_text(path, text);
            },
            Err(error) => self.on_error(path, error),
        }
    }

    /// Takes the text of the candidate; `path` is its path.
    pub fn on_text(&mut self, path: &AbsolutePathBuf, text: String)
        requires
            old(self)@.wf(),
            old(self)@.question() is ReadFile,
        ensures
            final(self)@.wf(),
            final(self)@ == old(self)@.after_text(*path, text@),
    {
        let kept = trim(text.as_str());
        if kept.is_empty() {
            self.skip();
        } else {
            self.reading = false;
            self.found = Some(
                InstructionFile {
                    source: path.clone(),
                    kind: self.kind,
                    contents: kept.to_owned(),
                },
            );
        }
    }

    /// The first candidate that says something, if there is one, and the warnings.
    pub fn finish(self) -> (r: (Option<InstructionFile>, Vec<String>))
        requires
            self@.is_done(),
        ensures
            file_state(r.0) == self@.found,
            strings(r.1@) == self@.warnings,
    {
        (self.found, self.warnings)
    }
}

/// Which of the files are being read.
#[derive(Clone, Copy, Debug, PartialEq, Eq, Structural)]
pub enum HomePart {
    /// The override, or else the usual file.
    Primary,
    /// The local overlay.
    Local,
    /// None: everything is read.
    Done,
}

/// The state of a [`HomeLoad`].
pub struct HomeState {
    /// Which of the files are being read.
    pub part: HomePart,
    /// How far reading of them has come, with all warnings so far.
    pub current: CandidatesState,
    /// The files that count, in order.
    pub selected: Seq<FileState>,
}

/// The candidates for the file that the local overlay is added to.
pub open spec fn primary_candidates() -> Seq<Seq<char>> {
    seq![OVERRIDE_AGENTS_MD_FILENAME@, DEFAULT_AGENTS_MD_FILENAME@]
}

/// The one candidate for the local overlay.
pub open spec fn local_candidates() -> Seq<Seq<char>> {
    seq![LOCAL_AGENTS_MD_FILENAME@]
}

impl HomeState {
    /// The state before the first file.
    pub open spec fn initial() -> HomeState {
        HomeState {
            part: HomePart::Primary,
            current: CandidatesState::initial(
                primary_candidates(),
                InstructionSourceKind::Primary,
                Seq::empty(),
            ),
            selected: Seq::empty(),
        }
    }

    /// There is something to read in every part but the last.
    pub open spec fn wf(self) -> bool {
        self.current.wf() && (self.current.is_done() <==> self.part == HomePart::Done)
    }

    /// What reading wants next.
    pub open spec fn question(self) -> HomeQuestion {
        self.current.question()
    }

    /// The state with what came of the files that are being read.
    pub open spec fn with_current(self, current: CandidatesState) -> HomeState {
        HomeState { current, ..self }
    }

    /// The state at the next part, where nothing is left to read in this one.
    pub open spec fn settled(self) -> HomeState {
        if !self.current.is_done() {
            self
        } else {
            let selected = self.selected + as_files(self.current.found);
            match self.part {
                HomePart::Primary => HomeState {
                    part: HomePart::Local,
                    current: CandidatesState::initial(
                        local_candidates(),
                        InstructionSourceKind::LocalAddition,
                        self.current.warnings,
                    ),
                    selected,
                },
                _ => HomeState {
                    part: HomePart::Done,
                    current: CandidatesState::initial(
                        Seq::empty(),
                        InstructionSourceKind::LocalAddition,
                        self.current.warnings,
                    ),
                    selected,
                },
            }
        }
    }
}

/// Reads the instructions of the user from a home directory, one question at a time.
#[derive(Debug)]
pub struct HomeLoad {
    part: HomePart,
    current: FirstPresent,
    selected: Vec<InstructionFile>,
}

impl View for HomeLoad {
    type V = HomeState;

    closed spec fn view(&self) -> HomeState {
        HomeState {
            part: self.part,
            current: self.current@,
            selected: file_states(self.selected@),
        }
    }
}

impl CodexHomeUserInstructionsProvider {
    /// A provider for the home directory `codex_home`.
    pub fn new(codex_home: AbsolutePathBuf) -> (r: Self)
        ensures
            r.codex_home == codex_home,
    {
        CodexHomeUserInstructionsProvider { codex_home }
    }

    /// Begins to read the instructions of the user.
    pub fn load_from_codex_home(&self) -> (r: HomeLoad)
        ensures
            r@.wf(),
            r@ == HomeState::initial(),
    {
        let mut candidates: Vec<String> = Vec::new();
        candidates.push(OVERRIDE_AGENTS_MD_FILENAME.to_owned());
        candidates.push(DEFAULT_AGENTS_MD_FILENAME.to_owned());
        assert(strings(candidates@) =~= primary_candidates());
        let warnings: Vec<String> = Vec::new();
        assert(strings(warnings@) =~= Seq::empty());
        let current = self.read_first_present(candidates, InstructionSourceKind::Primary, warnings);
        let selected: Vec<InstructionFile> = Vec::new();
        assert(file_states(selected@) =~= Seq::empty());
        HomeLoad { part: HomePart::Primary, current, selected }
    }

    /// Begins to read the first of `candidates` that says something; `warnings` are the warnings
    /// that there are already.
    pub fn read_first_present(
        &self,
        candidates: Vec<String>,
        kind: InstructionSourceKind,
        warnings: Vec<String>,
    ) -> (r: FirstPresent)
        ensures
            r@.wf(),
            r@ == CandidatesState::initial(strings(candidates@), kind, strings(warnings@)),
    {
        FirstPresent::new(candidates, kind, warnings)
    }
}

/// The contents of a file under its heading.
pub fn render_instruction_file(file: &InstructionFile) -> (r: String)
    ensures
        r@ == rendered_file(file@),
{
    let mut output = heading_text(file.source.display.as_str(), file.kind);
    output.append("\n\n");
    output.append(file.contents.as_str());
    output
}

impl HomeLoad {
    /// What reading wants next.
    pub fn request(&self) -> (r: HomeRequest)
        requires
            self@.wf(),
        ensures
            r.question() == self@.question(),
    {
        self.current.request()
    }

    /// Goes on to the next part, where nothing is left to read in this one.
    fn settle(&mut self)
        requires
            old(self)@.current.wf(),
            old(self)@.part != HomePart::Done,
        ensures
            final(self)@.wf(),
            final(self)@ == old(self)@.settled(),
    {
        if !self.current.is_done() {
            return ;
        }
        let mut done = FirstPresent::new(
            Vec::new(),
            InstructionSourceKind::LocalAddition,
            Vec::new(),
        );
        std::mem::swap(&mut done, &mut self.current);
        let (found, warnings) = done.finish();
        let ghost selected = self.selected@;
        match found {
            Some(file) => {
                self.selected.push(file);
                assert(file_states(self.selected@) =~= file_states(selected) + seq![file@]);
            },
            None => {
                assert(file_states(selected) + Seq::<FileState>::empty() =~= file_states(selected));
            },
        }
        let mut candidates: Vec<String> = Vec::new();
        match self.part {
            HomePart::Primary => {
                candidates.push(LOCAL_AGENTS_MD_FILENAME.to_owned());
                assert(strings(candidates@) =~= local_candidates());
                self.part = HomePart::Local;
            },
            _ => {
                assert(strings(candidates@) =~= Seq::empty());
                self.part = HomePart::Done;
            },
        }
        self.current = FirstPresent::new(
            candidates,
            InstructionSourceKind::LocalAddition,
            warnings,
        );
    }

    /// Takes the answer on whether the file is there as a regular file; `path` is its path.
    pub fn on_metadata(&mut self, path: &AbsolutePathBuf, is_file: Result<bool, FsError>)
        requires
            old(self)@.wf(),
            old(self)@.question() is Metadata,
        ensures
            final(self)@.wf(),
            final(self)@ == old(self)@.with_current(
                old(self)@.current.after_metadata(*path, is_file),
            ).settled(),
    {
        self.current.on_metadata(path, is_file);
        self.settle();
    }

    /// Takes the contents of the file; `path` is its path. Of a file that is UTF-8, the text is
    /// taken as it stands.
    pub fn on_data(&mut self, path: &AbsolutePathBuf, data: Result<Vec<u8>, FsError>)
        requires
            old(self)@.wf(),
            old(self)@.question() is ReadFile,
        ensures
            final(self)@.wf(),
            final(self)@ == old(self)@.with_current(
                old(self)@.current.after_data(
                    *path,
                    match data {
                        Ok(data) => Ok(data@),
                        Err(error) => Err(error),
                    },
                ),
            ).settled(),
            data matches Ok(data) ==> (valid_utf8(data@) ==> utf8_lossy(data@) == decode_utf8(
                data@,
            )),
    {
        self.current.on_data(path, data);
        self.settle();
    }

    /// Takes the text of the file; `path` is its path.
    pub fn on_text(&mut self, path: &AbsolutePathBuf, text: String)
        requires
            old(self)@.wf(),
            old(self)@.question() is ReadFile,
        ensures
            final(self)@.wf(),
            final(self)@ == old(self)@.with_current(
                old(self)@.current.after_text(*path, text@),
            ).settled(),
    {
        self.current.on_text(path, text);
        self.settle();
    }

    /// The instructions of the user: the contents of the files that count, with the first of them
    /// as their source; and the warnings.
    pub fn finish(self) -> (r: LoadedUserInstructions)
        requires
            self@.wf(),
            self@.question() is Done,
        ensures
            strings(r.warnings@) == self@.current.warnings,
            match r.instructions {
                Some(instructions) => {
                    &&& self@.selected.len() > 0
                    &&& instructions.text@ == rendered_files(
                        self@.selected,
                        self@.selected.len() as int,
                    )
                    &&& instructions.source == self@.selected[0].source
                },
                None => self@.selected.len() == 0,
            },
    {
        let ghost files = file_states(self.selected@);
        let (_, warnings) = self.current.finish();
        if self.selected.is_empty() {
            return LoadedUserInstructions { instructions: None, warnings };
        }
        let source = self.selected[0].source.clone();
        let mut text = render_instruction_file(&self.selected[0]);
        for i in 1..self.selected.len()
            invariant
                files == file_states(self.selected@),
                text@ == rendered_files(files, i as int),
        {
            text.append("\n\n");
            text.append(render_instruction_file(&self.selected[i]).as_str());
        }
        LoadedUserInstructions { instructions: Some(UserInstructions { text, source }), warnings }
    }
}

/// A home directory that does not change.
pub struct HomeDirectory {
    /// The path of a file.
    pub path: spec_fn(Seq<char>) -> AbsolutePathBuf,
    /// Whether a file is there as a regular file.
    pub metadata: spec_fn(Seq<char>) -> Result<bool, FsError>,
    /// The contents of a file.
    pub read: spec_fn(Seq<char>) -> Result<Seq<u8>, FsError>,
}

/// What comes of a file.
pub enum FileOutcome {
    /// Something to say.
    Text { contents: Seq<char> },
    /// Nothing.
    Nothing,
    /// It could not be read.
    Unreadable { message: Seq<char> },
}

impl HomeDirectory {
    /// What comes of something that could not be found out.
    pub open spec fn error_outcome(error: FsError) -> FileOutcome {
        if error.not_found {
            FileOutcome::Nothing
        } else {
            FileOutcome::Unreadable { message: error.message@ }
        }
    }

    /// What comes of a file.
    pub open spec fn outcome(self, name: Seq<char>) -> FileOutcome {
        match (self.metadata)(name) {
            Err(error) => Self::error_outcome(error),
            Ok(false) => FileOutcome::Nothing,
            Ok(true) => match (self.read)(name) {
                Err(error) => Self::error_outcome(error),
                Ok(data) => if trimmed(utf8_lossy(data)).len() == 0 {
                    FileOutcome::Nothing
                } else {
                    FileOutcome::Text { contents: trimmed(utf8_lossy(data)) }
                },
            },
        }
    }

    /// What is read of a file, if it says something.
    pub open spec fn file(self, name: Seq<char>, kind: InstructionSourceKind) -> Option<FileState> {
        match self.outcome(name) {
            FileOutcome::Text { contents } => Some(
                FileState { source: (self.path)(name), kind, contents },
            ),
            _ => None,
        }
    }

    /// What a file adds to the warnings.
    pub open spec fn warnings(self, name: Seq<char>) -> Seq<Seq<char>> {
        match self.outcome(name) {
            FileOutcome::Unreadable { message } => seq![warning((self.path)(name), message)],
            _ => Seq::empty(),
        }
    }

    /// The first of the candidates from `k` on that says something, or the number of candidates.
    pub open spec fn first_from(self, candidates: Seq<Seq<char>>, k: int) -> int
        decreases candidates.len() - k,
    {
        if k < 0 || k >= candidates.len() {
            candidates.len() as int
        } else if self.outcome(candidates[k]) is Text {
            k
        } else {
            self.first_from(candidates, k + 1)
        }
    }

    /// What the candidates from `from` to before `to` add to the warnings, in order.
    pub open spec fn warnings_between(
        self,
        candidates: Seq<Seq<char>>,
        from: int,
        to: int,
    ) -> Seq<Seq<char>>
        decreases to - from,
    {
        if from >= to {
            Seq::empty()
        } else {
            self.warnings(candidates[from]) + self.warnings_between(candidates, from + 1, to)
        }
    }

    /// What is read of the first candidate that says something.
    pub open spec fn first_present(
        self,
        candidates: Seq<Seq<char>>,
        kind: InstructionSourceKind,
    ) -> Option<FileState> {
        let k = self.first_from(candidates, 0);
        if k < candidates.len() {
            self.file(candidates[k], kind)
        } else {
            None
        }
    }

    /// What the candidates up to and with the first that says something add to the warnings.
    pub open spec fn warnings_of(self, candidates: Seq<Seq<char>>) -> Seq<Seq<char>> {
        let k = self.first_from(candidates, 0);
        self.warnings_between(
            candidates,
            0,
            if k < candidates.len() {
                k + 1
            } else {
                k
            },
        )
    }

    /// The home directory, except that `name` is another file there.
    pub open spec fn with_file(
        self,
        name: Seq<char>,
        is_file: Result<bool, FsError>,
        data: Result<Seq<u8>, FsError>,
    ) -> HomeDirectory {
        HomeDirectory {
            path: self.path,
            metadata: |asked: Seq<char>|
                if asked == name {
                    is_file
                } else {
                    (self.metadata)(asked)
                },
            read: |asked: Seq<char>|
                if asked == name {
                    data
                } else {
                    (self.read)(asked)
                },
        }
    }
}

impl CandidatesState {
    /// The state after the answer to the last question.
    pub open spec fn answered(self, home: HomeDirectory) -> CandidatesState {
        match self.question() {
            HomeQuestion::Metadata { name } => self.after_metadata(
                (home.path)(name),
                (home.metadata)(name),
            ),
            HomeQuestion::ReadFile { name } => self.after_data(
                (home.path)(name),
                (home.read)(name),
            ),
            HomeQuestion::Done => self,
        }
    }

    /// How many questions are left at most.
    pub open spec fn questions_left(self) -> int {
        if self.is_done() {
            0
        } else if self.reading {
            2 * (self.candidates.len() - self.index) - 1
        } else {
            2 * (self.candidates.len() - self.index)
        }
    }

    /// The state once all questions are answered by `home`.
    pub open spec fn run(self, home: HomeDirectory) -> CandidatesState
        decreases self.questions_left(),
    {
        if self.is_done() {
            self
        } else {
            self.answered(home).run(home)
        }
    }
}

/// Running from the check of a candidate on deals with it first.
proof fn lemma_run_candidate(state: CandidatesState, home: HomeDirectory)
    requires
        state.question() is Metadata,
    ensures
        ({
            let name = state.candidates[state.index];
            let warned = state.warnings + home.warnings(name);
            state.run(home) == (match home.file(name, state.kind) {
                Some(file) => CandidatesState { found: Some(file), warnings: warned, ..state },
                None => CandidatesState { index: state.index + 1, warnings: warned, ..state },
            }).run(home)
        }),
{
    let name = state.candidates[state.index];
    reveal_with_fuel(CandidatesState::run, 3);
    assert(state.warnings + Seq::<Seq<char>>::empty() =~= state.warnings);
    if let FileOutcome::Unreadable { message } = home.outcome(name) {
        assert(state.warnings.push(warning((home.path)(name), message)) =~= state.warnings
            + home.warnings(name));
    }
    let next = match home.file(name, state.kind) {
        Some(file) => CandidatesState {
            found: Some(file),
            warnings: state.warnings + home.warnings(name),
            ..state
        },
        None => CandidatesState {
            index: state.index + 1,
            warnings: state.warnings + home.warnings(name),
            ..state
        },
    };
    let s1 = state.answered(home);
    if s1.reading {
        assert(s1.answered(home) == next);
        assert(s1.run(home) == next.run(home));
    } else {
        assert(s1 == next);
    }
}

proof fn lemma_run_candidates(state: CandidatesState, home: HomeDirectory)
    requires
        state.wf(),
        !state.reading,
        state.found is None,
    ensures
        ({
            let n = state.candidates.len() as int;
            let k = home.first_from(state.candidates, state.index);
            let last = if k < n {
                k + 1
            } else {
                k
            };
            &&& state.index <= k <= n
            &&& state.run(home) == (CandidatesState {
                index: k,
                found: if k < n {
                    home.file(state.candidates[k], state.kind)
                } else {
                    None
                },
                warnings: state.warnings + home.warnings_between(
                    state.candidates,
                    state.index,
                    last,
                ),
                ..state
            })
        }),
    decreases state.candidates.len() - state.index,
{
    let n = state.candidates.len() as int;
    if state.index < n {
        lemma_run_candidate(state, home);
        let name = state.candidates[state.index];
        let here = home.warnings(name);
        let warned = state.warnings + here;
        if home.outcome(name) is Text {
            assert(home.warnings_between(state.candidates, state.index + 1, state.index + 1)
                =~= Seq::empty());
            assert(home.warnings_between(state.candidates, state.index, state.index + 1) =~= here);
        } else {
            let next = CandidatesState { index: state.index + 1, warnings: warned, ..state };
            lemma_run_candidates(next, home);
            let k = home.first_from(state.candidates, state.index + 1);
            let last = if k < n {
                k + 1
            } else {
                k
            };
            let rest = home.warnings_between(state.candidates, state.index + 1, last);
            assert(warned + rest =~= state.warnings + (here + rest));
        }
    } else {
        assert(state.warnings + Seq::<Seq<char>>::empty() =~= state.warnings);
    }
}

/// Of any list of candidates, the first that says something counts, and none where no candidate
/// does. The warnings about it and those before it follow the warnings that were there already:
/// one that cannot be read is warned about and passed over, and reading stops at the first that
/// says something.
pub proof fn law_first_present_counts(
    home: HomeDirectory,
    candidates: Seq<Seq<char>>,
    kind: InstructionSourceKind,
    warnings: Seq<Seq<char>>,
)
    ensures
        ({
            let end = CandidatesState::initial(candidates, kind, warnings).run(home);
            &&& end.is_done()
            &&& end.found == home.first_present(candidates, kind)
            &&& end.warnings == warnings + home.warnings_of(candidates)
            &&& end.index == home.first_from(candidates, 0)
        }),
{
    lemma_run_candidates(CandidatesState::initial(candidates, kind, warnings), home);
    law_first_is_least(home, candidates, 0);
}

/// The first candidate that says something is the one with none before it; there is none only
/// where no candidate says anything.
pub proof fn law_first_is_least(home: HomeDirectory, candidates: Seq<Seq<char>>, k: int)
    requires
        0 <= k <= candidates.len(),
    ensures
        k <= home.first_from(candidates, k) <= candidates.len(),
        home.first_from(candidates, k) < candidates.len() ==> home.outcome(
            candidates[home.first_from(candidates, k)],
        ) is Text,
        forall|j: int|
            k <= j < home.first_from(candidates, k) ==> !(home.outcome(
                #[trigger] candidates[j],
            ) is Text),
    decreases candidates.len() - k,
{
    if k < candidates.len() {
        law_first_is_least(home, candidates, k + 1);
    }
}

proof fn lemma_same_warnings(
    home: HomeDirectory,
    other: HomeDirectory,
    candidates: Seq<Seq<char>>,
    from: int,
    to: int,
)
    requires
        0 <= from,
        forall|j: int|
            from <= j < to ==> home.warnings(#[trigger] candidates[j]) == other.warnings(
                candidates[j],
            ),
    ensures
        home.warnings_between(candidates, from, to) == other.warnings_between(candidates, from, to),
    decreases to - from,
{
    if from < to {
        assert(home.warnings(candidates[from]) == other.warnings(candidates[from]));
        lemma_same_warnings(home, other, candidates, from + 1, to);
    }
}

proof fn lemma_same_first(
    home: HomeDirectory,
    other: HomeDirectory,
    candidates: Seq<Seq<char>>,
    k: int,
)
    requires
        0 <= k <= candidates.len(),
        home.first_from(candidates, k) < candidates.len(),
        forall|j: int|
            k <= j <= home.first_from(candidates, k) ==> home.outcome(#[trigger] candidates[j])
                == other.outcome(candidates[j]),
    ensures
        other.first_from(candidates, k) == home.first_from(candidates, k),
    decreases candidates.len() - k,
{
    if k < candidates.len() {
        law_first_is_least(home, candidates, k);
        assert(home.outcome(candidates[k]) == other.outcome(candidates[k]));
        if !(home.outcome(candidates[k]) is Text) {
            lemma_same_first(home, other, candidates, k + 1);
        }
    }
}

/// A candidate behind the first that says something is not read: whatever is there, the same file
/// counts, with the same warnings.
pub proof fn law_later_candidates_are_not_read(
    home: HomeDirectory,
    candidates: Seq<Seq<char>>,
    kind: InstructionSourceKind,
    warnings: Seq<Seq<char>>,
    name: Seq<char>,
    is_file: Result<bool, FsError>,
    data: Result<Seq<u8>, FsError>,
)
    requires
        home.first_from(candidates, 0) < candidates.len(),
        forall|j: int|
            0 <= j <= home.first_from(candidates, 0) ==> #[trigger] candidates[j] != name,
    ensures
        CandidatesState::initial(candidates, kind, warnings).run(
            home.with_file(name, is_file, data),
        ) == CandidatesState::initial(candidates, kind, warnings).run(home),
{
    let other = home.with_file(name, is_file, data);
    let start = CandidatesState::initial(candidates, kind, warnings);
    let k = home.first_from(candidates, 0);
    law_first_is_least(home, candidates, 0);
    assert forall|j: int| 0 <= j <= k implies home.outcome(#[trigger] candidates[j])
        == other.outcome(candidates[j]) by {}
    lemma_same_first(home, other, candidates, 0);
    lemma_same_warnings(home, other, candidates, 0, k + 1);
    lemma_run_candidates(start, home);
    lemma_run_candidates(start, other);
    assert(home.outcome(candidates[k]) == other.outcome(candidates[k]));
}

impl HomePart {
    /// How many parts are left.
    pub open spec fn parts_left(self) -> nat {
        match self {
            HomePart::Primary => 2,
            HomePart::Local => 1,
            HomePart::Done => 0,
        }
    }
}

impl HomeState {
    /// The state after the answer to the last question.
    pub open spec fn answered(self, home: HomeDirectory) -> HomeState {
        self.with_current(self.current.answered(home)).settled()
    }

    /// The state once all questions are answered by `home`.
    pub open spec fn run(self, home: HomeDirectory) -> HomeState
        decreases self.part.parts_left(), self.current.questions_left(),
    {
        if self.part == HomePart::Done || self.current.is_done() {
            self
        } else {
            self.answered(home).run(home)
        }
    }
}

/// Running deals with the files of one part first.
proof fn lemma_run_part(state: HomeState, home: HomeDirectory)
    requires
        state.part != HomePart::Done,
        !state.current.is_done(),
    ensures
        state.run(home) == state.with_current(state.current.run(home)).settled().run(home),
    decreases state.current.questions_left(),
{
    let next = state.current.answered(home);
    assert(state.run(home) == state.answered(home).run(home));
    assert(state.current.run(home) == next.run(home));
    if !next.is_done() {
        lemma_run_part(state.with_current(next), home);
    }
}

/// Reading whose questions are all answered by one home directory ends with the override, or else
/// the usual file, and behind it the local overlay, as far as they say something; and with a
/// warning about each file that was asked for and could not be read, in the same order.
pub proof fn law_home_reads_files(home: HomeDirectory)
    ensures
        ({
            let end = HomeState::initial().run(home);
            &&& end.part == HomePart::Done
            &&& end.selected == as_files(
                home.first_present(primary_candidates(), InstructionSourceKind::Primary),
            ) + as_files(
                home.first_present(local_candidates(), InstructionSourceKind::LocalAddition),
            )
            &&& end.current.warnings == home.warnings_of(primary_candidates()) + home.warnings_of(
                local_candidates(),
            )
        }),
{
    let s0 = HomeState::initial();
    let primary = primary_candidates();
    let local = local_candidates();
    law_first_present_counts(home, primary, InstructionSourceKind::Primary, Seq::empty());
    lemma_run_part(s0, home);
    let s1 = s0.with_current(s0.current.run(home)).settled();
    assert(Seq::<Seq<char>>::empty() + home.warnings_of(primary) =~= home.warnings_of(primary));
    law_first_present_counts(
        home,
        local,
        InstructionSourceKind::LocalAddition,
        home.warnings_of(primary),
    );
    lemma_run_part(s1, home);
    let files = as_files(home.first_present(primary, InstructionSourceKind::Primary));
    assert(Seq::<FileState>::empty() + files =~= files);
}

/// The usual file is asked for only where the override says nothing, and the warnings are those
/// about the files that are asked for.
pub proof fn law_override_before_default(home: HomeDirectory)
    ensures
        ({
            let first = home.outcome(OVERRIDE_AGENTS_MD_FILENAME@) is Text;
            let kind = InstructionSourceKind::Primary;
            &&& home.first_present(primary_candidates(), kind) == (if first {
                home.file(OVERRIDE_AGENTS_MD_FILENAME@, kind)
            } else {
                home.file(DEFAULT_AGENTS_MD_FILENAME@, kind)
            })
            &&& home.warnings_of(primary_candidates()) == (if first {
                home.warnings(OVERRIDE_AGENTS_MD_FILENAME@)
            } else {
                home.warnings(OVERRIDE_AGENTS_MD_FILENAME@) + home.warnings(
                    DEFAULT_AGENTS_MD_FILENAME@,
                )
            })
            &&& home.first_present(local_candidates(), InstructionSourceKind::LocalAddition)
                == home.file(LOCAL_AGENTS_MD_FILENAME@, InstructionSourceKind::LocalAddition)
            &&& home.warnings_of(local_candidates()) == home.warnings(LOCAL_AGENTS_MD_FILENAME@)
        }),
{
    reveal_with_fuel(HomeDirectory::first_from, 3);
    reveal_with_fuel(HomeDirectory::warnings_between, 4);
    let a = home.warnings(OVERRIDE_AGENTS_MD_FILENAME@);
    let b = home.warnings(DEFAULT_AGENTS_MD_FILENAME@);
    let c = home.warnings(LOCAL_AGENTS_MD_FILENAME@);
    let none = Seq::<Seq<char>>::empty();
    assert(primary_candidates()[0] == OVERRIDE_AGENTS_MD_FILENAME@);
    assert(primary_candidates()[1] == DEFAULT_AGENTS_MD_FILENAME@);
    assert(a + none =~= a);
    assert(a + (b + none) =~= a + b);
    assert(c + none =~= c);
}

/// At most two files count, at most one of the override and the usual file and the local overlay
/// behind it, and each of them says something.
pub proof fn law_home_selects_two(home: HomeDirectory)
    ensures
        ({
            let selected = HomeState::initial().run(home).selected;
            &&& selected.len() <= 2
            &&& selected.len() == 2 ==> selected[0].kind == InstructionSourceKind::Primary
                && selected[1].kind == InstructionSourceKind::LocalAddition
            &&& forall|i: int|
                0 <= i < selected.len() ==> (#[trigger] selected[i]).contents.len() > 0
        }),
{
    law_home_reads_files(home);
    law_override_before_default(home);
}

/// What comes of one candidate. A regular file that says something counts, with what stands between
/// white space in it. One that cannot be looked at, or not be read, leaves one warning, which names
/// the file and says why, unless there is no such file. Anything else counts for nothing.
pub proof fn law_one_candidate(
    home: HomeDirectory,
    name: Seq<char>,
    kind: InstructionSourceKind,
    warnings: Seq<Seq<char>>,
)
    ensures
        ({
            let end = CandidatesState::initial(seq![name], kind, warnings).run(home);
            let path = (home.path)(name);
            let words = "Failed to read global AGENTS.md instructions from `"@;
            match ((home.metadata)(name), (home.read)(name)) {
                (Err(error), _) => end.found is None && end.warnings == (if error.not_found {
                    warnings
                } else {
                    warnings.push(words + path.display@ + "`: "@ + error.message@)
                }),
                (Ok(false), _) => end.found is None && end.warnings == warnings,
                (Ok(true), Err(error)) => end.found is None && end.warnings == (
                if error.not_found {
                    warnings
                } else {
                    warnings.push(words + path.display@ + "`: "@ + error.message@)
                }),
                (Ok(true), Ok(data)) => {
                    let text = trimmed(utf8_lossy(data));
                    &&& end.warnings == warnings
                    &&& text.len() == 0 ==> end.found is None
                    &&& text.len() > 0 ==> end.found == Some(
                        FileState { source: path, kind, contents: text },
                    )
                },
            }
        }),
{
    reveal_with_fuel(CandidatesState::run, 4);
    let start = CandidatesState::initial(seq![name], kind, warnings);
    assert(start.question() == (HomeQuestion::Metadata { name }));
    let next = start.answered(home);
    if next.reading {
        assert(next.question() == (HomeQuestion::ReadFile { name }));
        assert(next.answered(home).is_done());
    } else {
        assert(next.is_done());
    }
}

proof fn lemma_first_behind(
    home: HomeDirectory,
    a: Seq<Seq<char>>,
    b: Seq<Seq<char>>,
    k: int,
)
    requires
        0 <= k <= b.len(),
    ensures
        home.first_from(a + b, a.len() + k) == a.len() + home.first_from(b, k),
    decreases b.len() - k,
{
    if k < b.len() {
        assert((a + b)[a.len() + k] == b[k]);
        lemma_first_behind(home, a, b, k + 1);
    }
}

proof fn lemma_warnings_behind(
    home: HomeDirectory,
    a: Seq<Seq<char>>,
    b: Seq<Seq<char>>,
    from: int,
    to: int,
)
    requires
        0 <= from,
        to <= b.len(),
    ensures
        home.warnings_between(a + b, a.len() + from, a.len() + to) == home.warnings_between(
            b,
            from,
            to,
        ),
    decreases to - from,
{
    if from < to {
        assert((a + b)[a.len() + from] == b[from]);
        lemma_warnings_behind(home, a, b, from + 1, to);
    }
}

/// Candidates are tried in turn: where the first of them counts, the others do not matter; where it
/// does not, what comes is what comes of the others, behind the warnings that it left.
pub proof fn law_candidates_in_turn(
    home: HomeDirectory,
    first: Seq<char>,
    others: Seq<Seq<char>>,
    kind: InstructionSourceKind,
    warnings: Seq<Seq<char>>,
)
    ensures
        ({
            let one = CandidatesState::initial(seq![first], kind, warnings).run(home);
            let all = CandidatesState::initial(seq![first] + others, kind, warnings).run(home);
            let rest = CandidatesState::initial(others, kind, one.warnings).run(home);
            if one.found is Some {
                all.found == one.found && all.warnings == one.warnings
            } else {
                all.found == rest.found && all.warnings == rest.warnings
            }
        }),
{
    let a = seq![first];
    let names = a + others;
    let one = CandidatesState::initial(a, kind, warnings).run(home);
    lemma_run_candidates(CandidatesState::initial(a, kind, warnings), home);
    lemma_run_candidates(CandidatesState::initial(names, kind, warnings), home);
    lemma_run_candidates(CandidatesState::initial(others, kind, one.warnings), home);
    reveal_with_fuel(HomeDirectory::first_from, 3);
    reveal_with_fuel(HomeDirectory::warnings_between, 3);
    assert(names[0] == first);
    let here = home.warnings(first);
    let none = Seq::<Seq<char>>::empty();
    assert(here + none =~= here);
    assert(one.warnings =~= warnings + here);
    assert(home.warnings_between(names, 1, 1) =~= none);
    if home.outcome(first) is Text {
        assert(home.warnings_between(names, 0, 1) =~= here);
    } else {
        lemma_first_behind(home, a, others, 0);
        let k = home.first_from(others, 0);
        law_first_is_least(home, others, 0);
        let last = if k < others.len() {
            k + 1
        } else {
            k
        };
        lemma_warnings_behind(home, a, others, 0, last);
        let rest = home.warnings_between(others, 0, last);
        assert(home.warnings_between(names, 0, last + 1) =~= here + rest);
        assert(warnings + (here + rest) =~= (warnings + here) + rest);
        assert(k < others.len() ==> names[k + 1] == others[k]);
    }
}

/// The instructions of the user are what comes of two readings, one behind the other: of the
/// override or else the usual file, and of the local overlay. The warnings of the second follow
/// those of the first.
pub proof fn law_home_is_two_readings(home: HomeDirectory)
    ensures
        ({
            let end = HomeState::initial().run(home);
            let first = CandidatesState::initial(
                seq!["AGENTS.override.md"@, "AGENTS.md"@],
                InstructionSourceKind::Primary,
                Seq::empty(),
            ).run(home);
            let second = CandidatesState::initial(
                seq!["AGENTS.local.md"@],
                InstructionSourceKind::LocalAddition,
                first.warnings,
            ).run(home);
            &&& end.part == HomePart::Done
            &&& end.current.warnings == second.warnings
            &&& match (first.found, second.found) {
                (Some(file), Some(local)) => end.selected == seq![file, local],
                (Some(file), None) => end.selected == seq![file],
                (None, Some(local)) => end.selected == seq![local],
                (None, None) => end.selected.len() == 0,
            }
        }),
{
    let s0 = HomeState::initial();
    law_first_present_counts(
        home,
        primary_candidates(),
        InstructionSourceKind::Primary,
        Seq::empty(),
    );
    lemma_run_part(s0, home);
    let s1 = s0.with_current(s0.current.run(home)).settled();
    law_first_present_counts(
        home,
        local_candidates(),
        InstructionSourceKind::LocalAddition,
        s0.current.run(home).warnings,
    );
    lemma_run_part(s1, home);
    let first = s0.current.run(home).found;
    let second = s1.current.run(home).found;
    let end = s0.run(home);
    assert(end.selected =~= as_files(first) + as_files(second));
    if let Some(file) = first {
        if let Some(local) = second {
            assert(end.selected =~= seq![file, local]);
        } else {
            assert(end.selected =~= seq![file]);
        }
    } else if let Some(file) = second {
        assert(end.selected =~= seq![file]);
    }
}

/// How the text grows by one file: what is there before stays, and behind an empty line follow the
/// heading of the file, an empty line, and all of its contents.
pub proof fn law_text_with_one_more_file(files: Seq<FileState>, file: FileState)
    ensures
        ({
            let n = files.len() as int;
            let words = match file.kind {
                InstructionSourceKind::Primary => "Instructions from `"@,
                InstructionSourceKind::LocalAddition => "Local additions from `"@,
                InstructionSourceKind::Reference => "Referenced instructions from `"@,
            };
            let shown = words + file.source.display@ + "`"@ + "\n\n"@ + file.contents;
            rendered_files(files.push(file), n + 1) == (if n == 0 {
                shown
            } else {
                rendered_files(files, n) + "\n\n"@ + shown
            })
        }),
{
    let n = files.len() as int;
    assert(files.push(file)[n] == file);
    lemma_rendered_beginning(files, file, n);
}

proof fn lemma_rendered_beginning(files: Seq<FileState>, file: FileState, n: int)
    requires
        n <= files.len(),
    ensures
        rendered_files(files.push(file), n) == rendered_files(files, n),
    decreases n,
{
    if n > 0 {
        lemma_rendered_beginning(files, file, n - 1);
        assert(files.push(file)[n - 1] == files[n - 1]);
    }
}

} // verus!
