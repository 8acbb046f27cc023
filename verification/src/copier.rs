//! Copying a book to its place without ever replacing a file.
//!
//! The bytes go to a temporary file beside the target, which is then put in its
//! place by a rename that fails where something stands there. [`EpubCopy`] says
//! what is to be done next, and goes on with what came of it.

use vstd::pervasive::unreached;
use vstd::prelude::*;

use crate::path::{join_path, joined};
use crate::text::{decimal, decimal_chars, glue, pair, string_of, viewed};

verus! {

/// How many names for a temporary file are tried.
pub const MAX_TEMP_ATTEMPTS: u32 = 100;

#[derive(Debug, Clone, Copy, PartialEq, Eq, Structural)]
pub enum CopyOutcome {
    Copied,
    OutputExists,
}

/// Why a book could not be copied.
#[derive(Debug, Clone, PartialEq, Eq)]
pub struct CopyError {
    message: String,
}

impl View for CopyError {
    type V = Seq<char>;

    closed spec fn view(&self) -> Seq<char> {
        self.message@
    }
}

/// What the system says of an operation that failed.
#[derive(Debug, Clone, PartialEq, Eq)]
pub struct IoFailure {
    pub kind: IoFailureKind,
    pub message: String,
}

#[derive(Debug, Clone, Copy, PartialEq, Eq, Structural)]
pub enum IoFailureKind {
    AlreadyExists,
    NotFound,
    Other,
}

pub struct FailureModel {
    pub kind: IoFailureKind,
    pub message: Seq<char>,
}

impl View for IoFailure {
    type V = FailureModel;

    open spec fn view(&self) -> FailureModel {
        FailureModel { kind: self.kind, message: self.message@ }
    }
}

/// What came of an operation, in plain values.
pub open spec fn outcome_model(outcome: Result<(), IoFailure>) -> Result<(), FailureModel> {
    match outcome {
        Ok(done) => Ok(done),
        Err(failure) => Err(failure@),
    }
}

/// "failed to do something to a path: why"
pub open spec fn io_text(action: Seq<char>, path: Seq<char>, message: Seq<char>) -> Seq<char> {
    "failed to "@ + action + " "@ + path + ": "@ + message
}

impl CopyError {
    fn new(message: String) -> (error: Self)
        ensures
            error@ == message@,
    {
        CopyError { message }
    }

    fn io(action: &str, path: &str, failure: &IoFailure) -> (error: Self)
        ensures
            error@ == io_text(action@, path@, failure.message@),
    {
        let start = glue("failed to ", action, " ");
        let middle = glue(start.as_str(), path, ": ");
        CopyError::new(pair(middle.as_str(), failure.message.as_str()))
    }

    /// What the error says.
    pub fn message(&self) -> (message: String)
        ensures
            message@ == self@,
    {
        self.message.clone()
    }
}

/// A book that is to be copied, with the parts of its target path.
pub struct PlaceModel {
    pub source: Seq<char>,
    pub target: Seq<char>,
    pub parent: Option<Seq<char>>,
    pub file_name: Option<Seq<char>>,
    pub process_id: u32,
}

/// The name of a temporary file beside the target: hidden, and with the numbers
/// of the process and of the file.
pub open spec fn temp_name(file_name: Seq<char>, process_id: u32, counter: u64) -> Seq<char> {
    "."@ + file_name + ".tmp."@ + decimal(process_id as nat) + "."@ + decimal(counter as nat)
}

/// What is to be done next.
#[derive(Debug, PartialEq, Eq)]
pub enum CopyStep {
    /// Find out whether the target exists.
    CheckTarget,
    /// Create the folders that the target lies in.
    CreateParent,
    /// Find out whether the target exists by now.
    CheckTargetAgain,
    /// Take the next number for a temporary file.
    TakeTempId { attempt: u32 },
    /// Create the temporary file, which must not exist.
    CreateTemp { attempt: u32, temp: String },
    /// Open the source.
    OpenSource { temp: String },
    /// Copy the bytes of the source to the temporary file.
    CopyBytes { temp: String },
    /// Flush the temporary file.
    FlushTemp { temp: String },
    /// Sync the temporary file to disk.
    SyncTemp { temp: String },
    /// Rename the temporary file to the target, which must not exist.
    Place { temp: String },
    /// Sync the folder that the target lies in, as far as possible.
    SyncParent,
    /// Remove the temporary file, because the target exists.
    DropTemp { temp: String },
    /// Remove the temporary file, because the copy failed.
    CleanUp { temp: String, error: CopyError },
    /// Nothing: this is what came of it.
    Finished { result: Result<CopyOutcome, CopyError> },
}

pub enum StepModel {
    CheckTarget,
    CreateParent,
    CheckTargetAgain,
    TakeTempId { attempt: u32 },
    CreateTemp { attempt: u32, temp: Seq<char> },
    OpenSource { temp: Seq<char> },
    CopyBytes { temp: Seq<char> },
    FlushTemp { temp: Seq<char> },
    SyncTemp { temp: Seq<char> },
    Place { temp: Seq<char> },
    SyncParent,
    DropTemp { temp: Seq<char> },
    CleanUp { temp: Seq<char>, error: Seq<char> },
    Finished { result: Result<CopyOutcome, Seq<char>> },
}

impl View for CopyStep {
    type V = StepModel;

    open spec fn view(&self) -> StepModel {
        match self {
            CopyStep::CheckTarget => StepModel::CheckTarget,
            CopyStep::CreateParent => StepModel::CreateParent,
            CopyStep::CheckTargetAgain => StepModel::CheckTargetAgain,
            CopyStep::TakeTempId { attempt } => StepModel::TakeTempId { attempt: *attempt },
            CopyStep::CreateTemp { attempt, temp } => StepModel::CreateTemp {
                attempt: *attempt,
                temp: temp@,
            },
            CopyStep::OpenSource { temp } => StepModel::OpenSource { temp: temp@ },
            CopyStep::CopyBytes { temp } => StepModel::CopyBytes { temp: temp@ },
            CopyStep::FlushTemp { temp } => StepModel::FlushTemp { temp: temp@ },
            CopyStep::SyncTemp { temp } => StepModel::SyncTemp { temp: temp@ },
            CopyStep::Place { temp } => StepModel::Place { temp: temp@ },
            CopyStep::SyncParent => StepModel::SyncParent,
            CopyStep::DropTemp { temp } => StepModel::DropTemp { temp: temp@ },
            CopyStep::CleanUp { temp, error } => StepModel::CleanUp { temp: temp@, error: error@ },
            CopyStep::Finished { result } => StepModel::Finished {
                result: match result {
                    Ok(outcome) => Ok(*outcome),
                    Err(error) => Err(error@),
                },
            },
        }
    }
}

/// What came of a step.
#[derive(Debug, PartialEq, Eq)]
pub enum CopyEvent {
    /// Whether a file exists, or why that could not be found out.
    Exists(Result<bool, IoFailure>),
    /// The number for a temporary file.
    TempId(u64),
    /// What came of an operation.
    Did(Result<(), IoFailure>),
}

pub enum EventModel {
    Exists(Result<bool, FailureModel>),
    TempId(u64),
    Did(Result<(), FailureModel>),
}

impl View for CopyEvent {
    type V = EventModel;

    open spec fn view(&self) -> EventModel {
        match self {
            CopyEvent::Exists(answer) => EventModel::Exists(
                match answer {
                    Ok(exists) => Ok(*exists),
                    Err(failure) => Err(failure@),
                },
            ),
            CopyEvent::TempId(counter) => EventModel::TempId(*counter),
            CopyEvent::Did(outcome) => EventModel::Did(outcome_model(*outcome)),
        }
    }
}

impl StepModel {
    pub open spec fn failed(message: Seq<char>) -> StepModel {
        StepModel::Finished { result: Err(message) }
    }

    /// The event is one that the step can have.
    pub open spec fn awaits(self, event: EventModel) -> bool {
        match self {
            StepModel::CheckTarget => event is Exists,
            StepModel::CheckTargetAgain => event is Exists,
            StepModel::TakeTempId { .. } => event is TempId,
            StepModel::Finished { .. } => false,
            _ => event is Did,
        }
    }

    /// The step that follows from an answer whether the target exists.
    pub open spec fn after_check(
        target: Seq<char>,
        answer: Result<bool, FailureModel>,
        otherwise: StepModel,
    ) -> StepModel {
        match answer {
            Err(failure) => StepModel::failed(
                io_text("check whether output exists"@, target, failure.message),
            ),
            Ok(true) => StepModel::Finished { result: Ok(CopyOutcome::OutputExists) },
            Ok(false) => otherwise,
        }
    }

    /// The step that follows from an operation on or for the temporary file:
    /// where it failed, the file is to be removed.
    pub open spec fn after_work(
        temp: Seq<char>,
        outcome: Result<(), FailureModel>,
        action: Seq<char>,
        path: Seq<char>,
        otherwise: StepModel,
    ) -> StepModel {
        match outcome {
            Ok(_) => otherwise,
            Err(failure) => StepModel::CleanUp {
                temp,
                error: io_text(action, path, failure.message),
            },
        }
    }

    /// The step that follows from what came of this one.
    pub open spec fn next(self, place: PlaceModel, event: EventModel) -> StepModel {
        match (self, event) {
            (StepModel::CheckTarget, EventModel::Exists(answer)) => StepModel::after_check(
                place.target,
                answer,
                if place.parent is Some {
                    StepModel::CreateParent
                } else {
                    StepModel::failed(
                        "Cleaned EPUB output path has no parent directory: "@ + place.target,
                    )
                },
            ),
            (StepModel::CreateParent, EventModel::Did(outcome)) => match outcome {
                Ok(_) => StepModel::CheckTargetAgain,
                Err(failure) => StepModel::failed(
                    io_text("create parent directories for"@, place.target, failure.message),
                ),
            },
            (StepModel::CheckTargetAgain, EventModel::Exists(answer)) => StepModel::after_check(
                place.target,
                answer,
                StepModel::TakeTempId { attempt: 1 },
            ),
            (
                StepModel::TakeTempId { attempt },
                EventModel::TempId(counter),
            ) => match place.file_name {
                None => StepModel::failed(
                    "Cleaned EPUB output path has no file name: "@ + place.target,
                ),
                Some(name) => StepModel::CreateTemp {
                    attempt,
                    temp: joined(place.parent->0, temp_name(name, place.process_id, counter)),
                },
            },
            (StepModel::CreateTemp { attempt, temp }, EventModel::Did(outcome)) => match outcome {
                Ok(_) => StepModel::OpenSource { temp },
                Err(failure) => if failure.kind == IoFailureKind::AlreadyExists {
                    if attempt < MAX_TEMP_ATTEMPTS {
                        StepModel::TakeTempId { attempt: (attempt + 1) as u32 }
                    } else {
                        StepModel::failed(
                            "failed to create a unique temporary file in "@ + place.parent->0
                                + " after 100 attempts"@,
                        )
                    }
                } else {
                    StepModel::failed(
                        io_text(
                            "create unique temporary file in target directory"@,
                            temp,
                            failure.message,
                        ),
                    )
                },
            },
            (StepModel::OpenSource { temp }, EventModel::Did(outcome)) => StepModel::after_work(
                temp,
                outcome,
                "open source EPUB"@,
                place.source,
                StepModel::CopyBytes { temp },
            ),
            (StepModel::CopyBytes { temp }, EventModel::Did(outcome)) => StepModel::after_work(
                temp,
                outcome,
                "copy source EPUB bytes to temporary file"@,
                temp,
                StepModel::FlushTemp { temp },
            ),
            (StepModel::FlushTemp { temp }, EventModel::Did(outcome)) => StepModel::after_work(
                temp,
                outcome,
                "flush temporary file"@,
                temp,
                StepModel::SyncTemp { temp },
            ),
            (StepModel::SyncTemp { temp }, EventModel::Did(outcome)) => StepModel::after_work(
                temp,
                outcome,
                "sync temporary file"@,
                temp,
                StepModel::Place { temp },
            ),
            (StepModel::Place { temp }, EventModel::Did(outcome)) => match outcome {
                Err(failure) => if failure.kind == IoFailureKind::AlreadyExists {
                    StepModel::DropTemp { temp }
                } else {
                    StepModel::CleanUp {
                        temp,
                        error: io_text(
                            "place temporary file at final Cleaned EPUB path"@,
                            place.target,
                            failure.message,
                        ),
                    }
                },
                Ok(_) => StepModel::SyncParent,
            },
            (StepModel::SyncParent, EventModel::Did(_)) => StepModel::Finished {
                result: Ok(CopyOutcome::Copied),
            },
            (StepModel::DropTemp { temp }, EventModel::Did(outcome)) => match outcome {
                Ok(_) => StepModel::Finished { result: Ok(CopyOutcome::OutputExists) },
                Err(failure) => StepModel::CleanUp {
                    temp,
                    error: "output path already exists: "@ + place.target
                        + "; additionally failed to remove temporary file "@ + temp + ": "@
                        + failure.message,
                },
            },
            (StepModel::CleanUp { temp, error }, EventModel::Did(outcome)) => match outcome {
                Err(failure) => if failure.kind == IoFailureKind::NotFound {
                    StepModel::failed(error)
                } else {
                    StepModel::failed(
                        error + "; additionally failed to remove temporary file "@ + temp + ": "@
                            + failure.message,
                    )
                },
                Ok(_) => StepModel::failed(error),
            },
            (step, _) => step,
        }
    }
}

pub struct CopyModel {
    pub place: PlaceModel,
    pub step: StepModel,
}

impl CopyModel {
    pub open spec fn next(self, event: EventModel) -> CopyModel {
        CopyModel { place: self.place, step: self.step.next(self.place, event) }
    }
}

/// The copying of one book.
#[derive(Debug, PartialEq, Eq)]
pub struct EpubCopy {
    source: String,
    target: String,
    parent: Option<String>,
    file_name: Option<String>,
    process_id: u32,
    step: CopyStep,
}

impl View for EpubCopy {
    type V = CopyModel;

    closed spec fn view(&self) -> CopyModel {
        CopyModel {
            place: PlaceModel {
                source: self.source@,
                target: self.target@,
                parent: viewed(self.parent),
                file_name: viewed(self.file_name),
                process_id: self.process_id,
            },
            step: self.step@,
        }
    }
}

/// The name of the temporary file with a given number; it fails where the target
/// has no file name.
pub fn unique_temp_file_name_for_counter(
    target: &str,
    file_name: Option<&String>,
    process_id: u32,
    counter: u64,
) -> (name: Result<String, CopyError>)
    ensures
        match file_name {
            Some(last) => name is Ok && name->Ok_0@ == temp_name(last@, process_id, counter),
            None => name is Err && name->Err_0@ == "Cleaned EPUB output path has no file name: "@
                + target@,
        },
{
    match file_name {
        None => Err(
            CopyError::new(pair("Cleaned EPUB output path has no file name: ", target)),
        ),
        Some(last) => {
            let process = string_of(decimal_chars(process_id as u64).as_slice());
            let number = string_of(decimal_chars(counter).as_slice());
            let start = glue(".", last.as_str(), ".tmp.");
            let middle = glue(start.as_str(), process.as_str(), ".");
            Ok(pair(middle.as_str(), number.as_str()))
        },
    }
}

fn after_check(
    target: &str,
    answer: Result<bool, IoFailure>,
    otherwise: CopyStep,
) -> (step: CopyStep)
    ensures
        step@ == StepModel::after_check(
            target@,
            match answer {
                Ok(exists) => Ok(exists),
                Err(failure) => Err(failure@),
            },
            otherwise@,
        ),
{
    match answer {
        Err(failure) => CopyStep::Finished {
            result: Err(CopyError::io("check whether output exists", target, &failure)),
        },
        Ok(true) => CopyStep::Finished { result: Ok(CopyOutcome::OutputExists) },
        Ok(false) => otherwise,
    }
}

fn after_work(
    temp: String,
    outcome: Result<(), IoFailure>,
    action: &str,
    path: &str,
    otherwise: CopyStep,
) -> (step: CopyStep)
    ensures
        step@ == StepModel::after_work(
            temp@,
            outcome_model(outcome),
            action@,
            path@,
            otherwise@,
        ),
{
    match outcome {
        Ok(()) => otherwise,
        Err(failure) => CopyStep::CleanUp { temp, error: CopyError::io(action, path, &failure) },
    }
}

fn removal_failure(start: &str, temp: &str, failure: &IoFailure) -> (error: CopyError)
    ensures
        error@ == start@ + "; additionally failed to remove temporary file "@ + temp@ + ": "@
            + failure.message@,
{
    let first = glue(start, "; additionally failed to remove temporary file ", temp);
    CopyError::new(glue(first.as_str(), ": ", failure.message.as_str()))
}

impl EpubCopy {
    /// Once the target's folder has been asked for, there is one.
    #[verifier::type_invariant]
    closed spec fn has_parent(self) -> bool {
        self.parent is None ==> self.step is CheckTarget || self.step is Finished
    }

    /// Starts to copy a book, given the folder and the name that its target path
    /// ends with, if it has them.
    pub fn start(
        source: String,
        target: String,
        parent: Option<String>,
        file_name: Option<String>,
        process_id: u32,
    ) -> (copy: EpubCopy)
        ensures
            copy@ == (CopyModel {
                place: PlaceModel {
                    source: source@,
                    target: target@,
                    parent: viewed(parent),
                    file_name: viewed(file_name),
                    process_id,
                },
                step: StepModel::CheckTarget,
            }),
    {
        EpubCopy { source, target, parent, file_name, process_id, step: CopyStep::CheckTarget }
    }

    /// What is to be done next.
    pub fn step(&self) -> (step: &CopyStep)
        ensures
            step@ == self@.step,
    {
        &self.step
    }

    /// Goes on with what came of the step. An event that the step cannot have
    /// changes nothing.
    pub fn advance(self, event: CopyEvent) -> (after: EpubCopy)
        ensures
            after@ == self@.next(event@),
    {
        proof {
            use_type_invariant(&self);
        }
        let EpubCopy { source, target, parent, file_name, process_id, step } = self;
        let next: CopyStep = match (step, event) {
            (CopyStep::CheckTarget, CopyEvent::Exists(answer)) => {
                let otherwise = if parent.is_some() {
                    CopyStep::CreateParent
                } else {
                    CopyStep::Finished {
                        result: Err(
                            CopyError::new(
                                pair(
                                    "Cleaned EPUB output path has no parent directory: ",
                                    target.as_str(),
                                ),
                            ),
                        ),
                    }
                };
                after_check(target.as_str(), answer, otherwise)
            },
            (CopyStep::CreateParent, CopyEvent::Did(outcome)) => match outcome {
                Ok(()) => CopyStep::CheckTargetAgain,
                Err(failure) => CopyStep::Finished {
                    result: Err(
                        CopyError::io("create parent directories for", target.as_str(), &failure),
                    ),
                },
            },
            (CopyStep::CheckTargetAgain, CopyEvent::Exists(answer)) => after_check(
                target.as_str(),
                answer,
                CopyStep::TakeTempId { attempt: 1 },
            ),
            (CopyStep::TakeTempId { attempt }, CopyEvent::TempId(counter)) => {
                match unique_temp_file_name_for_counter(
                    target.as_str(),
                    file_name.as_ref(),
                    process_id,
                    counter,
                ) {
                    Err(error) => CopyStep::Finished { result: Err(error) },
                    Ok(name) => match &parent {
                        Some(folder) => CopyStep::CreateTemp {
                            attempt,
                            temp: join_path(folder.as_str(), name.as_str()),
                        },
                        None => unreached(),
                    },
                }
            },
            (CopyStep::CreateTemp { attempt, temp }, CopyEvent::Did(outcome)) => match outcome {
                Ok(()) => CopyStep::OpenSource { temp },
                Err(failure) => {
                    if failure.kind == IoFailureKind::AlreadyExists {
                        if attempt < MAX_TEMP_ATTEMPTS {
                            CopyStep::TakeTempId { attempt: attempt + 1 }
                        } else {
                            match &parent {
                                Some(folder) => CopyStep::Finished {
                                    result: Err(
                                        CopyError::new(
                                            glue(
                                                "failed to create a unique temporary file in ",
                                                folder.as_str(),
                                                " after 100 attempts",
                                            ),
                                        ),
                                    ),
                                },
                                None => unreached(),
                            }
                        }
                    } else {
                        CopyStep::Finished {
                            result: Err(
                                CopyError::io(
                                    "create unique temporary file in target directory",
                                    temp.as_str(),
                                    &failure,
                                ),
                            ),
                        }
                    }
                },
            },
            (CopyStep::OpenSource { temp }, CopyEvent::Did(outcome)) => {
                let otherwise = CopyStep::CopyBytes { temp: temp.clone() };
                after_work(temp, outcome, "open source EPUB", source.as_str(), otherwise)
            },
            (CopyStep::CopyBytes { temp }, CopyEvent::Did(outcome)) => {
                let path = temp.clone();
                let otherwise = CopyStep::FlushTemp { temp: temp.clone() };
                after_work(
                    temp,
                    outcome,
                    "copy source EPUB bytes to temporary file",
                    path.as_str(),
                    otherwise,
                )
            },
            (CopyStep::FlushTemp { temp }, CopyEvent::Did(outcome)) => {
                let path = temp.clone();
                let otherwise = CopyStep::SyncTemp { temp: temp.clone() };
                after_work(temp, outcome, "flush temporary file", path.as_str(), otherwise)
            },
            (CopyStep::SyncTemp { temp }, CopyEvent::Did(outcome)) => {
                let path = temp.clone();
                let otherwise = CopyStep::Place { temp: temp.clone() };
                after_work(temp, outcome, "sync temporary file", path.as_str(), otherwise)
            },
            (CopyStep::Place { temp }, CopyEvent::Did(outcome)) => match outcome {
                Ok(()) => CopyStep::SyncParent,
                Err(failure) => {
                    if failure.kind == IoFailureKind::AlreadyExists {
                        CopyStep::DropTemp { temp }
                    } else {
                        CopyStep::CleanUp {
                            temp,
                            error: CopyError::io(
                                "place temporary file at final Cleaned EPUB path",
                                target.as_str(),
                                &failure,
                            ),
                        }
                    }
                },
            },
            (CopyStep::SyncParent, CopyEvent::Did(_)) => CopyStep::Finished {
                result: Ok(CopyOutcome::Copied),
            },
            (CopyStep::DropTemp { temp }, CopyEvent::Did(outcome)) => match outcome {
                Ok(()) => CopyStep::Finished { result: Ok(CopyOutcome::OutputExists) },
                Err(failure) => {
                    let start = pair("output path already exists: ", target.as_str());
                    let error = removal_failure(start.as_str(), temp.as_str(), &failure);
                    CopyStep::CleanUp { temp, error }
                },
            },
            (CopyStep::CleanUp { temp, error }, CopyEvent::Did(outcome)) => match outcome {
                Ok(()) => CopyStep::Finished { result: Err(error) },
                Err(failure) => {
                    if failure.kind == IoFailureKind::NotFound {
                        CopyStep::Finished { result: Err(error) }
                    } else {
                        CopyStep::Finished {
                            result: Err(
                                removal_failure(error.message.as_str(), temp.as_str(), &failure),
                            ),
                        }
                    }
                },
            },
            (step, _) => step,
        };
        EpubCopy { source, target, parent, file_name, process_id, step: next }
    }
}

/// The event of an operation that succeeded.
pub open spec fn succeeded(event: EventModel) -> bool {
    event is Did && event->Did_0 is Ok
}

/// The states that a copy goes through, from the first, with these events.
pub open spec fn run(start: CopyModel, events: Seq<EventModel>) -> CopyModel
    decreases events.len(),
{
    if events.len() == 0 {
        start
    } else {
        run(start, events.drop_last()).next(events.last())
    }
}

/// A temporary file exists in this step that nothing but the copy knows of.
pub open spec fn holds_temp(step: StepModel) -> bool {
    step is OpenSource || step is CopyBytes || step is FlushTemp || step is SyncTemp || step is Place
        || step is DropTemp || step is CleanUp
}

/// A copy ends with success only after the rename of the temporary file to the
/// target, which fails where the target exists, has succeeded.
pub proof fn success_needs_the_rename(place: PlaceModel, events: Seq<EventModel>)
    requires
        run(CopyModel { place, step: StepModel::CheckTarget }, events).step
            == (StepModel::Finished { result: Ok(CopyOutcome::Copied) }),
    ensures
        exists|i: int|
            0 <= i < events.len() && #[trigger] run(
                CopyModel { place, step: StepModel::CheckTarget },
                events.take(i),
            ).step is Place && succeeded(events[i]),
    decreases events.len(),
{
    let start = CopyModel { place, step: StepModel::CheckTarget };
    if events.len() > 0 {
        let before = run(start, events.drop_last());
        run_keeps_place(start, events.drop_last());
        assert(events.drop_last() =~= events.take(events.len() - 1));
        if before.step == (StepModel::Finished { result: Ok(CopyOutcome::Copied) }) {
            success_needs_the_rename(place, events.drop_last());
            let i = choose|i: int|
                0 <= i < events.drop_last().len() && #[trigger] run(
                    start,
                    events.drop_last().take(i),
                ).step is Place && succeeded(events.drop_last()[i]);
            assert(events.drop_last().take(i) =~= events.take(i));
        } else {
            assert(before.step is SyncParent);
            sync_needs_the_rename(place, events.drop_last());
            let i = choose|i: int|
                0 <= i < events.drop_last().len() && #[trigger] run(
                    start,
                    events.drop_last().take(i),
                ).step is Place && succeeded(events.drop_last()[i]);
            assert(events.drop_last().take(i) =~= events.take(i));
        }
    }
}

proof fn sync_needs_the_rename(place: PlaceModel, events: Seq<EventModel>)
    requires
        run(CopyModel { place, step: StepModel::CheckTarget }, events).step is SyncParent,
    ensures
        exists|i: int|
            0 <= i < events.len() && #[trigger] run(
                CopyModel { place, step: StepModel::CheckTarget },
                events.take(i),
            ).step is Place && succeeded(events[i]),
    decreases events.len(),
{
    let start = CopyModel { place, step: StepModel::CheckTarget };
    if events.len() > 0 {
        let before = run(start, events.drop_last());
        run_keeps_place(start, events.drop_last());
        assert(events.drop_last() =~= events.take(events.len() - 1));
        if before.step is SyncParent {
            sync_needs_the_rename(place, events.drop_last());
            let i = choose|i: int|
                0 <= i < events.drop_last().len() && #[trigger] run(
                    start,
                    events.drop_last().take(i),
                ).step is Place && succeeded(events.drop_last()[i]);
            assert(events.drop_last().take(i) =~= events.take(i));
        } else {
            assert(before.step is Place);
            assert(succeeded(events.last()));
            assert(run(start, events.take(events.len() - 1)).step is Place);
        }
    }
}

proof fn run_keeps_place(start: CopyModel, events: Seq<EventModel>)
    ensures
        run(start, events).place == start.place,
    decreases events.len(),
{
    if events.len() > 0 {
        run_keeps_place(start, events.drop_last());
    }
}

/// A temporary file is never left behind unasked: a step that has one is followed
/// by another that has it, by its rename to the target, or by its removal.
pub proof fn temporary_files_are_taken_care_of(state: CopyModel, event: EventModel)
    requires
        holds_temp(state.step),
        state.step.awaits(event),
    ensures
        ({
            let after = state.next(event).step;
            ||| holds_temp(after)
            ||| state.step is Place && succeeded(event)
            ||| state.step is DropTemp && succeeded(event)
            ||| state.step is CleanUp
        }),
{
}

/// How many steps a copy can still take.
pub open spec fn steps_left(step: StepModel) -> int {
    match step {
        StepModel::CheckTarget => 220,
        StepModel::CreateParent => 219,
        StepModel::CheckTargetAgain => 218,
        StepModel::TakeTempId { attempt } => 209 - 2 * (attempt - 1),
        StepModel::CreateTemp { attempt, .. } => 208 - 2 * (attempt - 1),
        StepModel::OpenSource { .. } => 8,
        StepModel::CopyBytes { .. } => 7,
        StepModel::FlushTemp { .. } => 6,
        StepModel::SyncTemp { .. } => 5,
        StepModel::Place { .. } => 4,
        StepModel::SyncParent => 1,
        StepModel::DropTemp { .. } => 2,
        StepModel::CleanUp { .. } => 1,
        StepModel::Finished { .. } => 0,
    }
}

/// The number of a try at a temporary file is one of those that are allowed.
pub open spec fn tries_are_bounded(step: StepModel) -> bool {
    match step {
        StepModel::TakeTempId { attempt } => 1 <= attempt <= MAX_TEMP_ATTEMPTS,
        StepModel::CreateTemp { attempt, .. } => 1 <= attempt <= MAX_TEMP_ATTEMPTS,
        _ => true,
    }
}

/// A copy comes to an end, whatever comes of its steps.
pub proof fn copies_come_to_an_end(state: CopyModel, event: EventModel)
    requires
        tries_are_bounded(state.step),
        state.step.awaits(event),
    ensures
        tries_are_bounded(state.next(event).step),
        0 <= steps_left(state.next(event).step) < steps_left(state.step),
{
}

/// A target that exists is left alone: the copy says so and does nothing more.
pub proof fn existing_targets_are_left_alone(state: CopyModel)
    requires
        state.step is CheckTarget || state.step is CheckTargetAgain,
    ensures
        state.next(EventModel::Exists(Ok(true))).step == (StepModel::Finished {
            result: Ok(CopyOutcome::OutputExists),
        }),
{
}

/// A copy that meets no trouble goes like this: the target is looked for, its folder
/// created, the target looked for again, a hidden file with the numbers of the
/// process and of the file created beside it, the source opened and copied into that,
/// the file flushed and synced, and only then renamed to the target; whether the
/// folder could be synced does not matter.
pub proof fn copies_without_trouble_succeed(
    place: PlaceModel,
    counter: u64,
    synced: Result<(), FailureModel>,
)
    requires
        place.parent is Some,
        place.file_name is Some,
    ensures
        ({
            let missing = EventModel::Exists(Ok(false));
            let done = EventModel::Did(Ok(()));
            let temp = joined(
                place.parent->0,
                "."@ + place.file_name->0 + ".tmp."@ + decimal(place.process_id as nat) + "."@
                    + decimal(counter as nat),
            );
            let first = StepModel::TakeTempId { attempt: 1 };
            &&& StepModel::CheckTarget.next(place, missing) == StepModel::CreateParent
            &&& StepModel::CreateParent.next(place, done) == StepModel::CheckTargetAgain
            &&& StepModel::CheckTargetAgain.next(place, missing) == first
            &&& first.next(place, EventModel::TempId(counter)) == (StepModel::CreateTemp {
                attempt: 1,
                temp,
            })
            &&& (StepModel::CreateTemp { attempt: 1, temp }).next(place, done) == (
            StepModel::OpenSource { temp })
            &&& (StepModel::OpenSource { temp }).next(place, done) == (StepModel::CopyBytes { temp })
            &&& (StepModel::CopyBytes { temp }).next(place, done) == (StepModel::FlushTemp { temp })
            &&& (StepModel::FlushTemp { temp }).next(place, done) == (StepModel::SyncTemp { temp })
            &&& (StepModel::SyncTemp { temp }).next(place, done) == (StepModel::Place { temp })
            &&& (StepModel::Place { temp }).next(place, done) == StepModel::SyncParent
            &&& StepModel::SyncParent.next(place, EventModel::Did(synced)) == (StepModel::Finished {
                result: Ok(CopyOutcome::Copied),
            })
        }),
{
}

/// Where an operation fails before there is a temporary file, the copy fails, and
/// says what failed, on what, and why.
pub proof fn early_failures_are_told(place: PlaceModel, failure: FailureModel, counter: u64)
    ensures
        ({
            let unknown = EventModel::Exists(Err(failure));
            let failed = EventModel::Did(Err(failure));
            let told = |text: Seq<char>| StepModel::Finished { result: Err(text) };
            let unchecked = told(
                "failed to check whether output exists "@ + place.target + ": "@ + failure.message,
            );
            &&& StepModel::CheckTarget.next(place, unknown) == unchecked
            &&& StepModel::CheckTargetAgain.next(place, unknown) == unchecked
            &&& StepModel::CreateParent.next(place, failed) == told(
                "failed to create parent directories for "@ + place.target + ": "@
                    + failure.message,
            )
            &&& place.parent is None ==> StepModel::CheckTarget.next(
                place,
                EventModel::Exists(Ok(false)),
            ) == told("Cleaned EPUB output path has no parent directory: "@ + place.target)
            &&& place.file_name is None ==> (StepModel::TakeTempId { attempt: 1 }).next(
                place,
                EventModel::TempId(counter),
            ) == told("Cleaned EPUB output path has no file name: "@ + place.target)
        }),
{
    reveal_strlit("failed to ");
    reveal_strlit(" ");
    reveal_strlit("check whether output exists");
    reveal_strlit("failed to check whether output exists ");
    reveal_strlit("create parent directories for");
    reveal_strlit("failed to create parent directories for ");
    assert("failed to "@ + "check whether output exists"@ + " "@
        =~= "failed to check whether output exists "@);
    assert("failed to "@ + "create parent directories for"@ + " "@
        =~= "failed to create parent directories for "@);
}

/// A temporary file that another has created is left alone, and the next number is
/// tried, a hundred times at most. Any other failure to create one ends the copy.
pub proof fn taken_temporary_names_are_passed_over(
    place: PlaceModel,
    attempt: u32,
    temp: Seq<char>,
    failure: FailureModel,
)
    requires
        1 <= attempt <= 100,
        place.parent is Some,
    ensures
        ({
            let after = (StepModel::CreateTemp { attempt, temp }).next(
                place,
                EventModel::Did(Err(failure)),
            );
            if failure.kind != IoFailureKind::AlreadyExists {
                after == (StepModel::Finished {
                    result: Err(
                        "failed to create unique temporary file in target directory "@ + temp
                            + ": "@ + failure.message,
                    ),
                })
            } else if attempt < 100 {
                after == (StepModel::TakeTempId { attempt: (attempt + 1) as u32 })
            } else {
                after == (StepModel::Finished {
                    result: Err(
                        "failed to create a unique temporary file in "@ + place.parent->0
                            + " after 100 attempts"@,
                    ),
                })
            }
        }),
{
    reveal_strlit("failed to ");
    reveal_strlit(" ");
    reveal_strlit("create unique temporary file in target directory");
    reveal_strlit("failed to create unique temporary file in target directory ");
    assert("failed to "@ + "create unique temporary file in target directory"@ + " "@
        =~= "failed to create unique temporary file in target directory "@);
}

/// Where an operation fails while there is a temporary file, that is removed and the
/// copy fails, with what failed, on what, and why; where the file cannot be removed
/// either, that is told too, unless it was gone.
pub proof fn late_failures_clean_up(
    place: PlaceModel,
    temp: Seq<char>,
    failure: FailureModel,
    error: Seq<char>,
)
    ensures
        ({
            let failed = EventModel::Did(Err(failure));
            let cleaning = |text: Seq<char>|
                StepModel::CleanUp { temp, error: text + ": "@ + failure.message };
            let told = |text: Seq<char>| StepModel::Finished { result: Err(text) };
            &&& (StepModel::OpenSource { temp }).next(place, failed) == cleaning(
                "failed to open source EPUB "@ + place.source,
            )
            &&& (StepModel::CopyBytes { temp }).next(place, failed) == cleaning(
                "failed to copy source EPUB bytes to temporary file "@ + temp,
            )
            &&& (StepModel::FlushTemp { temp }).next(place, failed) == cleaning(
                "failed to flush temporary file "@ + temp,
            )
            &&& (StepModel::SyncTemp { temp }).next(place, failed) == cleaning(
                "failed to sync temporary file "@ + temp,
            )
            &&& failure.kind != IoFailureKind::AlreadyExists ==> (StepModel::Place { temp }).next(
                place,
                failed,
            ) == cleaning("failed to place temporary file at final Cleaned EPUB path "@ + place.target)
            &&& (StepModel::CleanUp { temp, error }).next(place, EventModel::Did(Ok(()))) == told(
                error,
            )
            &&& (StepModel::CleanUp { temp, error }).next(place, failed) == told(
                if failure.kind == IoFailureKind::NotFound {
                    error
                } else {
                    error + "; additionally failed to remove temporary file "@ + temp + ": "@
                        + failure.message
                },
            )
        }),
{
    reveal_strlit("failed to ");
    reveal_strlit(" ");
    reveal_strlit("open source EPUB");
    reveal_strlit("failed to open source EPUB ");
    reveal_strlit("copy source EPUB bytes to temporary file");
    reveal_strlit("failed to copy source EPUB bytes to temporary file ");
    reveal_strlit("flush temporary file");
    reveal_strlit("failed to flush temporary file ");
    reveal_strlit("sync temporary file");
    reveal_strlit("failed to sync temporary file ");
    reveal_strlit("place temporary file at final Cleaned EPUB path");
    reveal_strlit("failed to place temporary file at final Cleaned EPUB path ");
    assert("failed to "@ + "open source EPUB"@ + " "@ =~= "failed to open source EPUB "@);
    assert("failed to "@ + "copy source EPUB bytes to temporary file"@ + " "@
        =~= "failed to copy source EPUB bytes to temporary file "@);
    assert("failed to "@ + "flush temporary file"@ + " "@ =~= "failed to flush temporary file "@);
    assert("failed to "@ + "sync temporary file"@ + " "@ =~= "failed to sync temporary file "@);
    assert("failed to "@ + "place temporary file at final Cleaned EPUB path"@ + " "@
        =~= "failed to place temporary file at final Cleaned EPUB path "@);
}

/// A target that came to exist before the rename is not replaced: the temporary file
/// is removed, and the copy says that the target exists.
pub proof fn targets_that_appear_are_not_replaced(
    place: PlaceModel,
    temp: Seq<char>,
    failure: FailureModel,
)
    requires
        failure.kind == IoFailureKind::AlreadyExists,
    ensures
        (StepModel::Place { temp }).next(place, EventModel::Did(Err(failure))) == (
        StepModel::DropTemp { temp }),
        (StepModel::DropTemp { temp }).next(place, EventModel::Did(Ok(()))) == (
        StepModel::Finished { result: Ok(CopyOutcome::OutputExists) }),
{
}

} // verus!
