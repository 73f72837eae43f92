//! Extraction of the image path and the command line of one process.
//!
//! The data live in the address space of the inspected process, so every
//! step needs the operating system: open the process, ask where its
//! environment block lies, read the block, read the process parameters,
//! read the two text buffers. Those calls are the caller's. What is asked
//! next, what an answer means, and how a failure ends the extraction is
//! decided here: [`Extraction::request`] names the next call and
//! [`Extraction::advance`] takes its answer.
//!
//! An extraction is all or nothing. The command line that was read is
//! held aside until the image path is there too; path and arguments are
//! then set in one step. An extraction that fails hands the details back
//! as it was given them.

use vstd::prelude::*;
use crate::process::{Info, ProcessInfo};
use crate::text::{decode_wide, wide_text};

verus! {

/// The result code with which opening a process is refused for want of
/// privilege.
pub const ACCESS_DENIED: i32 = -2147024891;

/// Where a text buffer lies in the inspected process, and its length in
/// bytes.
#[derive(Debug, Clone, Copy, PartialEq, Eq, Structural)]
pub struct TextBuffer {
    pub address: u64,
    pub length: u16,
}

/// What the caller is to do next.
#[derive(Debug, Clone, Copy, PartialEq, Eq, Structural)]
pub enum Request {
    /// Open the process for query and read access.
    Open { pid: u32 },
    /// Ask for the address of the environment block.
    QueryBasicInformation,
    /// Read the environment block and report the address of the process
    /// parameters.
    ReadEnvironmentBlock { address: u64 },
    /// Read the process parameters and report the two buffer descriptors.
    ReadParameters { address: u64 },
    /// Read exactly `length` bytes at `address`.
    ReadText { address: u64, length: u16 },
    /// Nothing more is asked. Where `release` is set a handle was opened
    /// and has to be closed now.
    Finish { release: bool },
}

/// The answer to a request.
#[derive(Debug)]
pub enum Reply {
    /// The process was opened.
    Opened,
    /// The address that was asked for.
    Address(u64),
    /// The descriptors of the command line and of the image path.
    Parameters { command_line: TextBuffer, image_path: TextBuffer },
    /// The bytes that were read.
    Bytes(Vec<u8>),
    /// The call failed with the given result code and system message.
    Failed { code: i32, message: String },
}

/// Why an extraction gave no complete result.
#[derive(Debug, Clone, Copy, PartialEq, Eq, Structural)]
pub enum ExtractError {
    /// The process could not be opened, for another reason than privilege.
    OpenFailed { code: i32 },
    /// A query or a read failed.
    ReadFailed { code: i32 },
    /// A read returned another number of bytes than was asked for.
    Truncated,
    /// A text buffer does not hold well-formed UTF-16.
    InvalidText,
    /// The answer does not belong to the request.
    UnexpectedReply,
    /// The extraction was ended before it was through.
    Unfinished,
}

/// How far an extraction has come.
#[derive(Debug, Clone, Copy, PartialEq, Eq, Structural)]
pub enum Stage {
    Opening,
    Querying,
    ReadingEnvironment { address: u64 },
    ReadingParameters { address: u64 },
    ReadingCommandLine { command_line: TextBuffer, image_path: TextBuffer },
    ReadingImagePath { image_path: TextBuffer },
    Succeeded,
    Failed { error: ExtractError },
}

/// The extraction for one process: its stage, whether a handle is open,
/// the details as they were given, and the command line that was read
/// and is held aside until the image path is there too.
///
/// The details change in one step only, the one that ends the extraction
/// with success. An extraction that fails leaves them as they were given:
/// `given` remembers, for the contracts alone, what `begin` was given.
pub struct Extraction {
    pub pid: u32,
    pub stage: Stage,
    pub opened: bool,
    pub info: ProcessInfo,
    pub command_line: String,
    pub given: Ghost<Info>,
}

/// The request that belongs to a stage.
pub open spec fn request_of(pid: u32, stage: Stage, opened: bool) -> Request {
    match stage {
        Stage::Opening => Request::Open { pid },
        Stage::Querying => Request::QueryBasicInformation,
        Stage::ReadingEnvironment { address } => Request::ReadEnvironmentBlock { address },
        Stage::ReadingParameters { address } => Request::ReadParameters { address },
        Stage::ReadingCommandLine { command_line, image_path } => Request::ReadText {
            address: command_line.address,
            length: command_line.length,
        },
        Stage::ReadingImagePath { image_path } => Request::ReadText {
            address: image_path.address,
            length: image_path.length,
        },
        Stage::Succeeded => Request::Finish { release: opened },
        Stage::Failed { error } => Request::Finish { release: opened },
    }
}

/// The stage that follows on a reply to the request of `stage`.
///
/// A refusal to open for want of privilege ends the extraction with
/// success; every other failure ends it with an error, as does an answer
/// that does not belong to the request, a read of the wrong length and a
/// buffer that is not well-formed text.
pub open spec fn next_stage(stage: Stage, reply: Reply) -> Stage {
    match stage {
        Stage::Succeeded => stage,
        Stage::Failed { error } => stage,
        Stage::Opening => match reply {
            Reply::Opened => Stage::Querying,
            Reply::Failed { code, message } => if code == ACCESS_DENIED {
                Stage::Succeeded
            } else {
                Stage::Failed { error: ExtractError::OpenFailed { code } }
            },
            _ => Stage::Failed { error: ExtractError::UnexpectedReply },
        },
        Stage::Querying => match reply {
            Reply::Address(address) => Stage::ReadingEnvironment { address },
            Reply::Failed { code, message } => Stage::Failed {
                error: ExtractError::ReadFailed { code },
            },
            _ => Stage::Failed { error: ExtractError::UnexpectedReply },
        },
        Stage::ReadingEnvironment { address } => match reply {
            Reply::Address(parameters) => Stage::ReadingParameters { address: parameters },
            Reply::Failed { code, message } => Stage::Failed {
                error: ExtractError::ReadFailed { code },
            },
            _ => Stage::Failed { error: ExtractError::UnexpectedReply },
        },
        Stage::ReadingParameters { address } => match reply {
            Reply::Parameters { command_line, image_path } => Stage::ReadingCommandLine {
                command_line,
                image_path,
            },
            Reply::Failed { code, message } => Stage::Failed {
                error: ExtractError::ReadFailed { code },
            },
            _ => Stage::Failed { error: ExtractError::UnexpectedReply },
        },
        Stage::ReadingCommandLine { command_line, image_path } => match reply {
            Reply::Bytes(bytes) => if bytes@.len() != command_line.length {
                Stage::Failed { error: ExtractError::Truncated }
            } else if wide_text(bytes@) is None {
                Stage::Failed { error: ExtractError::InvalidText }
            } else {
                Stage::ReadingImagePath { image_path }
            },
            Reply::Failed { code, message } => Stage::Failed {
                error: ExtractError::ReadFailed { code },
            },
            _ => Stage::Failed { error: ExtractError::UnexpectedReply },
        },
        Stage::ReadingImagePath { image_path } => match reply {
            Reply::Bytes(bytes) => if bytes@.len() != image_path.length {
                Stage::Failed { error: ExtractError::Truncated }
            } else if wide_text(bytes@) is None {
                Stage::Failed { error: ExtractError::InvalidText }
            } else {
                Stage::Succeeded
            },
            Reply::Failed { code, message } => Stage::Failed {
                error: ExtractError::ReadFailed { code },
            },
            _ => Stage::Failed { error: ExtractError::UnexpectedReply },
        },
    }
}

/// The command line held aside after a reply to the request of `stage`:
/// the decoded text of the command-line buffer once it was read in full,
/// and what was held before in every other case.
pub open spec fn next_command_line(held: Seq<char>, stage: Stage, reply: Reply) -> Seq<char> {
    match (stage, reply) {
        (Stage::ReadingCommandLine { command_line, image_path }, Reply::Bytes(bytes)) => if bytes@.len()
            == command_line.length && wide_text(bytes@) is Some {
            wide_text(bytes@)->0
        } else {
            held
        },
        _ => held,
    }
}

/// The details after a reply to the request of `stage`.
///
/// A refusal to open for want of privilege puts the system's message in
/// the place of the path and of the arguments. An image path that was
/// read and decoded becomes the path, and with it the command line that
/// was held aside becomes the arguments. Everything else leaves the
/// details as they are: they change only in a step that ends the
/// extraction with success.
pub open spec fn next_info(info: Info, held: Seq<char>, stage: Stage, reply: Reply) -> Info {
    match (stage, reply) {
        (Stage::Opening, Reply::Failed { code, message }) => if code == ACCESS_DENIED {
            Info { name: info.name, path: message@, arg: message@ }
        } else {
            info
        },
        (Stage::ReadingImagePath { image_path }, Reply::Bytes(bytes)) => if bytes@.len()
            == image_path.length && wide_text(bytes@) is Some {
            Info { name: info.name, path: wide_text(bytes@)->0, arg: held }
        } else {
            info
        },
        _ => info,
    }
}

/// Whether a handle is open after a reply to the request of `stage`.
pub open spec fn next_opened(opened: bool, stage: Stage, reply: Reply) -> bool {
    opened || (stage is Opening && reply is Opened)
}

impl Stage {
    /// True once nothing more is asked.
    pub fn is_done(&self) -> (done: bool)
        ensures
            done == (*self is Succeeded || *self is Failed),
    {
        match self {
            Stage::Succeeded => true,
            Stage::Failed { .. } => true,
            _ => false,
        }
    }
}

impl Extraction {
    /// Unless the extraction has ended with success, the details are as
    /// `begin` was given them. `begin` makes this hold and `advance` keeps
    /// it.
    pub open spec fn keeps_given(&self) -> bool {
        self.stage !is Succeeded ==> self.info@ == self.given@
    }

    /// Starts the extraction for `pid`, which fills in `info`. Pid 0 is no
    /// real process: its extraction is through at once, asks for nothing
    /// and leaves `info` as it is.
    pub fn begin(pid: u32, info: ProcessInfo) -> (e: Extraction)
        ensures
            e.pid == pid,
            e.info == info,
            e.given@ == info@,
            e.keeps_given(),
            e.command_line@ == Seq::<char>::empty(),
            !e.opened,
            e.stage == (if pid == 0 {
                Stage::Succeeded
            } else {
                Stage::Opening
            }),
    {
        let stage = if pid == 0 {
            Stage::Succeeded
        } else {
            Stage::Opening
        };
        let given = Ghost(info@);
        Extraction { pid, stage, opened: false, info, command_line: String::new(), given }
    }

    /// What the caller is to do next.
    pub fn request(&self) -> (r: Request)
        ensures
            r == request_of(self.pid, self.stage, self.opened),
    {
        match self.stage {
            Stage::Opening => Request::Open { pid: self.pid },
            Stage::Querying => Request::QueryBasicInformation,
            Stage::ReadingEnvironment { address } => Request::ReadEnvironmentBlock { address },
            Stage::ReadingParameters { address } => Request::ReadParameters { address },
            Stage::ReadingCommandLine { command_line, image_path } => Request::ReadText {
                address: command_line.address,
                length: command_line.length,
            },
            Stage::ReadingImagePath { image_path } => Request::ReadText {
                address: image_path.address,
                length: image_path.length,
            },
            Stage::Succeeded => Request::Finish { release: self.opened },
            Stage::Failed { error } => Request::Finish { release: self.opened },
        }
    }

    /// Takes the answer to the current request.
    ///
    /// The details stay as they are unless this step ends the extraction
    /// with success. A command line that was read is held aside; it
    /// becomes the arguments in the step in which the image path becomes
    /// the path.
    pub fn advance(self, reply: Reply) -> (e: Extraction)
        ensures
            e.pid == self.pid,
            e.stage == next_stage(self.stage, reply),
            e.opened == next_opened(self.opened, self.stage, reply),
            e.info@ == next_info(self.info@, self.command_line@, self.stage, reply),
            e.command_line@ == next_command_line(self.command_line@, self.stage, reply),
            e.stage !is Succeeded ==> e.info@ == self.info@,
            e.given == self.given,
            self.keeps_given() ==> e.keeps_given(),
    {
        let Extraction { pid, stage, opened, info, command_line: held, given } = self;
        match stage {
            Stage::Succeeded => Extraction { pid, stage, opened, info, command_line: held, given },
            Stage::Failed { error } => Extraction { pid, stage, opened, info, command_line: held, given },
            Stage::Opening => match reply {
                Reply::Opened => Extraction {
                    pid,
                    stage: Stage::Querying,
                    opened: true,
                    info,
                    command_line: held,
                    given,
                },
                Reply::Failed { code, message } => {
                    if code == ACCESS_DENIED {
                        let ProcessInfo { name, path, arg } = info;
                        let degraded = ProcessInfo { name, path: message.clone(), arg: message };
                        Extraction {
                            pid,
                            stage: Stage::Succeeded,
                            opened,
                            info: degraded,
                            command_line: held,
                            given,
                        }
                    } else {
                        ended(pid, opened, info, held, given, ExtractError::OpenFailed { code })
                    }
                },
                _ => ended(pid, opened, info, held, given, ExtractError::UnexpectedReply),
            },
            Stage::Querying => match reply {
                Reply::Address(address) => Extraction {
                    pid,
                    stage: Stage::ReadingEnvironment { address },
                    opened,
                    info,
                    command_line: held,
                    given,
                },
                Reply::Failed { code, message } => ended(
                    pid,
                    opened,
                    info,
                    held,
                    given,
                    ExtractError::ReadFailed { code },
                ),
                _ => ended(pid, opened, info, held, given, ExtractError::UnexpectedReply),
            },
            Stage::ReadingEnvironment { address } => match reply {
                Reply::Address(parameters) => Extraction {
                    pid,
                    stage: Stage::ReadingParameters { address: parameters },
                    opened,
                    info,
                    command_line: held,
                    given,
                },
                Reply::Failed { code, message } => ended(
                    pid,
                    opened,
                    info,
                    held,
                    given,
                    ExtractError::ReadFailed { code },
                ),
                _ => ended(pid, opened, info, held, given, ExtractError::UnexpectedReply),
            },
            Stage::ReadingParameters { address } => match reply {
                Reply::Parameters { command_line, image_path } => Extraction {
                    pid,
                    stage: Stage::ReadingCommandLine { command_line, image_path },
                    opened,
                    info,
                    command_line: held,
                    given,
                },
                Reply::Failed { code, message } => ended(
                    pid,
                    opened,
                    info,
                    held,
                    given,
                    ExtractError::ReadFailed { code },
                ),
                _ => ended(pid, opened, info, held, given, ExtractError::UnexpectedReply),
            },
            Stage::ReadingCommandLine { command_line, image_path } => match reply {
                Reply::Bytes(bytes) => {
                    if bytes.len() != command_line.length as usize {
                        ended(pid, opened, info, held, given, ExtractError::Truncated)
                    } else {
                        match decode_wide(bytes.as_slice()) {
                            Some(text) => Extraction {
                                pid,
                                stage: Stage::ReadingImagePath { image_path },
                                opened,
                                info,
                                command_line: text,
                                given,
                            },
                            None => ended(pid, opened, info, held, given, ExtractError::InvalidText),
                        }
                    }
                },
                Reply::Failed { code, message } => ended(
                    pid,
                    opened,
                    info,
                    held,
                    given,
                    ExtractError::ReadFailed { code },
                ),
                _ => ended(pid, opened, info, held, given, ExtractError::UnexpectedReply),
            },
            Stage::ReadingImagePath { image_path } => match reply {
                Reply::Bytes(bytes) => {
                    if bytes.len() != image_path.length as usize {
                        ended(pid, opened, info, held, given, ExtractError::Truncated)
                    } else {
                        match decode_wide(bytes.as_slice()) {
                            Some(text) => {
                                let ProcessInfo { name, path, arg } = info;
                                let filled = ProcessInfo { name, path: text, arg: held.clone() };
                                Extraction {
                                    pid,
                                    stage: Stage::Succeeded,
                                    opened,
                                    info: filled,
                                    command_line: held,
                                    given,
                                }
                            },
                            None => ended(pid, opened, info, held, given, ExtractError::InvalidText),
                        }
                    }
                },
                Reply::Failed { code, message } => ended(
                    pid,
                    opened,
                    info,
                    held,
                    given,
                    ExtractError::ReadFailed { code },
                ),
                _ => ended(pid, opened, info, held, given, ExtractError::UnexpectedReply),
            },
        }
    }

    /// Ends the extraction: the details, and whether they were filled in.
    /// An extraction that is ended before it is through counts as failed.
    /// Beside an error the details are those that `begin` was given: both
    /// path and arguments are set, or neither.
    pub fn finish(self) -> (r: (ProcessInfo, Result<(), ExtractError>))
        ensures
            r.0 == self.info,
            r.1 == (match self.stage {
                Stage::Succeeded => Ok::<(), ExtractError>(()),
                Stage::Failed { error } => Err::<(), ExtractError>(error),
                _ => Err::<(), ExtractError>(ExtractError::Unfinished),
            }),
            self.keeps_given() && r.1 is Err ==> r.0@ == self.given@,
    {
        let Extraction { pid, stage, opened, info, command_line, given } = self;
        let result = match stage {
            Stage::Succeeded => Ok(()),
            Stage::Failed { error } => Err(error),
            _ => Err(ExtractError::Unfinished),
        };
        (info, result)
    }
}

/// The extraction that has failed with `error`: details and held text are
/// as they were.
fn ended(
    pid: u32,
    opened: bool,
    info: ProcessInfo,
    held: String,
    given: Ghost<Info>,
    error: ExtractError,
) -> (e: Extraction)
    ensures
        e.pid == pid,
        e.stage == (Stage::Failed { error }),
        e.opened == opened,
        e.info == info,
        e.command_line == held,
        e.given == given,
{
    Extraction { pid, stage: Stage::Failed { error }, opened, info, command_line: held, given }
}

/// The details after the replies were taken one after the other, from
/// the given stage on.
pub open spec fn info_after(info: Info, held: Seq<char>, stage: Stage, replies: Seq<Reply>) -> Info
    decreases replies.len(),
{
    if replies.len() == 0 {
        info
    } else {
        info_after(
            next_info(info, held, stage, replies[0]),
            next_command_line(held, stage, replies[0]),
            next_stage(stage, replies[0]),
            replies.skip(1),
        )
    }
}

/// The stage after the replies were taken one after the other.
pub open spec fn stage_after(stage: Stage, replies: Seq<Reply>) -> Stage
    decreases replies.len(),
{
    if replies.len() == 0 {
        stage
    } else {
        stage_after(next_stage(stage, replies[0]), replies.skip(1))
    }
}

/// The details change only in a step that ends the extraction with
/// success: whatever the stage, the text held aside and the reply, a
/// step that leads elsewhere leaves them as they are.
pub proof fn lemma_step_keeps_details(info: Info, held: Seq<char>, stage: Stage, reply: Reply)
    ensures
        next_stage(stage, reply) !is Succeeded ==> next_info(info, held, stage, reply) == info,
        stage is Succeeded ==> next_stage(stage, reply) is Succeeded && next_info(
            info,
            held,
            stage,
            reply,
        ) == info,
{
}

/// Extraction is all or nothing: whatever replies come, an extraction
/// that has not ended with success holds the details with which it
/// began. So `finish` returns, beside every error, the details that
/// `begin` was given: both path and arguments are set, or neither.
pub proof fn lemma_failure_keeps_details(
    info: Info,
    held: Seq<char>,
    stage: Stage,
    replies: Seq<Reply>,
)
    requires
        stage !is Succeeded,
    ensures
        stage_after(stage, replies) !is Succeeded ==> info_after(info, held, stage, replies) == info,
    decreases replies.len(),
{
    if replies.len() > 0 {
        let reply = replies[0];
        lemma_step_keeps_details(info, held, stage, reply);
        let next = next_stage(stage, reply);
        if next is Succeeded {
            lemma_success_stays(
                next_info(info, held, stage, reply),
                next_command_line(held, stage, reply),
                next,
                replies.skip(1),
            );
        } else {
            lemma_failure_keeps_details(
                next_info(info, held, stage, reply),
                next_command_line(held, stage, reply),
                next,
                replies.skip(1),
            );
        }
    }
}

/// Success is final: no later reply changes the stage or the details.
pub proof fn lemma_success_stays(info: Info, held: Seq<char>, stage: Stage, replies: Seq<Reply>)
    requires
        stage is Succeeded,
    ensures
        stage_after(stage, replies) is Succeeded,
        info_after(info, held, stage, replies) == info,
    decreases replies.len(),
{
    if replies.len() > 0 {
        lemma_success_stays(
            next_info(info, held, stage, replies[0]),
            next_command_line(held, stage, replies[0]),
            next_stage(stage, replies[0]),
            replies.skip(1),
        );
    }
}

/// The law of degraded extraction: a refusal to open the process for want
/// of privilege is no error. The extraction succeeds, the system's message
/// stands for the path and for the arguments, the name stays, and no
/// handle is left to release.
pub proof fn lemma_access_denied_degrades(info: Info, message: String)
    ensures
        next_stage(Stage::Opening, Reply::Failed { code: ACCESS_DENIED, message })
            == Stage::Succeeded,
        forall|held: Seq<char>|
            #[trigger] next_info(
                info,
                held,
                Stage::Opening,
                Reply::Failed { code: ACCESS_DENIED, message },
            ) == (Info { name: info.name, path: message@, arg: message@ }),
        !next_opened(false, Stage::Opening, Reply::Failed { code: ACCESS_DENIED, message }),
{
}

/// Every failure ends the extraction: whatever the stage, a failed call
/// leads to a stage that asks for nothing more, and it never changes the
/// details unless it is the refusal that degrades them.
pub proof fn lemma_failure_ends(
    info: Info,
    held: Seq<char>,
    stage: Stage,
    code: i32,
    message: String,
)
    ensures
        next_stage(stage, Reply::Failed { code, message }) is Succeeded || next_stage(
            stage,
            Reply::Failed { code, message },
        ) is Failed,
        !(stage is Opening && code == ACCESS_DENIED) ==> next_info(
            info,
            held,
            stage,
            Reply::Failed { code, message },
        ) == info,
        (stage !is Succeeded && !(stage is Opening && code == ACCESS_DENIED)) ==> next_stage(
            stage,
            Reply::Failed { code, message },
        ) is Failed,
{
}

/// A handle counts as open from the moment the process was opened, and it
/// stays so: once open, every later request to finish asks for its
/// release, and before that none does.
pub proof fn lemma_release(pid: u32, stage: Stage, opened: bool, reply: Reply)
    ensures
        opened ==> next_opened(opened, stage, reply),
        next_opened(opened, stage, reply) ==> opened || (stage is Opening && reply is Opened),
        (stage is Succeeded || stage is Failed) ==> request_of(pid, stage, opened)
            == (Request::Finish { release: opened }),
        request_of(pid, stage, opened) is Finish ==> (stage is Succeeded || stage is Failed),
{
}

/// A text buffer is read in one bounded read of exactly the length that
/// its descriptor gives.
pub proof fn lemma_reads_are_bounded(pid: u32, stage: Stage, opened: bool)
    ensures
        stage matches Stage::ReadingCommandLine { command_line, image_path } ==> request_of(
            pid,
            stage,
            opened,
        ) == (Request::ReadText { address: command_line.address, length: command_line.length }),
        stage matches Stage::ReadingImagePath { image_path } ==> request_of(pid, stage, opened) == (
        Request::ReadText { address: image_path.address, length: image_path.length }),
{
}

} // verus!
