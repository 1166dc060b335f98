use vstd::prelude::*;

use crate::messages::instruction::Instruction;
use crate::state::files::file_or_folder::EntryMetadata;

verus! {

/// How many times the scanner retries to hand over one entry while the
/// application's queue is full, before it gives up on that entry.
pub const MAX_SEND_RETRIES: u32 = 1000;

/// What came of one attempt to hand an instruction to the application.
#[derive(Debug, Clone, Copy, PartialEq, Eq, Structural)]
pub enum SendOutcome {
    Sent,
    Disconnected,
    Full,
}

/// What the scanner does after an attempt to hand over an entry.
#[derive(Debug, Clone, Copy, PartialEq, Eq, Structural)]
pub enum ScanStep {
    /// The entry was handed over: go on with the next one.
    NextEntry,
    /// The application is gone: stop scanning.
    StopScanning,
    /// The queue was full: pause, then try again with this retry count.
    RetryAfterPause { retry_count: u32 },
    /// The queue stayed full too long: skip this entry.
    GiveUpOnEntry,
}

/// The scanner's step after an attempt made with `retry_count` retries behind it.
pub open spec fn spec_scan_step(retry_count: u32, outcome: SendOutcome) -> ScanStep {
    match outcome {
        SendOutcome::Sent => ScanStep::NextEntry,
        SendOutcome::Disconnected => ScanStep::StopScanning,
        SendOutcome::Full => if retry_count + 1 > MAX_SEND_RETRIES {
            ScanStep::GiveUpOnEntry
        } else {
            ScanStep::RetryAfterPause { retry_count: (retry_count + 1) as u32 }
        },
    }
}

/// Decides the scanner's step after an attempt to hand over an entry.
pub fn scan_step(retry_count: u32, outcome: SendOutcome) -> (step: ScanStep)
    requires
        retry_count < u32::MAX,
    ensures
        step == spec_scan_step(retry_count, outcome),
        outcome is Sent ==> step == ScanStep::NextEntry,
        outcome is Disconnected ==> step == ScanStep::StopScanning,
        outcome is Full && retry_count < MAX_SEND_RETRIES ==> step == (ScanStep::RetryAfterPause {
            retry_count: (retry_count + 1) as u32,
        }),
        outcome is Full && retry_count >= MAX_SEND_RETRIES ==> step == ScanStep::GiveUpOnEntry,
{
    match outcome {
        SendOutcome::Sent => ScanStep::NextEntry,
        SendOutcome::Disconnected => ScanStep::StopScanning,
        SendOutcome::Full => {
            let retry_count = retry_count + 1;
            if retry_count > MAX_SEND_RETRIES {
                ScanStep::GiveUpOnEntry
            } else {
                ScanStep::RetryAfterPause { retry_count }
            }
        },
    }
}

/// The instruction for one entry of the walk: the entry with its metadata
/// and path where both could be read, else a read failure.
pub fn instruction_for_entry<E>(read: Option<(EntryMetadata, Vec<String>)>) -> (instruction: Instruction<E>)
    ensures
        match read {
            Some(entry) => instruction == Instruction::<E>::AddEntryToBaseFolder(entry),
            None => instruction is IncrementFailedToRead,
        },
{
    match read {
        Some(entry) => Instruction::AddEntryToBaseFolder(entry),
        None => Instruction::IncrementFailedToRead,
    }
}

/// Whether the loading animation shows another frame: while the application
/// runs and the scan has not finished.
pub fn keeps_animating(running: bool, loaded: bool) -> (go_on: bool)
    ensures
        go_on == (running && !loaded),
{
    running && !loaded
}

/// Once the application is gone the scan stops, however many retries came
/// before; an entry that was handed over leads to the next entry, whatever
/// the retry count.
pub proof fn lemma_outcome_decides_step(retry_count: u32)
    ensures
        spec_scan_step(retry_count, SendOutcome::Disconnected) == ScanStep::StopScanning,
        spec_scan_step(retry_count, SendOutcome::Sent) == ScanStep::NextEntry,
        spec_scan_step(retry_count, SendOutcome::Full) != ScanStep::StopScanning,
        spec_scan_step(retry_count, SendOutcome::Full) != ScanStep::NextEntry,
{
}

/// A scanner that keeps finding the queue full gives up on the entry after
/// exactly `MAX_SEND_RETRIES` retries: every retry count below the limit
/// leads to one more retry, and the limit leads to giving up.
pub proof fn lemma_retries_bounded(retry_count: u32)
    requires
        retry_count <= MAX_SEND_RETRIES,
    ensures
        retry_count < MAX_SEND_RETRIES ==> spec_scan_step(retry_count, SendOutcome::Full)
            == (ScanStep::RetryAfterPause { retry_count: (retry_count + 1) as u32 }),
        retry_count == MAX_SEND_RETRIES ==> spec_scan_step(retry_count, SendOutcome::Full)
            == ScanStep::GiveUpOnEntry,
{
}

} // verus!
