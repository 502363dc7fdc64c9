//! How the program as a whole goes about its two jobs: streaming, and taking a single picture.
use vstd::prelude::*;
use vstd::string::StringExecFns;

verus! {

/// How many threads there are to wait for.
pub const THREADS: usize = 2;

/// What to do about the file that a picture goes to.
#[derive(Clone, Copy, Debug, PartialEq, Eq, Structural)]
pub enum CapturePlan {
    /// It is there, and is deleted.
    Replace,
    /// It is there, and is left alone. There will be no picture.
    Refuse,
    /// It is not there, and is made.
    Create,
}

/// What to do about the file that a picture goes to.
pub fn plan_capture(overwrite: bool, exists_already: bool) -> (plan: CapturePlan)
    ensures
        plan == (if !exists_already {
            CapturePlan::Create
        } else if overwrite {
            CapturePlan::Replace
        } else {
            CapturePlan::Refuse
        }),
{
    match (overwrite, exists_already) {
        (true, true) => CapturePlan::Replace,
        (false, true) => CapturePlan::Refuse,
        (_, false) => CapturePlan::Create,
    }
}

/// What to tell the user when a file is left alone.
pub fn refusal(file: &str) -> (message: String)
    ensures
        message@ == "'"@ + file@
            + "' appears to exist. Capturing can automatically overwrite the specified file via the --overwrite flag"@,
{
    let mut message = "'".to_owned();
    message.append(file);
    message.append(
        "' appears to exist. Capturing can automatically overwrite the specified file via the --overwrite flag",
    );
    message
}

/// What the main thread does next while the others run.
#[derive(Clone, Copy, Debug, PartialEq, Eq, Structural)]
pub enum Supervision {
    /// Waits until another thread has ended; so many have.
    Wait(usize),
    /// All threads have ended.
    Complete,
    /// The threads can no longer be heard of.
    Lost,
}

/// What the main thread does first.
pub fn supervise() -> (next: Supervision)
    ensures
        next == Supervision::Wait(0),
{
    Supervision::Wait(0)
}

/// What the main thread does after it has waited with `completed` threads done, and one more has ended; or,
/// where `heard` does not hold, after none will be heard of.
pub fn after_wait(completed: usize, heard: bool) -> (next: Supervision)
    requires
        completed < THREADS,
    ensures
        next == (if !heard {
            Supervision::Lost
        } else if completed + 1 == THREADS {
            Supervision::Complete
        } else {
            Supervision::Wait((completed + 1) as usize)
        }),
{
    if !heard {
        Supervision::Lost
    } else if completed + 1 == THREADS {
        Supervision::Complete
    } else {
        Supervision::Wait(completed + 1)
    }
}

/// A file that is there is never lost without a request, and there is always a picture where the file is not there
/// or may be replaced.
pub proof fn law_capture(overwrite: bool, exists_already: bool, plan: CapturePlan)
    requires
        call_ensures(plan_capture, (overwrite, exists_already), plan),
    ensures
        plan is Replace <==> overwrite && exists_already,
        plan is Refuse <==> !overwrite && exists_already,
        plan is Create <==> !exists_already,
{
}

/// The user is told which file is left alone, and how to have it replaced.
pub proof fn law_refusal(file: &str, message: String)
    requires
        call_ensures(refusal, (file,), message),
    ensures
        message@.len() == file@.len() + 102,
        message@[0] == '\'',
        message@.subrange(1, 1 + file@.len() as int) == file@,
        message@.skip(1 + file@.len() as int)
            == "' appears to exist. Capturing can automatically overwrite the specified file via the --overwrite flag"@,
{
    reveal_strlit("'");
    reveal_strlit(
        "' appears to exist. Capturing can automatically overwrite the specified file via the --overwrite flag",
    );
    let told =
        "' appears to exist. Capturing can automatically overwrite the specified file via the --overwrite flag"@;
    assert(message@.subrange(1, 1 + file@.len() as int) =~= file@);
    assert(message@.skip(1 + file@.len() as int) =~= told);
}

/// Two threads are waited for, one after the other; when the second one has ended, or the threads can no longer be
/// heard of, there is no more waiting.
pub proof fn law_supervision(
    first: Supervision,
    heard: bool,
    second: Supervision,
    heard_again: bool,
    third: Supervision,
)
    requires
        call_ensures(supervise, (), first),
        first matches Supervision::Wait(n) ==> call_ensures(after_wait, (n, heard), second),
        second matches Supervision::Wait(n) ==> call_ensures(after_wait, (n, heard_again), third),
    ensures
        first == Supervision::Wait(0),
        heard ==> second == Supervision::Wait(1),
        !heard ==> second == Supervision::Lost,
        heard && heard_again ==> third == Supervision::Complete,
        heard && !heard_again ==> third == Supervision::Lost,
{
}

} // verus!
