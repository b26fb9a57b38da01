//! `sync`: commit, pull and push the git-backed memo directory.
//!
//! The decisions are a state machine: `step` takes the state and what the
//! last action gave, and returns the next state and the next action. The
//! program around this library performs the actions (looking for `.git`,
//! running `git -C <dir> ...`, reading the clock, printing) and reports
//! back, until the action is `Done`.
//!
//! The flow is: refuse with a setup guide when the directory is no git
//! repository; `git add -A`; commit with a timestamped message when anything
//! is staged; `git pull --no-rebase`, explaining merge conflicts and stopping
//! before the push; `git push`.
use vstd::prelude::*;
use crate::error::StplError;
use crate::store::StoreError;
use crate::text;

verus! {

/// Where a sync stands.
#[derive(Debug)]
pub enum SyncState {
    /// Nothing done yet.
    Start,
    /// Looking for `<dir>/.git`.
    Checking,
    /// Printing the setup guide.
    Guiding,
    /// Running `git add -A`.
    Adding,
    /// Running `git diff --cached --quiet`.
    Diffing,
    /// Reading the clock for the commit message.
    Timing,
    /// Running `git commit -m <message>`.
    Committing { message: String },
    /// Reporting the outcome of the commit step.
    Announcing,
    /// Running `git pull --no-rebase`.
    Pulling,
    /// Running `git ls-files --unmerged` after a failed pull.
    Inspecting { stderr: String, status: String },
    /// Reporting the pull.
    Pulled,
    /// Running `git push`.
    Pushing,
    /// Reporting the push.
    Pushed,
    /// Finished.
    Finished,
}

/// What the last action gave.
#[derive(Debug)]
pub enum SyncEvent {
    /// The sync begins.
    Begin,
    /// Whether `<dir>/.git` exists.
    Repo(bool),
    /// A git command ran: whether it succeeded, its exit status as text,
    /// whether its standard output was empty, and its standard error.
    Git { success: bool, status: String, stdout_empty: bool, stderr: String },
    /// git could not be started; the reason.
    Launch(String),
    /// The local time, as `%Y-%m-%d %H:%M:%S`.
    Clock(String),
    /// The message was printed.
    Printed,
}

/// What to do next.
#[derive(Debug)]
pub enum SyncAction {
    /// Look whether `<dir>/.git` exists.
    CheckRepo,
    /// Print this setup guide on stderr.
    Guide(String),
    /// Run `git -C <dir>` with these arguments.
    Git(Vec<String>),
    /// Read the local time.
    Clock,
    /// Print this success message.
    Say(String),
    /// Stop, with this outcome.
    Done(Result<(), StoreError>),
}

/// The setup guide for a directory that is no git repository.
pub open spec fn guide_text(dir: Seq<char>) -> Seq<char> {
    seq!['\''] + dir + "' is not a git repository.\n\n`stpl sync` keeps your notes in sync through a git remote (e.g. GitHub).\nSet it up once:\n\n  cd "@
        + dir
        + "\n  git init\n  git remote add origin <your-repo-url>\n  git add -A && git commit -m \"initial notes\"\n  git push -u origin main\n\nThen run `stpl sync` again."@
}

/// The error of a failed command: its trimmed standard error, or its exit
/// status when that is empty.
pub open spec fn failure_text(label: Seq<char>, stderr: Seq<char>, status: Seq<char>) -> Seq<char> {
    if text::trim(stderr).len() == 0 {
        label + " failed ("@ + status + seq![')']
    } else {
        label + " failed: "@ + text::trim(stderr)
    }
}

/// The error when git cannot be started.
pub open spec fn launch_text(reason: Seq<char>) -> Seq<char> {
    "failed to run git (is it installed and on $PATH?): "@ + reason
}

/// The error for an event that does not answer the pending action.
pub open spec fn unexpected_text() -> Seq<char> {
    "sync: unexpected reply to the pending step"@
}

/// The commit message for the local time `t`.
pub open spec fn commit_message(t: Seq<char>) -> Seq<char> {
    "stpl sync: "@ + t
}

/// `a` runs git with the arguments `args`.
pub open spec fn runs(a: SyncAction, args: Seq<Seq<char>>) -> bool {
    a matches SyncAction::Git(v) && v.deep_view() == args
}

/// `a` says `msg`.
pub open spec fn says(a: SyncAction, msg: Seq<char>) -> bool {
    a matches SyncAction::Say(m) && m@ == msg
}

/// `a` stops with the error message `msg`.
pub open spec fn fails_with(a: SyncAction, msg: Seq<char>) -> bool {
    a matches SyncAction::Done(r) && (r matches Err(e) && (e matches StoreError::Message(m) && m@ == msg))
}

/// The step from `s` on the event `e`, for the memo directory `dir`.
pub open spec fn next(s: SyncState, e: SyncEvent, dir: Seq<char>, r: (SyncState, SyncAction)) -> bool {
    match s {
        SyncState::Start => r.0 is Checking && r.1 is CheckRepo,
        SyncState::Finished => r.0 is Finished && fails_with(r.1, unexpected_text()),
        _ => match e {
            SyncEvent::Launch(why) => {
                &&& (s is Adding || s is Diffing || s is Committing || s is Pulling || s is Inspecting
                    || s is Pushing) ==> r.0 is Finished && fails_with(r.1, launch_text(why@))
                &&& !(s is Adding || s is Diffing || s is Committing || s is Pulling || s is Inspecting
                    || s is Pushing) ==> r.0 is Finished && fails_with(r.1, unexpected_text())
            },
            _ => step_on(s, e, dir, r),
        },
    }
}

/// The steps other than the start, the end, and a git that cannot be
/// started.
pub open spec fn step_on(s: SyncState, e: SyncEvent, dir: Seq<char>, r: (SyncState, SyncAction)) -> bool {
    match (s, e) {
        (SyncState::Checking, SyncEvent::Repo(true)) => r.0 is Adding && runs(r.1, seq!["add"@, "-A"@]),
        (SyncState::Checking, SyncEvent::Repo(false)) => r.0 is Guiding && (r.1 matches SyncAction::Guide(
            g,
        ) && g@ == guide_text(dir)),
        (SyncState::Guiding, SyncEvent::Printed) => r.0 is Finished && (r.1 matches SyncAction::Done(o)
            && (o matches Err(x) && (x matches StoreError::Stpl(StplError::NotAGitRepo(d)) && d@ == dir))),
        (SyncState::Adding, SyncEvent::Git { success, status, stdout_empty, stderr }) => if success {
            r.0 is Diffing && runs(r.1, seq!["diff"@, "--cached"@, "--quiet"@])
        } else {
            r.0 is Finished && fails_with(r.1, failure_text("git add -A"@, stderr@, status@))
        },
        (SyncState::Diffing, SyncEvent::Git { success, status, stdout_empty, stderr }) => if success {
            r.0 is Announcing && says(r.1, "nothing to commit"@)
        } else {
            r.0 is Timing && r.1 is Clock
        },
        (SyncState::Timing, SyncEvent::Clock(t)) => r.0 matches SyncState::Committing { message }
            && message@ == commit_message(t@) && runs(r.1, seq!["commit"@, "-m"@, commit_message(t@)]),
        (SyncState::Committing { message }, SyncEvent::Git { success, status, stdout_empty, stderr }) => if success {
            r.0 is Announcing && says(r.1, "committed local changes ("@ + message@ + seq![')'])
        } else {
            r.0 is Finished && fails_with(
                r.1,
                failure_text("git commit -m "@ + message@, stderr@, status@),
            )
        },
        (SyncState::Announcing, SyncEvent::Printed) => r.0 is Pulling && runs(r.1, seq!["pull"@, "--no-rebase"@]),
        (SyncState::Pulling, SyncEvent::Git { success, status, stdout_empty, stderr }) => if success {
            r.0 is Pulled && says(r.1, "pulled from remote"@)
        } else {
            (r.0 matches SyncState::Inspecting { stderr: e2, status: s2 } && e2@ == stderr@ && s2@ == status@)
                && runs(r.1, seq!["ls-files"@, "--unmerged"@])
        },
        (SyncState::Inspecting { stderr, status }, SyncEvent::Git { success: _, status: _, stdout_empty, stderr: _ }) => if stdout_empty {
            r.0 is Finished && fails_with(r.1, failure_text("git pull"@, stderr@, status@))
        } else {
            r.0 is Finished && (r.1 matches SyncAction::Done(o) && (o matches Err(x) && (x matches StoreError::Stpl(
                StplError::MergeConflict(d),
            ) && d@ == dir)))
        },
        (SyncState::Pulled, SyncEvent::Printed) => r.0 is Pushing && runs(r.1, seq!["push"@]),
        (SyncState::Pushing, SyncEvent::Git { success, status, stdout_empty, stderr }) => if success {
            r.0 is Pushed && says(r.1, "pushed to remote"@)
        } else {
            r.0 is Finished && fails_with(r.1, failure_text("git push"@, stderr@, status@))
        },
        (SyncState::Pushed, SyncEvent::Printed) => r.0 is Finished && (r.1 matches SyncAction::Done(o)
            && o is Ok),
        _ => r.0 is Finished && fails_with(r.1, unexpected_text()),
    }
}

/// Run git with the one argument `a`.
fn git1(a: &str) -> (r: SyncAction)
    ensures
        runs(r, seq![a@]),
{
    let mut v: Vec<String> = Vec::new();
    v.push(a.to_string());
    proof {
        assert(v.deep_view() =~= seq![a@]);
    }
    SyncAction::Git(v)
}

/// Run git with the arguments `a` and `b`.
fn git2(a: &str, b: &str) -> (r: SyncAction)
    ensures
        runs(r, seq![a@, b@]),
{
    let mut v: Vec<String> = Vec::new();
    v.push(a.to_string());
    v.push(b.to_string());
    proof {
        assert(v.deep_view() =~= seq![a@, b@]);
    }
    SyncAction::Git(v)
}

/// Run git with the arguments `a`, `b` and `c`.
fn git3(a: &str, b: &str, c: &str) -> (r: SyncAction)
    ensures
        runs(r, seq![a@, b@, c@]),
{
    let mut v: Vec<String> = Vec::new();
    v.push(a.to_string());
    v.push(b.to_string());
    v.push(c.to_string());
    proof {
        assert(v.deep_view() =~= seq![a@, b@, c@]);
    }
    SyncAction::Git(v)
}

/// Stop with the error message.
fn fail(msg: String) -> (r: (SyncState, SyncAction))
    ensures
        r.0 is Finished,
        fails_with(r.1, msg@),
{
    (SyncState::Finished, SyncAction::Done(Err(StoreError::Message(msg))))
}

/// The error of a failed command: `<label> failed: <stderr>` with the
/// standard error trimmed, or `<label> failed (<status>)` when it is empty.
pub fn output_error(label: &str, stderr: &str, status: &str) -> (r: String)
    ensures
        r@ == failure_text(label@, stderr@, status@),
{
    let c = text::chars_of(stderr);
    let (x, y) = text::trim_range(&c, 0, c.len());
    proof {
        assert(c@.subrange(0, c.len() as int) =~= c@);
    }
    let mut v = text::chars_of(label);
    if x == y {
        text::push_str(&mut v, " failed (");
        text::push_str(&mut v, status);
        v.push(')');
    } else {
        text::push_str(&mut v, " failed: ");
        text::push_range(&mut v, &c, x, y);
    }
    text::string_from_chars(v.as_slice())
}

/// The setup guide printed when the memo directory `dir` is no git
/// repository.
pub fn setup_guide(dir: &str) -> (r: String)
    ensures
        r@ == guide_text(dir@),
{
    let mut v: Vec<char> = vec!['\''];
    text::push_str(&mut v, dir);
    text::push_str(
        &mut v,
        "' is not a git repository.\n\n`stpl sync` keeps your notes in sync through a git remote (e.g. GitHub).\nSet it up once:\n\n  cd ",
    );
    text::push_str(&mut v, dir);
    text::push_str(
        &mut v,
        "\n  git init\n  git remote add origin <your-repo-url>\n  git add -A && git commit -m \"initial notes\"\n  git push -u origin main\n\nThen run `stpl sync` again.",
    );
    text::string_from_chars(v.as_slice())
}

/// One step of a sync of the memo directory `dir`: from the state and what
/// the last action gave, the next state and action.
pub fn step(s: SyncState, e: SyncEvent, dir: &str) -> (r: (SyncState, SyncAction))
    ensures
        next(s, e, dir@, r),
{
    match s {
        SyncState::Start => return (SyncState::Checking, SyncAction::CheckRepo),
        SyncState::Finished => return fail("sync: unexpected reply to the pending step".to_string()),
        _ => {},
    }
    if let SyncEvent::Launch(why) = e {
        let waiting = match s {
            SyncState::Adding | SyncState::Diffing | SyncState::Committing { .. } | SyncState::Pulling
            | SyncState::Inspecting { .. } | SyncState::Pushing => true,
            _ => false,
        };
        if waiting {
            let mut v: Vec<char> = Vec::new();
            text::push_str(&mut v, "failed to run git (is it installed and on $PATH?): ");
            text::push_str(&mut v, why.as_str());
            return fail(text::string_from_chars(v.as_slice()));
        }
        return fail("sync: unexpected reply to the pending step".to_string());
    }
    match (s, e) {
        (SyncState::Checking, SyncEvent::Repo(found)) => if found {
            (SyncState::Adding, git2("add", "-A"))
        } else {
            (SyncState::Guiding, SyncAction::Guide(setup_guide(dir)))
        },
        (SyncState::Guiding, SyncEvent::Printed) => (
            SyncState::Finished,
            SyncAction::Done(Err(StoreError::Stpl(StplError::NotAGitRepo(dir.to_string())))),
        ),
        (SyncState::Adding, SyncEvent::Git { success, status, stdout_empty: _, stderr }) => if success {
            (SyncState::Diffing, git3("diff", "--cached", "--quiet"))
        } else {
            fail(output_error("git add -A", stderr.as_str(), status.as_str()))
        },
        (SyncState::Diffing, SyncEvent::Git { success, status: _, stdout_empty: _, stderr: _ }) => if success {
            (SyncState::Announcing, SyncAction::Say("nothing to commit".to_string()))
        } else {
            (SyncState::Timing, SyncAction::Clock)
        },
        (SyncState::Timing, SyncEvent::Clock(t)) => {
            let mut v: Vec<char> = Vec::new();
            text::push_str(&mut v, "stpl sync: ");
            text::push_str(&mut v, t.as_str());
            let message = text::string_from_chars(v.as_slice());
            let action = git3("commit", "-m", message.as_str());
            (SyncState::Committing { message }, action)
        },
        (SyncState::Committing { message }, SyncEvent::Git { success, status, stdout_empty: _, stderr }) => {
            if success {
                let mut v: Vec<char> = Vec::new();
                text::push_str(&mut v, "committed local changes (");
                text::push_str(&mut v, message.as_str());
                v.push(')');
                assert(v@ =~= "committed local changes ("@ + message@ + seq![')']);
                (SyncState::Announcing, SyncAction::Say(text::string_from_chars(v.as_slice())))
            } else {
                let mut l: Vec<char> = Vec::new();
                text::push_str(&mut l, "git commit -m ");
                text::push_str(&mut l, message.as_str());
                let label = text::string_from_chars(l.as_slice());
                fail(output_error(label.as_str(), stderr.as_str(), status.as_str()))
            }
        },
        (SyncState::Announcing, SyncEvent::Printed) => (SyncState::Pulling, git2("pull", "--no-rebase")),
        (SyncState::Pulling, SyncEvent::Git { success, status, stdout_empty: _, stderr }) => if success {
            (SyncState::Pulled, SyncAction::Say("pulled from remote".to_string()))
        } else {
            (SyncState::Inspecting { stderr, status }, git2("ls-files", "--unmerged"))
        },
        (SyncState::Inspecting { stderr, status }, SyncEvent::Git { success: _, status: _, stdout_empty, stderr: _ }) => {
            if stdout_empty {
                fail(output_error("git pull", stderr.as_str(), status.as_str()))
            } else {
                (
                    SyncState::Finished,
                    SyncAction::Done(Err(StoreError::Stpl(StplError::MergeConflict(dir.to_string())))),
                )
            }
        },
        (SyncState::Pulled, SyncEvent::Printed) => (SyncState::Pushing, git1("push")),
        (SyncState::Pushing, SyncEvent::Git { success, status, stdout_empty: _, stderr }) => if success {
            (SyncState::Pushed, SyncAction::Say("pushed to remote".to_string()))
        } else {
            fail(output_error("git push", stderr.as_str(), status.as_str()))
        },
        (SyncState::Pushed, SyncEvent::Printed) => (SyncState::Finished, SyncAction::Done(Ok(()))),
        _ => fail("sync: unexpected reply to the pending step".to_string()),
    }
}

} // verus!
