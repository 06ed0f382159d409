//! The system update tab: what the button does and what the console shows
//! while the package cache is cleaned and the system is updated.

use vstd::prelude::*;
use crate::std_calls::utf8_strict;
use crate::text::{from_chars, push_str, to_chars};

verus! {

broadcast use vstd::string::group_string_axioms;

/// What the update tab shows.
#[derive(Debug, Clone)]
pub struct UpdateState {
    /// An update is running; the button is disabled meanwhile.
    pub updating: bool,
    /// The message beside the button.
    pub message: String,
    /// The text of the console.
    pub console: String,
}

/// What happened.
pub enum UpdateEvent {
    /// The system summary printed when the tab opened.
    SystemInfo(Vec<u8>),
    /// The button was pressed.
    Start,
    /// A line printed by the command that runs.
    Output(String),
    /// The cache cleaning ended.
    CleanFinished,
    /// The update ended, successfully or not.
    Finished(bool),
}

/// What to run next.
#[derive(Debug, Clone, Copy, PartialEq, Eq)]
pub enum UpdateAction {
    Nothing,
    /// Clean the package cache.
    CleanCache,
    /// Update the system.
    UpdateSystem,
}

/// The tab when it opens.
pub fn initial_state() -> (s: UpdateState)
    ensures
        !s.updating,
        s.message@ == Seq::<char>::empty(),
        s.console@ == "Loading..."@,
{
    UpdateState { updating: false, message: String::new(), console: "Loading...".to_owned() }
}

/// The tab after `e`, as character sequences: whether an update runs, the
/// message, the console.
pub open spec fn next_view(updating: bool, message: Seq<char>, console: Seq<char>, e: UpdateEvent) -> (
    bool,
    Seq<char>,
    Seq<char>,
) {
    match e {
        UpdateEvent::SystemInfo(bytes) => if vstd::utf8::valid_utf8(bytes@) {
            (updating, message, vstd::utf8::decode_utf8(bytes@))
        } else {
            (updating, message, console)
        },
        UpdateEvent::Start => if updating {
            (updating, message, console)
        } else {
            (true, "Updating..."@, "--- Cleaning Cache ---\n"@)
        },
        UpdateEvent::Output(line) => (updating, message, console + line@ + seq!['\n']),
        UpdateEvent::CleanFinished => (updating, message, console + "\n--- Updating System ---\n"@),
        UpdateEvent::Finished(ok) => (
            false,
            if ok { "Up to date"@ } else { "Something went wrong. Try again"@ },
            console,
        ),
    }
}

/// What is run after `e`.
pub open spec fn next_action(updating: bool, e: UpdateEvent) -> UpdateAction {
    match e {
        UpdateEvent::Start => if updating { UpdateAction::Nothing } else { UpdateAction::CleanCache },
        UpdateEvent::CleanFinished => UpdateAction::UpdateSystem,
        _ => UpdateAction::Nothing,
    }
}

/// The tab after `e`, and what to run next.
pub fn step(s: UpdateState, e: UpdateEvent) -> (r: (UpdateState, UpdateAction))
    ensures
        (r.0.updating, r.0.message@, r.0.console@) == next_view(s.updating, s.message@, s.console@, e),
        r.1 == next_action(s.updating, e),
{
    let UpdateState { updating, message, console } = s;
    match e {
        UpdateEvent::SystemInfo(bytes) => {
            match utf8_strict(bytes) {
                Some(text) => (UpdateState { updating, message, console: text }, UpdateAction::Nothing),
                None => (UpdateState { updating, message, console }, UpdateAction::Nothing),
            }
        },
        UpdateEvent::Start => {
            if updating {
                (UpdateState { updating, message, console }, UpdateAction::Nothing)
            } else {
                (
                    UpdateState {
                        updating: true,
                        message: "Updating...".to_owned(),
                        console: "--- Cleaning Cache ---\n".to_owned(),
                    },
                    UpdateAction::CleanCache,
                )
            }
        },
        UpdateEvent::Output(line) => {
            let mut v = to_chars(console.as_str());
            push_str(&mut v, line.as_str());
            v.push('\n');
            proof { assert(v@ =~= console@ + line@ + seq!['\n']); }
            (UpdateState { updating, message, console: from_chars(&v) }, UpdateAction::Nothing)
        },
        UpdateEvent::CleanFinished => {
            let mut v = to_chars(console.as_str());
            push_str(&mut v, "\n--- Updating System ---\n");
            (UpdateState { updating, message, console: from_chars(&v) }, UpdateAction::UpdateSystem)
        },
        UpdateEvent::Finished(ok) => {
            let msg = if ok { "Up to date".to_owned() } else { "Something went wrong. Try again".to_owned() };
            (UpdateState { updating: false, message: msg, console }, UpdateAction::Nothing)
        },
    }
}

/// While an update runs, pressing the button changes nothing and starts
/// nothing.
pub proof fn law_no_second_update(message: Seq<char>, console: Seq<char>)
    ensures
        next_view(true, message, console, UpdateEvent::Start) == (true, message, console),
        next_action(true, UpdateEvent::Start) == UpdateAction::Nothing,
{
}

/// When the update ends, whatever state the tab was in, the button is
/// enabled again, the message says whether it went well, nothing more is
/// run, and the console keeps what it showed.
pub proof fn law_finish_enables(updating: bool, message: Seq<char>, console: Seq<char>, ok: bool)
    ensures
        next_view(updating, message, console, UpdateEvent::Finished(ok)).0 == false,
        next_view(updating, message, console, UpdateEvent::Finished(ok)).2 == console,
        ok ==> next_view(updating, message, console, UpdateEvent::Finished(ok)).1 == "Up to date"@,
        !ok ==> next_view(updating, message, console, UpdateEvent::Finished(ok)).1
            == "Something went wrong. Try again"@,
        next_action(updating, UpdateEvent::Finished(ok)) == UpdateAction::Nothing,
{
}

/// Output lines are added at the end of the console, each on a line of its
/// own: what the console showed stays in front.
pub proof fn law_output_appends(updating: bool, message: Seq<char>, console: Seq<char>, line: String)
    ensures
        next_view(updating, message, console, UpdateEvent::Output(line)).2.take(console.len() as int)
            == console,
{
    let c2 = console + line@ + seq!['\n'];
    assert(c2.take(console.len() as int) =~= console);
}

} // verus!
