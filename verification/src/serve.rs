//! The web interface: what a request asks for, and how a press that it asks for
//! goes on from step to step.

use crate::button;
use crate::button::Button;
use crate::command;
use crate::json;
use crate::text;
use vstd::prelude::*;

verus! {

/// The method of a request, as far as it matters.
#[derive(Copy, Clone, Debug, PartialEq, Eq, Structural)]
pub enum Verb {
    Get,
    Post,
    Other,
}

/// What a request asks for.
#[derive(Debug)]
pub enum Route {
    /// The page.
    Index,
    /// A press of the button of this name.
    Press(String),
    /// A press of the command byte that this text stands for.
    Raw(String),
    /// Nothing that there is.
    NotFound,
}

/// The last part of a path: not empty, and without slashes.
pub open spec fn is_segment(part: Seq<char>) -> bool {
    part.len() > 0 && !part.contains('/')
}

/// The request asks for the page.
pub open spec fn asks_for_page(verb: Verb, url: Seq<char>) -> bool {
    verb == Verb::Get && (url == "/"@ || url == "/index.html"@)
}

/// The request asks for a press of `target`, below `prefix`.
pub open spec fn asks_for(verb: Verb, url: Seq<char>, prefix: Seq<char>, target: Seq<char>) -> bool {
    verb == Verb::Post && url == prefix + target && is_segment(target)
}

/// The last part of a path below `prefix`, where it is one.
fn segment_below(url: &str, prefix: &str) -> (target: Option<String>)
    ensures
        match target {
            Some(target) => url@ == prefix@ + target@ && is_segment(target@),
            None => forall|target: Seq<char>|
                is_segment(target) ==> url@ != #[trigger] (prefix@ + target),
        },
{
    match text::without_prefix(url, prefix) {
        None => {
            assert forall|target: Seq<char>| is_segment(target) implies url@ != #[trigger] (prefix@
                + target) by {
                if url@ == prefix@ + target {
                    assert(prefix@.is_prefix_of(url@)) by {
                        assert(url@.subrange(0, prefix@.len() as int) =~= prefix@);
                    }
                }
            }
            None
        },
        Some(rest) => {
            assert forall|target: Seq<char>| url@ == #[trigger] (prefix@ + target) implies target
                == rest@ by {
                assert(target =~= url@.skip(prefix@.len() as int));
                assert(rest@ =~= url@.skip(prefix@.len() as int));
            }
            if rest.is_empty() || text::contains_char(rest, '/') {
                None
            } else {
                Some(rest.to_owned())
            }
        },
    }
}

/// Finds out what a request asks for.
pub fn route(verb: Verb, url: &str) -> (route: Route)
    ensures
        match route {
            Route::Index => asks_for_page(verb, url@),
            Route::Press(target) => asks_for(verb, url@, "/press/"@, target@),
            Route::Raw(target) => asks_for(verb, url@, "/raw/"@, target@),
            Route::NotFound => {
                &&& !asks_for_page(verb, url@)
                &&& forall|target: Seq<char>| !#[trigger] asks_for(verb, url@, "/press/"@, target)
                &&& forall|target: Seq<char>| !#[trigger] asks_for(verb, url@, "/raw/"@, target)
            },
        },
        route is Index <==> verb == Verb::Get && (url@ == "/"@ || url@ == "/index.html"@),
        route matches Route::Press(target) ==> verb == Verb::Post && url@ == "/press/"@ + target@
            && target@.len() > 0 && !target@.contains('/'),
        route matches Route::Raw(target) ==> verb == Verb::Post && url@ == "/raw/"@ + target@
            && target@.len() > 0 && !target@.contains('/'),
        route is NotFound && verb == Verb::Post ==> forall|target: Seq<char>|
            target.len() > 0 && !target.contains('/') ==> url@ != #[trigger] ("/press/"@ + target)
                && url@ != "/raw/"@ + target,
{
    match verb {
        Verb::Get => if text::same_text(url, "/") || text::same_text(url, "/index.html") {
            Route::Index
        } else {
            Route::NotFound
        },
        Verb::Post => match segment_below(url, "/press/") {
            Some(target) => Route::Press(target),
            None => match segment_below(url, "/raw/") {
                Some(target) => Route::Raw(target),
                None => {
                    assert forall|target: Seq<char>|
                        target.len() > 0 && !target.contains('/') implies url@ != #[trigger] (
                    "/press/"@ + target) && url@ != "/raw/"@ + target by {
                        assert(!asks_for(verb, url@, "/press/"@, target));
                        assert(!asks_for(verb, url@, "/raw/"@, target));
                        assert(is_segment(target));
                        assert(url@ != "/raw/"@ + target);
                    }
                    Route::NotFound
                },
            },
        },
        Verb::Other => Route::NotFound,
    }
}

/// No request asks for two things at once.
pub proof fn routes_exclude_each_other(
    verb: Verb,
    url: Seq<char>,
    button: Seq<char>,
    byte: Seq<char>,
)
    ensures
        !(asks_for_page(verb, url) && asks_for(verb, url, "/press/"@, button)),
        !(asks_for_page(verb, url) && asks_for(verb, url, "/raw/"@, byte)),
        !(asks_for(verb, url, "/press/"@, button) && asks_for(verb, url, "/raw/"@, byte)),
{
    reveal_strlit("/press/");
    reveal_strlit("/raw/");
    if asks_for(verb, url, "/press/"@, button) && asks_for(verb, url, "/raw/"@, byte) {
        assert(url[1] == 'p');
        assert(url[1] == 'r');
    }
}

/// What is to be sent for a request.
#[derive(Debug)]
pub struct Target {
    /// What to call it in the answer.
    pub label: String,
    pub cmd: u8,
}

/// How a request for a press is answered.
#[derive(Debug)]
pub enum Reply {
    /// There is no such button or byte.
    BadTarget(String),
    /// The counter could not be advanced.
    CounterFailed(String),
    /// The press could not be transmitted.
    TransmitFailed(String),
    /// The press was transmitted.
    Sent { label: String, counter: u8, samples: usize },
}

impl Reply {
    /// The status code of the answer.
    pub fn status(&self) -> (code: u16)
        ensures
            code == match self {
                Reply::BadTarget(_) => 400u16,
                Reply::CounterFailed(_) => 500u16,
                Reply::TransmitFailed(_) => 500u16,
                Reply::Sent { .. } => 200u16,
            },
    {
        match self {
            Reply::BadTarget(_) => 400,
            Reply::CounterFailed(_) => 500,
            Reply::TransmitFailed(_) => 500,
            Reply::Sent { .. } => 200,
        }
    }

    /// The error that the answer tells, where it tells one.
    pub fn error(&self) -> (error: Option<String>)
        ensures
            match self {
                Reply::BadTarget(reason) => error matches Some(error) && error@ == reason@,
                Reply::CounterFailed(reason) => error matches Some(error) && error@ == "counter: "@
                    + reason@,
                Reply::TransmitFailed(reason) => error matches Some(error) && error@ == reason@,
                Reply::Sent { .. } => error is None,
            },
    {
        match self {
            Reply::BadTarget(reason) => Some(reason.clone()),
            Reply::CounterFailed(reason) => {
                let mut error: String = "counter: ".to_owned();
                error.append(reason.as_str());
                Some(error)
            },
            Reply::TransmitFailed(reason) => Some(reason.clone()),
            Reply::Sent { .. } => None,
        }
    }
}

/// The body of an answer, as a JSON value: `ok`, and either the error or what was sent.
pub open spec fn reply_value(reply: Reply) -> serde_json::Value {
    match reply {
        Reply::BadTarget(reason) => failure_value(reason@),
        Reply::CounterFailed(reason) => failure_value("counter: "@ + reason@),
        Reply::TransmitFailed(reason) => failure_value(reason@),
        Reply::Sent { label, counter, samples } => json::json_object(
            seq![
                ("ok"@, json::json_flag(true)),
                ("button"@, json::json_string(label@)),
                ("counter"@, json::json_number(counter as u64)),
                ("samples"@, json::json_number(samples as u64)),
            ],
        ),
    }
}

/// The body of an answer that tells an error, as a JSON value.
pub open spec fn failure_value(error: Seq<char>) -> serde_json::Value {
    json::json_object(
        seq![("ok"@, json::json_flag(false)), ("error"@, json::json_string(error))],
    )
}

impl Reply {
    /// The body of the answer.
    pub fn body(&self) -> (body: String)
        ensures
            body@ == json::json_text(reply_value(*self)),
            match self {
                Reply::BadTarget(reason) => body@ == json::json_text(
                    json::json_object(
                        seq![
                            ("ok"@, json::json_flag(false)),
                            ("error"@, json::json_string(reason@)),
                        ],
                    ),
                ),
                Reply::CounterFailed(reason) => body@ == json::json_text(
                    json::json_object(
                        seq![
                            ("ok"@, json::json_flag(false)),
                            ("error"@, json::json_string("counter: "@ + reason@)),
                        ],
                    ),
                ),
                Reply::TransmitFailed(reason) => body@ == json::json_text(
                    json::json_object(
                        seq![
                            ("ok"@, json::json_flag(false)),
                            ("error"@, json::json_string(reason@)),
                        ],
                    ),
                ),
                Reply::Sent { label, counter, samples } => body@ == json::json_text(
                    json::json_object(
                        seq![
                            ("ok"@, json::json_flag(true)),
                            ("button"@, json::json_string(label@)),
                            ("counter"@, json::json_number(*counter as u64)),
                            ("samples"@, json::json_number(*samples as u64)),
                        ],
                    ),
                ),
            },
    {
        let mut members: Vec<(String, serde_json::Value)> = Vec::new();
        match self {
            Reply::Sent { label, counter, samples } => {
                members.push(("ok".to_owned(), json::flag_value(true)));
                members.push(("button".to_owned(), json::string_value(label.as_str())));
                members.push(("counter".to_owned(), json::number_value(*counter as u64)));
                members.push(("samples".to_owned(), json::number_value(*samples as u64)));
            },
            _ => {
                let error: String = self.error().unwrap();
                members.push(("ok".to_owned(), json::flag_value(false)));
                members.push(("error".to_owned(), json::string_value(error.as_str())));
            },
        }
        let ghost written = members@.map_values(
            |member: (String, serde_json::Value)| (member.0@, member.1),
        );
        proof {
            match self {
                Reply::Sent { label, counter, samples } => {
                    assert(written =~= seq![
                        ("ok"@, json::json_flag(true)),
                        ("button"@, json::json_string(label@)),
                        ("counter"@, json::json_number(*counter as u64)),
                        ("samples"@, json::json_number(*samples as u64)),
                    ]);
                },
                _ => {
                    assert(written.len() == 2);
                    assert(json::json_object(written) == reply_value(*self)) by {
                        let error = written[1].1;
                        assert(written =~= seq![
                            ("ok"@, json::json_flag(false)),
                            ("error"@, error),
                        ]);
                    }
                },
            }
        }
        json::value_text(&json::object_value(members))
    }
}

/// What is to be done next about a press.
#[derive(Debug)]
pub enum Step {
    /// Advance the counter.
    AdvanceCounter(Target),
    /// Transmit with this counter.
    Transmit(Target, u8),
    /// Answer.
    Answer(Reply),
}

/// Begins a press of the button of that name.
pub fn press_button(name: &str) -> (step: Step)
    ensures
        match step {
            Step::AdvanceCounter(target) => exists|button: Button|
                {
                    &&& #[trigger] button.name_spec() == name@
                    &&& target.label@ == name@
                    &&& target.cmd == button.command_spec()
                },
            Step::Answer(Reply::BadTarget(reason)) => {
                &&& forall|button: Button| #[trigger] button.name_spec() != name@
                &&& reason@ == button::unknown_button_message(name@)
            },
            _ => false,
        },
{
    match Button::from_name(name) {
        Ok(button) => {
            assert(button.name_spec() == name@);
            Step::AdvanceCounter(
                Target { label: button.name().to_owned(), cmd: button.command() },
            )
        },
        Err(reason) => Step::Answer(Reply::BadTarget(reason)),
    }
}

/// Begins a press of the command byte that `byte` stands for.
pub fn press_raw(byte: &str) -> (step: Step)
    ensures
        match step {
            Step::AdvanceCounter(target) => {
                &&& target.label@ == "raw"@
                &&& command::written_byte(byte@) == Some(target.cmd)
            },
            Step::Answer(Reply::BadTarget(reason)) => {
                &&& command::written_byte(byte@) is None
                &&& reason@ == match command::hex_part(byte@) {
                    Some(digits) => command::bad_byte_message(
                        byte@,
                        true,
                        command::byte_error(digits, 16),
                    ),
                    None => command::bad_byte_message(byte@, false, command::byte_error(byte@, 10)),
                }
                &&& "0x"@.is_prefix_of(byte@) || "0X"@.is_prefix_of(byte@) ==> reason@
                    == "invalid hex byte '"@ + byte@ + "': "@ + command::byte_error(
                    byte@.skip(2),
                    16,
                )
                &&& !("0x"@.is_prefix_of(byte@) || "0X"@.is_prefix_of(byte@)) ==> reason@
                    == "invalid byte '"@ + byte@ + "': "@ + command::byte_error(byte@, 10)
            },
            _ => false,
        },
{
    match command::parse_hex_byte(byte) {
        Ok(cmd) => Step::AdvanceCounter(Target { label: "raw".to_owned(), cmd }),
        Err(reason) => Step::Answer(Reply::BadTarget(reason)),
    }
}

/// Goes on once the counter has been advanced, or could not be.
pub fn counter_advanced(target: Target, counter: Result<u8, String>) -> (step: Step)
    ensures
        step == match counter {
            Ok(counter) => Step::Transmit(target, counter),
            Err(reason) => Step::Answer(Reply::CounterFailed(reason)),
        },
{
    match counter {
        Ok(counter) => Step::Transmit(target, counter),
        Err(reason) => Step::Answer(Reply::CounterFailed(reason)),
    }
}

/// Ends a press, from the number of samples that were sent or the reason why not.
pub fn transmitted(target: Target, counter: u8, samples: Result<usize, String>) -> (reply: Reply)
    ensures
        reply == match samples {
            Ok(samples) => Reply::Sent { label: target.label, counter, samples },
            Err(reason) => Reply::TransmitFailed(reason),
        },
{
    match samples {
        Ok(samples) => Reply::Sent { label: target.label, counter, samples },
        Err(reason) => Reply::TransmitFailed(reason),
    }
}

} // verus!
