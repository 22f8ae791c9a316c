//! Classification of the event-name field of a log line.
use vstd::prelude::*;

verus! {

/// The kinds of event that the report is built from.
#[derive(PartialEq, Eq, Structural, Debug, Clone, Copy)]
pub enum EventType {
    InitGame,
    ClientUserinfoChanged,
    Kill,
    Unknown,
}

/// The kind named by an event token: the token without its last character
/// (the delimiter), matched case-sensitively; anything else is `Unknown`.
pub open spec fn classify(token: Seq<char>) -> EventType {
    if token.len() == 0 {
        EventType::Unknown
    } else {
        let body = token.drop_last();
        if body == "InitGame"@ {
            EventType::InitGame
        } else if body == "Kill"@ {
            EventType::Kill
        } else if body == "ClientUserinfoChanged"@ {
            EventType::ClientUserinfoChanged
        } else {
            EventType::Unknown
        }
    }
}

impl EventType {
    pub fn parse_from_string(event_name: &str) -> (r: EventType)
        ensures
            r == classify(event_name@),
    {
        let n = event_name.unicode_len();
        if n == 0 {
            return EventType::Unknown;
        }
        let body = event_name.substring_char(0, n - 1).to_owned();
        proof {
            assert(body@ =~= event_name@.drop_last());
        }
        if body == "InitGame".to_owned() {
            EventType::InitGame
        } else if body == "Kill".to_owned() {
            EventType::Kill
        } else if body == "ClientUserinfoChanged".to_owned() {
            EventType::ClientUserinfoChanged
        } else {
            EventType::Unknown
        }
    }
}

} // verus!
