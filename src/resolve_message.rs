use vstd::prelude::*;

verus! {

#[derive(Clone, Copy, Debug, PartialEq, Eq, Structural)]
pub enum ResolveMessageType {
    Error,
    Info,
    Output,
}

/// One line of output for the caller.
#[derive(Clone, Debug, PartialEq)]
pub struct ResolveMessage {
    pub msg_type: ResolveMessageType,
    pub content: String,
}

impl ResolveMessage {
    pub fn error(content: &str) -> (r: Self)
        ensures
            r.msg_type == ResolveMessageType::Error,
            r.content@ == content@,
    {
        Self { content: String::from_str(content), msg_type: ResolveMessageType::Error }
    }

    pub fn info(content: &str) -> (r: Self)
        ensures
            r.msg_type == ResolveMessageType::Info,
            r.content@ == content@,
    {
        Self { content: String::from_str(content), msg_type: ResolveMessageType::Info }
    }

    pub fn output(content: &str) -> (r: Self)
        ensures
            r.msg_type == ResolveMessageType::Output,
            r.content@ == content@,
    {
        Self { content: String::from_str(content), msg_type: ResolveMessageType::Output }
    }
}

/// The message is an error with this text.
pub open spec fn is_error(m: ResolveMessage, text: Seq<char>) -> bool {
    m.msg_type == ResolveMessageType::Error && m.content@ == text
}

} // verus!
