//! Message records and the test for whether one is about a deleted user.
use vstd::prelude::*;

use crate::text::{chars_of, contains_phrase, has_phrase, lower_of, lowercase};

verus! {

/// One chat message.
#[derive(Clone, Debug)]
pub struct Message {
    pub message_id: String,
    pub content: String,
    pub timestamp: String,
    pub author_name: String,
    pub author_nickname: String,
    pub author_id: String,
    pub mentioned_user_name: Option<String>,
    pub mentioned_user_nickname: Option<String>,
}

fn copy_field(field: &Option<String>) -> (r: Option<String>)
    ensures
        r == *field,
{
    match field {
        Some(s) => Some(s.clone()),
        None => None,
    }
}

impl Message {
    /// A field-by-field copy.
    pub fn duplicate(&self) -> (r: Message)
        ensures
            r == *self,
    {
        Message {
            message_id: self.message_id.clone(),
            content: self.content.clone(),
            timestamp: self.timestamp.clone(),
            author_name: self.author_name.clone(),
            author_nickname: self.author_nickname.clone(),
            author_id: self.author_id.clone(),
            mentioned_user_name: copy_field(&self.mentioned_user_name),
            mentioned_user_nickname: copy_field(&self.mentioned_user_nickname),
        }
    }
}

/// The phrase that marks a deleted user's name, in lower case.
pub open spec fn deleted_phrase() -> Seq<char> {
    seq!['d', 'e', 'l', 'e', 't', 'e', 'd', ' ', 'u', 's', 'e', 'r']
}

/// Whether an optional name holds "deleted user", ignoring case.
pub open spec fn names_deleted_user(field: Option<String>) -> bool {
    match field {
        Some(name) => has_phrase(lower_of(name@), deleted_phrase()),
        None => false,
    }
}

/// Whether a message is about a deleted user: its mentioned user's name or nickname
/// holds "deleted user", ignoring case.
pub open spec fn is_relevant(m: Message) -> bool {
    names_deleted_user(m.mentioned_user_name) || names_deleted_user(m.mentioned_user_nickname)
}

/// The relevant messages of `msgs`, in their order.
pub open spec fn relevant_of(msgs: Seq<Message>) -> Seq<Message> {
    msgs.filter(|m: Message| is_relevant(m))
}

/// Whether an already lowercased name holds "deleted user".
pub fn holds_deleted_phrase(lowered: &str) -> (r: bool)
    ensures
        r == has_phrase(lowered@, deleted_phrase()),
{
    let hay = chars_of(lowered);
    let needle: Vec<char> = vec!['d', 'e', 'l', 'e', 't', 'e', 'd', ' ', 'u', 's', 'e', 'r'];
    assert(needle@ =~= deleted_phrase());
    contains_phrase(&hay, &needle)
}

fn field_names_deleted_user(field: &Option<String>) -> (r: bool)
    ensures
        r == names_deleted_user(*field),
{
    match field {
        Some(name) => {
            let lowered = lowercase(name.as_str());
            holds_deleted_phrase(lowered.as_str())
        },
        None => false,
    }
}

/// Whether the message is about a deleted user.
pub fn mentions_deleted_user(m: &Message) -> (r: bool)
    ensures
        r == is_relevant(*m),
{
    field_names_deleted_user(&m.mentioned_user_name) || field_names_deleted_user(
        &m.mentioned_user_nickname,
    )
}

/// Keeps the messages that are about a deleted user, in their order.
pub fn filter_relevant(msgs: Vec<Message>) -> (r: Vec<Message>)
    ensures
        r@ == relevant_of(msgs@),
{
    let mut out: Vec<Message> = Vec::new();
    let mut i: usize = 0;
    while i < msgs.len()
        invariant
            i <= msgs@.len(),
            out@ == relevant_of(msgs@.take(i as int)),
        decreases msgs@.len() - i,
    {
        proof {
            reveal(Seq::filter);
            assert(msgs@.take(i + 1).drop_last() =~= msgs@.take(i as int));
        }
        if mentions_deleted_user(&msgs[i]) {
            out.push(msgs[i].duplicate());
        }
        i = i + 1;
    }
    assert(msgs@.take(msgs@.len() as int) =~= msgs@);
    out
}

} // verus!
