use vstd::prelude::*;

use crate::server::models::{
    msg_key, convo_key, spec_convo_key, spec_msg_key, Conversation, Message, RawContent,
    RawConversation, RawExport, RawMessage,
};
use crate::server::routes::{key_starts_with, lemma_scan_meets_exactly_own_messages};
use crate::server::models::spec_msg_prefix;
use crate::server::text::{str_eq, utf8};

verus! {

/// The Unicode `White_Space` property, by which std's `char::is_whitespace` and
/// `str::trim_start` decide what to skip.
pub open spec fn is_white_space(c: char) -> bool {
    let u = c as u32;
    ||| 0x09 <= u <= 0x0d
    ||| u == 0x20
    ||| u == 0x85
    ||| u == 0xa0
    ||| u == 0x1680
    ||| 0x2000 <= u <= 0x200a
    ||| u == 0x2028
    ||| u == 0x2029
    ||| u == 0x202f
    ||| u == 0x205f
    ||| u == 0x3000
}

fn is_white_space_exec(c: char) -> (r: bool)
    ensures
        r == is_white_space(c),
{
    let u = c as u32;
    (0x09 <= u && u <= 0x0d) || u == 0x20 || u == 0x85 || u == 0xa0 || u == 0x1680 || (0x2000
        <= u && u <= 0x200a) || u == 0x2028 || u == 0x2029 || u == 0x202f || u == 0x205f || u
        == 0x3000
}

/// True when the first character of `raw` that is not white space is `[`: the
/// export is then a bare list of conversations rather than an object around one.
pub open spec fn spec_is_bare_list(raw: Seq<char>) -> bool {
    exists|i: int|
        0 <= i < raw.len() && raw[i] == '[' && forall|j: int|
            0 <= j < i ==> is_white_space(#[trigger] raw[j])
}

/// Whether the export text is a bare list of conversations (its first
/// non-white-space character is `[`).
pub fn is_bare_list(raw: &str) -> (r: bool)
    ensures
        r == spec_is_bare_list(raw@),
{
    for c in it: raw.chars()
        invariant
            it.seq() == raw@,
            forall|j: int| 0 <= j < it.index() ==> is_white_space(#[trigger] raw@[j]),
    {
        if !is_white_space_exec(c) {
            proof {
                let i = it.index() as int;
                if spec_is_bare_list(raw@) {
                    let w = choose|w: int|
                        0 <= w < raw@.len() && raw@[w] == '[' && forall|j: int|
                            0 <= j < w ==> is_white_space(#[trigger] raw@[j]);
                    if w > i {
                        assert(is_white_space(raw@[i]));
                    }
                }
            }
            return c == '[';
        }
    }
    proof {
        if spec_is_bare_list(raw@) {
            let w = choose|w: int|
                0 <= w < raw@.len() && raw@[w] == '[' && forall|j: int|
                    0 <= j < w ==> is_white_space(#[trigger] raw@[j]);
            assert(is_white_space(raw@[w]));
        }
    }
    false
}

impl RawExport {
    /// The conversations that the export holds; none when it names none.
    pub fn into_conversations(self) -> (convos: Vec<RawConversation>)
        ensures
            convos@ == (match self.conversations {
                Some(v) => v@,
                None => Seq::empty(),
            }),
    {
        match self.conversations {
            Some(v) => v,
            None => Vec::new(),
        }
    }
}

/// Position of the first content block whose kind is `text`.
pub open spec fn first_text_block(content: Seq<RawContent>) -> Option<int>
    decreases content.len(),
{
    if content.len() == 0 {
        None
    } else {
        match first_text_block(content.drop_last()) {
            Some(i) => Some(i),
            None => if content.last().kind@ == "text"@ {
                Some(content.len() - 1)
            } else {
                None
            },
        }
    }
}

/// The text stored for a message: its top-level text when that is not empty, else
/// the text of its first `text` content block, else nothing.
pub open spec fn spec_message_text(raw: RawMessage) -> Seq<char> {
    if raw.text@.len() > 0 {
        raw.text@
    } else {
        match first_text_block(raw.content@) {
            Some(i) => raw.content@[i].text@,
            None => Seq::empty(),
        }
    }
}

/// Picks the text stored for a message.
pub fn message_text(raw: &RawMessage) -> (text: String)
    ensures
        text@ == spec_message_text(*raw),
{
    if !raw.text.as_str().is_empty() {
        return raw.text.clone();
    }
    let ghost content = raw.content@;
    let mut i: usize = 0;
    assert(content.take(0) =~= Seq::<RawContent>::empty());
    while i < raw.content.len()
        invariant
            content == raw.content@,
            raw.text@.len() == 0,
            i <= content.len(),
            first_text_block(content.take(i as int)) is None,
        decreases content.len() - i,
    {
        let ghost after = content.take(i + 1);
        assert(after.drop_last() =~= content.take(i as int));
        if str_eq(raw.content[i].kind.as_str(), "text") {
            proof {
                assert(after.last() == content[i as int]);
                assert(first_text_block(after) == Some(i as int));
                lemma_first_text_block_prefix(content, i as int + 1);
            }
            return raw.content[i].text.clone();
        }
        i = i + 1;
    }
    assert(content.take(content.len() as int) =~= content);
    String::new()
}

proof fn lemma_first_text_block_prefix(content: Seq<RawContent>, k: int)
    requires
        0 <= k <= content.len(),
        first_text_block(content.take(k)) is Some,
    ensures
        first_text_block(content) == first_text_block(content.take(k)),
    decreases content.len() - k,
{
    if k < content.len() {
        assert(content.take(k + 1).drop_last() =~= content.take(k));
        lemma_first_text_block_prefix(content, k + 1);
    } else {
        assert(content.take(k) =~= content);
    }
}

fn clone_option(s: &Option<String>) -> (r: Option<String>)
    ensures
        r == *s,
{
    match s {
        Some(v) => Some(v.clone()),
        None => None,
    }
}

/// The conversation record stored for an exported conversation.
pub fn conversation_from_raw(raw: &RawConversation) -> (c: Conversation)
    ensures
        c.uuid == raw.uuid,
        c.name == raw.name,
        c.summary == raw.summary,
        c.created_at == raw.created_at,
        c.updated_at == raw.updated_at,
        c.message_count == raw.chat_messages@.len(),
{
    Conversation {
        uuid: raw.uuid.clone(),
        name: raw.name.clone(),
        summary: raw.summary.clone(),
        created_at: raw.created_at.clone(),
        updated_at: raw.updated_at.clone(),
        message_count: raw.chat_messages.len(),
    }
}

/// The message record stored for an exported message of conversation `convo_uuid`.
pub fn message_from_raw(raw: &RawMessage, convo_uuid: &String) -> (m: Message)
    ensures
        m.uuid == raw.uuid,
        m.convo_uuid == *convo_uuid,
        m.text@ == spec_message_text(*raw),
        m.sender == raw.sender,
        m.created_at == raw.created_at,
        m.updated_at == raw.updated_at,
        m.parent_message_uuid == raw.parent_message_uuid,
{
    Message {
        uuid: raw.uuid.clone(),
        convo_uuid: convo_uuid.clone(),
        text: message_text(raw),
        sender: raw.sender.clone(),
        created_at: raw.created_at.clone(),
        updated_at: raw.updated_at.clone(),
        parent_message_uuid: clone_option(&raw.parent_message_uuid),
    }
}

/// What the import writes for one exported conversation: its record under its key,
/// and each of its messages' records under their keys, in export order.
pub struct ConversationRecords {
    pub key: String,
    pub convo: Conversation,
    pub messages: Vec<(String, Message)>,
}

/// True when `m` is the record stored for exported message `raw` of conversation
/// `c`.
pub open spec fn is_message_record(m: Message, raw: RawMessage, c: RawConversation) -> bool {
    &&& m.uuid == raw.uuid
    &&& m.convo_uuid == c.uuid
    &&& m.text@ == spec_message_text(raw)
    &&& m.sender == raw.sender
    &&& m.created_at == raw.created_at
    &&& m.updated_at == raw.updated_at
    &&& m.parent_message_uuid == raw.parent_message_uuid
}

/// True when `r` is what the import writes for exported conversation `raw`.
pub open spec fn is_conversation_records(r: ConversationRecords, raw: RawConversation) -> bool {
    &&& r.key@ == spec_convo_key(raw.uuid@)
    &&& r.convo.uuid == raw.uuid
    &&& r.convo.name == raw.name
    &&& r.convo.summary == raw.summary
    &&& r.convo.created_at == raw.created_at
    &&& r.convo.updated_at == raw.updated_at
    &&& r.convo.message_count == raw.chat_messages@.len()
    &&& r.messages@.len() == raw.chat_messages@.len()
    &&& forall|j: int|
        0 <= j < r.messages@.len() ==> {
            &&& (#[trigger] r.messages@[j]).0@ == spec_msg_key(
                raw.uuid@,
                raw.chat_messages@[j].uuid@,
            )
            &&& is_message_record(r.messages@[j].1, raw.chat_messages@[j], raw)
        }
}

/// The records that the import writes for one exported conversation.
pub fn records_for(raw: &RawConversation) -> (r: ConversationRecords)
    ensures
        is_conversation_records(r, *raw),
{
    let key = convo_key(raw.uuid.as_str());
    let convo = conversation_from_raw(raw);
    let mut messages: Vec<(String, Message)> = Vec::new();
    let mut j: usize = 0;
    while j < raw.chat_messages.len()
        invariant
            j <= raw.chat_messages@.len(),
            messages@.len() == j,
            forall|t: int|
                0 <= t < j ==> {
                    &&& (#[trigger] messages@[t]).0@ == spec_msg_key(
                        raw.uuid@,
                        raw.chat_messages@[t].uuid@,
                    )
                    &&& is_message_record(messages@[t].1, raw.chat_messages@[t], *raw)
                },
        decreases raw.chat_messages@.len() - j,
    {
        let raw_msg = &raw.chat_messages[j];
        let k = msg_key(raw.uuid.as_str(), raw_msg.uuid.as_str());
        let m = message_from_raw(raw_msg, &raw.uuid);
        messages.push((k, m));
        j = j + 1;
    }
    ConversationRecords { key, convo, messages }
}

/// Every message record that the import writes for a conversation is found again
/// by the scan over that conversation's message prefix, and names that
/// conversation.
pub proof fn lemma_imported_messages_found_by_scan(r: ConversationRecords, raw: RawConversation)
    requires
        is_conversation_records(r, raw),
    ensures
        forall|j: int|
            0 <= j < r.messages@.len() ==> {
                &&& key_starts_with(utf8((#[trigger] r.messages@[j]).0@), spec_msg_prefix(raw.uuid@))
                &&& r.messages@[j].1.convo_uuid == raw.uuid
            },
{
    assert forall|j: int| 0 <= j < r.messages@.len() implies key_starts_with(
        utf8((#[trigger] r.messages@[j]).0@),
        spec_msg_prefix(raw.uuid@),
    ) by {
        lemma_scan_meets_exactly_own_messages(raw.uuid@, raw.uuid@, raw.chat_messages@[j].uuid@);
    }
}

/// What the import does, given whether the conversation store already holds data
/// and whether the export file exists.
pub enum ImportStep {
    /// The store is already populated: nothing is imported.
    AlreadyPopulated,
    /// There is no export file: the store stays empty.
    NoExportFile,
    /// The export file is read and its conversations are written.
    Import,
}

/// Decides whether to import the export file.
pub fn import_step(store_has_data: bool, export_exists: bool) -> (step: ImportStep)
    ensures
        store_has_data ==> step is AlreadyPopulated,
        !store_has_data && !export_exists ==> step is NoExportFile,
        !store_has_data && export_exists ==> step is Import,
{
    if store_has_data {
        ImportStep::AlreadyPopulated
    } else if !export_exists {
        ImportStep::NoExportFile
    } else {
        ImportStep::Import
    }
}

} // verus!
