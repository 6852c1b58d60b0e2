use vstd::prelude::*;
use vstd::string::*;

verus! {

/// Top-level shape of an export file that wraps the conversation list.
pub struct RawExport {
    pub conversations: Option<Vec<RawConversation>>,
}

/// A conversation as it appears in the export file.
pub struct RawConversation {
    pub uuid: String,
    pub name: String,
    pub summary: String,
    pub created_at: String,
    pub updated_at: String,
    pub chat_messages: Vec<RawMessage>,
}

/// A message as it appears in the export file.
pub struct RawMessage {
    pub uuid: String,
    pub text: String,
    pub sender: String,
    pub created_at: String,
    pub updated_at: String,
    pub parent_message_uuid: Option<String>,
    pub content: Vec<RawContent>,
}

/// One content block of an exported message.
pub struct RawContent {
    pub kind: String,
    pub text: String,
}

/// A stored conversation record.
pub struct Conversation {
    pub uuid: String,
    pub name: String,
    pub summary: String,
    pub created_at: String,
    pub updated_at: String,
    pub message_count: usize,
}

/// A stored message record.
pub struct Message {
    pub uuid: String,
    pub convo_uuid: String,
    pub text: String,
    pub sender: String,
    pub created_at: String,
    pub updated_at: String,
    pub parent_message_uuid: Option<String>,
}

/// One conversation in a search answer.
pub struct ConvoCard {
    pub uuid: String,
    pub name: String,
    pub created_at: String,
    pub updated_at: String,
    pub message_count: usize,
    pub snippet: String,
    pub match_count: usize,
}

/// The answer to a search: the cards shown and the number of hits in all.
pub struct SearchResponse {
    pub convos: Vec<ConvoCard>,
    pub total: usize,
}

/// A conversation together with its messages.
pub struct ThreadResponse {
    pub convo: Conversation,
    pub messages: Vec<Message>,
}

/// The key under which a conversation record is stored.
pub open spec fn spec_convo_key(uuid: Seq<char>) -> Seq<char> {
    "convo::"@ + uuid
}

/// The key prefix shared by every message of one conversation.
pub open spec fn spec_msg_prefix(convo_uuid: Seq<char>) -> Seq<char> {
    "msg::"@ + convo_uuid + "::"@
}

/// The key under which a message record is stored.
pub open spec fn spec_msg_key(convo_uuid: Seq<char>, msg_uuid: Seq<char>) -> Seq<char> {
    spec_msg_prefix(convo_uuid) + msg_uuid
}

/// The key of a conversation record: `convo::` followed by its id.
pub fn convo_key(uuid: &str) -> (key: String)
    ensures
        key@ == spec_convo_key(uuid@),
{
    let mut key = String::new();
    key.append("convo::");
    key.append(uuid);
    key
}

/// The prefix of the keys of a conversation's messages: `msg::`, its id, `::`.
pub fn msg_prefix(convo_uuid: &str) -> (prefix: String)
    ensures
        prefix@ == spec_msg_prefix(convo_uuid@),
{
    let mut prefix = String::new();
    prefix.append("msg::");
    prefix.append(convo_uuid);
    prefix.append("::");
    prefix
}

/// The key of a message record: its conversation's prefix followed by its id.
pub fn msg_key(convo_uuid: &str, msg_uuid: &str) -> (key: String)
    ensures
        key@ == spec_msg_key(convo_uuid@, msg_uuid@),
{
    let mut key = msg_prefix(convo_uuid);
    key.append(msg_uuid);
    key
}


/// True when `s` holds no colon, the character that separates the parts of a key.
pub open spec fn colon_free(s: Seq<char>) -> bool {
    forall|i: int| 0 <= i < s.len() ==> s[i] != ':'
}

/// Every message key of a conversation starts with that conversation's prefix.
pub proof fn lemma_msg_key_extends_prefix(convo_uuid: Seq<char>, msg_uuid: Seq<char>)
    ensures
        spec_msg_prefix(convo_uuid).is_prefix_of(spec_msg_key(convo_uuid, msg_uuid)),
        spec_msg_key(convo_uuid, msg_uuid).subrange(
            spec_msg_prefix(convo_uuid).len() as int,
            spec_msg_key(convo_uuid, msg_uuid).len() as int,
        ) == msg_uuid,
{
    let p = spec_msg_prefix(convo_uuid);
    let k = spec_msg_key(convo_uuid, msg_uuid);
    assert(p =~= k.subrange(0, p.len() as int));
    assert(k.subrange(p.len() as int, k.len() as int) =~= msg_uuid);
}

/// When conversation ids hold no colon, the message prefix of one conversation
/// starts no message key of another: a scan over a prefix meets only the messages
/// of that conversation.
pub proof fn lemma_prefix_identifies_conversation(c1: Seq<char>, c2: Seq<char>, m: Seq<char>)
    requires
        colon_free(c1),
        colon_free(c2),
        spec_msg_prefix(c1).is_prefix_of(spec_msg_key(c2, m)),
    ensures
        c1 == c2,
{
    reveal_strlit("msg::");
    reveal_strlit("::");
    let p = spec_msg_prefix(c1);
    let k = spec_msg_key(c2, m);
    let n1 = c1.len() as int;
    let n2 = c2.len() as int;
    assert(forall|i: int| 0 <= i < p.len() ==> p[i] == k[i]) by {
        assert forall|i: int| 0 <= i < p.len() implies p[i] == k[i] by {
            assert(k.subrange(0, p.len() as int)[i] == k[i]);
        }
    }
    if n1 < n2 {
        assert(p[5 + n1] == ':');
        assert(k[5 + n1] == c2[n1]);
    } else if n2 < n1 {
        assert(k[5 + n2] == ':');
        assert(p[5 + n2] == c1[n2]);
    } else {
        assert forall|i: int| 0 <= i < n1 implies c1[i] == c2[i] by {
            assert(p[5 + i] == c1[i]);
            assert(k[5 + i] == c2[i]);
        }
        assert(c1 =~= c2);
    }
}

/// Message keys of conversations whose ids hold no colon name one message each.
pub proof fn lemma_msg_key_injective(c1: Seq<char>, m1: Seq<char>, c2: Seq<char>, m2: Seq<char>)
    requires
        colon_free(c1),
        colon_free(c2),
        spec_msg_key(c1, m1) == spec_msg_key(c2, m2),
    ensures
        c1 == c2,
        m1 == m2,
{
    lemma_msg_key_extends_prefix(c1, m1);
    lemma_prefix_identifies_conversation(c1, c2, m2);
    lemma_msg_key_extends_prefix(c2, m2);
}

/// Conversation keys name one conversation each, and never equal a message key.
pub proof fn lemma_convo_key_distinct(a: Seq<char>, b: Seq<char>, c: Seq<char>, m: Seq<char>)
    ensures
        spec_convo_key(a) == spec_convo_key(b) ==> a == b,
        spec_convo_key(a) != spec_msg_key(c, m),
{
    reveal_strlit("convo::");
    reveal_strlit("msg::");
    if spec_convo_key(a) == spec_convo_key(b) {
        assert(spec_convo_key(a).subrange(7, spec_convo_key(a).len() as int) =~= a);
        assert(spec_convo_key(b).subrange(7, spec_convo_key(b).len() as int) =~= b);
    }
    assert(spec_convo_key(a)[0] == 'c');
    assert(spec_msg_key(c, m)[0] == 'm');
}

} // verus!
