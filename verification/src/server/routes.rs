use vstd::prelude::*;
use vstd::utf8::*;

use crate::server::models::{
    colon_free, spec_msg_key, spec_msg_prefix, Conversation, Message, ThreadResponse,
};
use crate::server::order::{is_stable_sort, stable_sort};
use crate::server::text::{
    lemma_bytes_le_total, lemma_bytes_le_transitive, lemma_utf8_concat, str_le, str_le_exec, utf8,
};

verus! {

/// Number of cards a search request shows when it names no limit.
pub const DEFAULT_LIMIT: usize = 200;

/// The query and limit of a search request: an absent query is empty (which lists
/// every conversation) and an absent limit is `DEFAULT_LIMIT`.
pub fn search_request(q: Option<String>, limit: Option<usize>) -> (r: (String, usize))
    ensures
        r.0@ == (match q {
            Some(s) => s@,
            None => Seq::empty(),
        }),
        r.1 == (match limit {
            Some(l) => l,
            None => DEFAULT_LIMIT,
        }),
{
    let query = match q {
        Some(s) => s,
        None => String::new(),
    };
    let limit = match limit {
        Some(l) => l,
        None => DEFAULT_LIMIT,
    };
    (query, limit)
}

/// Calls `std::str::from_utf8`, which succeeds exactly on well-formed UTF-8.
#[verifier::external_body]
fn is_utf8(bytes: &[u8]) -> (r: bool)
    ensures
        r == valid_utf8(bytes@),
{
    std::str::from_utf8(bytes).is_ok()
}

/// True when a stored key read as text (a key that is not UTF-8 reads as the empty
/// text) starts with `prefix`.
pub open spec fn key_starts_with(key: Seq<u8>, prefix: Seq<char>) -> bool {
    let text = if valid_utf8(key) {
        key
    } else {
        Seq::empty()
    };
    let p = utf8(prefix);
    p.len() <= text.len() && text.subrange(0, p.len() as int) == p
}

/// Whether a key met in a scan from `prefix` still belongs to the run of keys that
/// start with it.
pub fn key_has_prefix(key: &[u8], prefix: &str) -> (r: bool)
    ensures
        r == key_starts_with(key@, prefix@),
{
    let p = prefix.as_bytes();
    if !is_utf8(key) {
        assert(p@.len() == 0 ==> Seq::<u8>::empty().subrange(0, 0) =~= p@);
        return p.len() == 0;
    }
    if p.len() > key.len() {
        return false;
    }
    let mut i: usize = 0;
    while i < p.len()
        invariant
            p@ == utf8(prefix@),
            p@.len() <= key@.len(),
            i <= p@.len(),
            forall|k: int| 0 <= k < i ==> key@[k] == p@[k],
        decreases p@.len() - i,
    {
        if key[i] != p[i] {
            assert(key@.subrange(0, p@.len() as int)[i as int] != p@[i as int]);
            return false;
        }
        i = i + 1;
    }
    assert(key@.subrange(0, p@.len() as int) =~= p@);
    true
}

/// No byte of the encoding of a character other than `:` is the byte of `:`.
proof fn lemma_scalar_bytes_not_colon(c: char)
    requires
        c != ':',
    ensures
        forall|i: int|
            0 <= i < encode_scalar(c as u32).len() ==> #[trigger] encode_scalar(c as u32)[i] != 0x3au8,
{
    let v = c as u32;
    assert(v != 0x3a);
    if has_width_1_encoding(v) {
        assert((v & 0x7F) as u8 != 0x3au8) by (bit_vector)
            requires
                v <= 0x7f,
                v != 0x3a,
        ;
    } else {
        assert(0xC0u8 | ((v >> 6) & 0x1F) as u8 != 0x3au8) by (bit_vector);
        assert(0xE0u8 | ((v >> 12) & 0x0F) as u8 != 0x3au8) by (bit_vector);
        assert(0xF0u8 | ((v >> 18) & 0x7) as u8 != 0x3au8) by (bit_vector);
        assert(0x80u8 | (v & 0x3F) as u8 != 0x3au8) by (bit_vector);
        assert(0x80u8 | ((v >> 6) & 0x3F) as u8 != 0x3au8) by (bit_vector);
        assert(0x80u8 | ((v >> 12) & 0x3F) as u8 != 0x3au8) by (bit_vector);
    }
}

/// The encoding of a text without colons holds no byte of `:`.
proof fn lemma_utf8_colon_free(s: Seq<char>)
    requires
        colon_free(s),
    ensures
        forall|i: int| 0 <= i < utf8(s).len() ==> #[trigger] utf8(s)[i] != 0x3au8,
    decreases s.len(),
{
    if s.len() > 0 {
        lemma_utf8_colon_free(s.drop_first());
        lemma_scalar_bytes_not_colon(s[0]);
        let head = encode_scalar(s[0] as u32);
        assert(utf8(s) == head + utf8(s.drop_first()));
        assert forall|i: int| 0 <= i < utf8(s).len() implies #[trigger] utf8(s)[i] != 0x3au8 by {
            if i >= head.len() {
                assert(utf8(s)[i] == utf8(s.drop_first())[i - head.len()]);
            }
        }
    }
}

/// The bytes of a message key: those of its conversation's prefix, then those of
/// the message id.
proof fn lemma_key_bytes(c: Seq<char>, m: Seq<char>)
    ensures
        utf8(spec_msg_prefix(c)) == utf8("msg::"@) + utf8(c) + utf8("::"@),
        utf8(spec_msg_key(c, m)) == utf8(spec_msg_prefix(c)) + utf8(m),
        utf8("msg::"@).len() == 5,
        utf8("::"@).len() == 2,
        utf8("::"@)[0] == 0x3au8,
        utf8("::"@)[1] == 0x3au8,
{
    reveal_strlit("msg::");
    reveal_strlit("::");
    broadcast use is_ascii_chars_encode_utf8;

    assert(is_ascii_chars("msg::"@));
    assert(is_ascii_chars("::"@));
    assert(("::"@)[0] == ':');
    assert(("::"@)[1] == ':');
    lemma_utf8_concat("msg::"@, c);
    lemma_utf8_concat("msg::"@ + c, "::"@);
    lemma_utf8_concat(spec_msg_prefix(c), m);
}

/// A scan from a conversation's message prefix accepts every message key of that
/// conversation, and, when conversation ids hold no colon, no message key of any
/// other conversation.
pub proof fn lemma_scan_meets_exactly_own_messages(c1: Seq<char>, c2: Seq<char>, m: Seq<char>)
    ensures
        key_starts_with(utf8(spec_msg_key(c1, m)), spec_msg_prefix(c1)),
        colon_free(c1) && colon_free(c2) && key_starts_with(
            utf8(spec_msg_key(c2, m)),
            spec_msg_prefix(c1),
        ) ==> c1 == c2,
{
    broadcast use {encode_utf8_valid_utf8, encode_utf8_decode_utf8};

    lemma_key_bytes(c1, m);
    lemma_key_bytes(c2, m);
    let p1 = utf8(spec_msg_prefix(c1));
    let k1 = utf8(spec_msg_key(c1, m));
    assert(k1.subrange(0, p1.len() as int) =~= p1);
    if colon_free(c1) && colon_free(c2) && key_starts_with(
        utf8(spec_msg_key(c2, m)),
        spec_msg_prefix(c1),
    ) {
        let k2 = utf8(spec_msg_key(c2, m));
        let u1 = utf8(c1);
        let u2 = utf8(c2);
        let l1 = u1.len() as int;
        let l2 = u2.len() as int;
        lemma_utf8_colon_free(c1);
        lemma_utf8_colon_free(c2);
        assert forall|i: int| 0 <= i < p1.len() implies p1[i] == k2[i] by {
            assert(k2.subrange(0, p1.len() as int)[i] == k2[i]);
        }
        if l1 < l2 {
            assert(p1[5 + l1] == 0x3au8);
            assert(k2[5 + l1] == u2[l1]);
        } else if l2 < l1 {
            assert(k2[5 + l2] == 0x3au8);
            assert(p1[5 + l2] == u1[l2]);
        } else {
            assert forall|i: int| 0 <= i < l1 implies u1[i] == u2[i] by {
                assert(p1[5 + i] == u1[i]);
                assert(k2[5 + i] == u2[i]);
            }
            assert(u1 =~= u2);
            assert(decode_utf8(u1) == c1);
            assert(decode_utf8(u2) == c2);
        }
    }
}

fn duplicate_message(m: &Message) -> (r: Message)
    ensures
        r == *m,
{
    Message {
        uuid: m.uuid.clone(),
        convo_uuid: m.convo_uuid.clone(),
        text: m.text.clone(),
        sender: m.sender.clone(),
        created_at: m.created_at.clone(),
        updated_at: m.updated_at.clone(),
        parent_message_uuid: match &m.parent_message_uuid {
            Some(s) => Some(s.clone()),
            None => None,
        },
    }
}

/// Message `a` may stand before message `b` when it was created no later.
pub open spec fn older_first(messages: Seq<Message>) -> spec_fn(int, int) -> bool {
    |a: int, b: int| str_le(messages[a].created_at@, messages[b].created_at@)
}

/// The messages of a thread, oldest first; messages created at the same time keep
/// their order.
pub fn sort_by_created(messages: Vec<Message>) -> (sorted: Vec<Message>)
    ensures
        exists|order: Seq<usize>|
            {
                &&& is_stable_sort(order, messages@.len(), older_first(messages@))
                &&& sorted@.len() == messages@.len()
                &&& forall|k: int|
                    0 <= k < sorted@.len() ==> #[trigger] sorted@[k] == messages@[order[k] as int]
            },
{
    let ghost msgs = messages@;
    let n = messages.len();
    let ghost rel = older_first(msgs);
    proof {
        assert forall|a: int, b: int| 0 <= a < n && 0 <= b < n implies #[trigger] rel(a, b) || rel(
            b,
            a,
        ) by {
            lemma_bytes_le_total(utf8(msgs[a].created_at@), utf8(msgs[b].created_at@));
        }
        assert forall|a: int, b: int, c: int|
            0 <= a < n && 0 <= b < n && 0 <= c < n && #[trigger] rel(a, b) && #[trigger] rel(
                b,
                c,
            ) implies rel(a, c) by {
            lemma_bytes_le_transitive(
                utf8(msgs[a].created_at@),
                utf8(msgs[b].created_at@),
                utf8(msgs[c].created_at@),
            );
        }
    }
    let may_precede = |a: usize, b: usize| -> (r: bool)
        requires
            a < messages@.len(),
            b < messages@.len(),
        ensures
            r == str_le(messages@[a as int].created_at@, messages@[b as int].created_at@),
        { str_le_exec(messages[a].created_at.as_str(), messages[b].created_at.as_str()) };
    let order = stable_sort(n, &may_precede, Ghost(rel));
    let mut sorted: Vec<Message> = Vec::new();
    let mut k: usize = 0;
    while k < n
        invariant
            msgs == messages@,
            n == msgs.len(),
            is_stable_sort(order@, n as nat, rel),
            k <= n,
            sorted@.len() == k,
            forall|j: int| 0 <= j < k ==> #[trigger] sorted@[j] == msgs[order@[j] as int],
        decreases n - k,
    {
        sorted.push(duplicate_message(&messages[order[k]]));
        k = k + 1;
    }
    assert(is_stable_sort(order@, msgs.len(), older_first(msgs)));
    sorted
}

impl ThreadResponse {
    /// A conversation with its messages, oldest first.
    pub fn new(convo: Conversation, messages: Vec<Message>) -> (t: ThreadResponse)
        ensures
            t.convo == convo,
            exists|order: Seq<usize>|
                {
                    &&& is_stable_sort(order, messages@.len(), older_first(messages@))
                    &&& t.messages@.len() == messages@.len()
                    &&& forall|k: int|
                        0 <= k < t.messages@.len() ==> #[trigger] t.messages@[k]
                            == messages@[order[k] as int]
                },
    {
        ThreadResponse { convo, messages: sort_by_created(messages) }
    }
}


/// The messages of a thread come oldest first.
pub proof fn lemma_thread_oldest_first(messages: Seq<Message>, t: ThreadResponse)
    requires
        exists|order: Seq<usize>|
            {
                &&& is_stable_sort(order, messages.len(), older_first(messages))
                &&& t.messages@.len() == messages.len()
                &&& forall|k: int|
                    0 <= k < t.messages@.len() ==> #[trigger] t.messages@[k] == messages[order[k] as int]
            },
    ensures
        forall|k1: int, k2: int|
            0 <= k1 < k2 < t.messages@.len() ==> str_le(
                (#[trigger] t.messages@[k1]).created_at@,
                (#[trigger] t.messages@[k2]).created_at@,
            ),
{
    let order = choose|order: Seq<usize>|
        {
            &&& is_stable_sort(order, messages.len(), older_first(messages))
            &&& t.messages@.len() == messages.len()
            &&& forall|k: int|
                0 <= k < t.messages@.len() ==> #[trigger] t.messages@[k] == messages[order[k] as int]
        };
    assert forall|k1: int, k2: int| 0 <= k1 < k2 < t.messages@.len() implies str_le(
        (#[trigger] t.messages@[k1]).created_at@,
        (#[trigger] t.messages@[k2]).created_at@,
    ) by {
        assert(older_first(messages)(order[k1] as int, order[k2] as int));
    }
}

} // verus!
