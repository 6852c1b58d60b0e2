//! Laws that say, in terms of the inputs alone, what the library's operations
//! compute: substring tests over the UTF-8 bytes of the ASCII-lowercased text,
//! std's byte order of strings, and which message's text is kept.
use vstd::prelude::*;
use vstd::utf8::{decode_utf8, encode_utf8, is_char_boundary};

use crate::server::import::{first_text_block, spec_message_text};
use crate::server::models::{ConvoCard, Message, RawContent, RawMessage, SearchResponse};
use crate::server::order::is_stable_sort;
use crate::server::search::{
    count_hits, entry_hits, entry_snippet, first_hit, hit_entries, is_search_answer,
    lemma_hit_entries_have_hits, snippets_of, text_matches, IndexEntry, SNIPPET_WIDTH,
};
use crate::server::text::{
    bytes_le, lemma_first_occurrence_exists, lower_seq, snippet_anchor, snippet_end,
    snippet_start, spec_snippet, str_le,
};

verus! {

/// ASCII lowercasing keeps the length and lowers each character on its own:
/// `A`..=`Z` become `a`..=`z`, every other character stays.
pub proof fn law_lower_seq(s: Seq<char>)
    ensures
        lower_seq(s).len() == s.len(),
        forall|i: int|
            0 <= i < s.len() ==> #[trigger] lower_seq(s)[i] == (if 'A' <= s[i] <= 'Z' {
                ((s[i] as u32) + 32) as char
            } else {
                s[i]
            }),
{
}

/// A text matches a query exactly when the query's bytes occur somewhere in the
/// bytes of the lowercased text.
proof fn lemma_match_iff(t: Seq<char>, q: Seq<char>)
    ensures
        text_matches(t, q) == exists|p: int|
            0 <= p && p + encode_utf8(q).len() <= encode_utf8(lower_seq(t)).len()
                && #[trigger] encode_utf8(lower_seq(t)).subrange(p, p + encode_utf8(q).len())
                == encode_utf8(q),
{
    let hay = encode_utf8(lower_seq(t));
    let pat = encode_utf8(q);
    if text_matches(t, q) {
        let w = choose|w: int| crate::server::text::occurs_at(hay, pat, w);
        assert(hay.subrange(w, w + pat.len()) == pat);
    }
    if exists|p: int|
        0 <= p && p + pat.len() <= hay.len() && #[trigger] hay.subrange(p, p + pat.len()) == pat {
        let w = choose|p: int|
            0 <= p && p + pat.len() <= hay.len() && #[trigger] hay.subrange(p, p + pat.len())
                == pat;
        assert(crate::server::text::occurs_at(hay, pat, w));
    }
}

/// A conversation's title adds one hit exactly when the lowercased query occurs
/// anywhere in the lowercased title (not only at its start), and every other hit
/// comes from the messages.
pub proof fn law_title_hit(e: IndexEntry, q: Seq<char>)
    ensures
        entry_hits(e, q) == (if exists|i: int|
            0 <= i && i + encode_utf8(q).len() <= encode_utf8(lower_seq(e.convo.name@)).len()
                && #[trigger] encode_utf8(lower_seq(e.convo.name@)).subrange(
                i,
                i + encode_utf8(q).len(),
            ) == encode_utf8(q) {
            1nat
        } else {
            0nat
        }) + count_hits(e.message_snippets@, q),
{
    lemma_match_iff(e.convo.name@, q);
}

/// No messages give no hits, and one more message adds one hit exactly when the
/// lowercased query occurs anywhere in its lowercased text.
pub proof fn law_count_hits(msgs: Seq<(String, String)>, m: (String, String), q: Seq<char>)
    ensures
        count_hits(Seq::empty(), q) == 0,
        count_hits(msgs.push(m), q) == count_hits(msgs, q) + (if exists|i: int|
            0 <= i && i + encode_utf8(q).len() <= encode_utf8(lower_seq(m.1@)).len()
                && #[trigger] encode_utf8(lower_seq(m.1@)).subrange(i, i + encode_utf8(q).len())
                == encode_utf8(q) {
            1nat
        } else {
            0nat
        }),
{
    assert(msgs.push(m).drop_last() =~= msgs);
    lemma_match_iff(m.1@, q);
}

/// The first hit is the first message whose lowercased text holds the lowercased
/// query; there is none when no message does.
pub proof fn law_first_hit(msgs: Seq<(String, String)>, q: Seq<char>)
    ensures
        first_hit(msgs, q) is Some ==> {
            let i = first_hit(msgs, q)->0;
            &&& 0 <= i < msgs.len()
            &&& exists|p: int|
                0 <= p && p + encode_utf8(q).len() <= encode_utf8(lower_seq(msgs[i].1@)).len()
                    && #[trigger] encode_utf8(lower_seq(msgs[i].1@)).subrange(
                    p,
                    p + encode_utf8(q).len(),
                ) == encode_utf8(q)
            &&& forall|j: int|
                #![trigger msgs[j]]
                0 <= j < i ==> !exists|p: int|
                    0 <= p && p + encode_utf8(q).len() <= encode_utf8(lower_seq(msgs[j].1@)).len()
                        && #[trigger] encode_utf8(lower_seq(msgs[j].1@)).subrange(
                        p,
                        p + encode_utf8(q).len(),
                    ) == encode_utf8(q)
        },
        first_hit(msgs, q) is None ==> forall|j: int|
            #![trigger msgs[j]]
            0 <= j < msgs.len() ==> !exists|p: int|
                0 <= p && p + encode_utf8(q).len() <= encode_utf8(lower_seq(msgs[j].1@)).len()
                    && #[trigger] encode_utf8(lower_seq(msgs[j].1@)).subrange(
                    p,
                    p + encode_utf8(q).len(),
                ) == encode_utf8(q),
    decreases msgs.len(),
{
    lemma_first_hit_matches(msgs, q);
    assert forall|j: int| 0 <= j < msgs.len() implies text_matches(#[trigger] msgs[j].1@, q)
        == exists|p: int|
        0 <= p && p + encode_utf8(q).len() <= encode_utf8(lower_seq(msgs[j].1@)).len()
            && #[trigger] encode_utf8(lower_seq(msgs[j].1@)).subrange(p, p + encode_utf8(q).len())
            == encode_utf8(q) by {
        lemma_match_iff(msgs[j].1@, q);
    }
}

proof fn lemma_first_hit_matches(msgs: Seq<(String, String)>, q: Seq<char>)
    ensures
        first_hit(msgs, q) is Some ==> {
            let i = first_hit(msgs, q)->0;
            &&& 0 <= i < msgs.len()
            &&& text_matches(msgs[i].1@, q)
            &&& forall|j: int| 0 <= j < i ==> !text_matches(#[trigger] msgs[j].1@, q)
        },
        first_hit(msgs, q) is None ==> forall|j: int|
            0 <= j < msgs.len() ==> !text_matches(#[trigger] msgs[j].1@, q),
    decreases msgs.len(),
{
    if msgs.len() > 0 {
        let rest = msgs.drop_last();
        lemma_first_hit_matches(rest, q);
        assert forall|j: int| 0 <= j < rest.len() implies #[trigger] rest[j] == msgs[j] by {}
        assert(msgs.last() == msgs[msgs.len() - 1]);
        match first_hit(rest, q) {
            Some(i) => {
                assert forall|j: int| 0 <= j < i implies !text_matches(#[trigger] msgs[j].1@, q) by {
                    assert(rest[j] == msgs[j]);
                }
            },
            None => {
                assert forall|j: int| 0 <= j < msgs.len() - 1 implies !text_matches(
                    #[trigger] msgs[j].1@,
                    q,
                ) by {
                    assert(rest[j] == msgs[j]);
                }
            },
        }
    }
}

/// The snippet of a conversation is cut from its first matching message, and is
/// empty when no message matches.
pub proof fn law_entry_snippet(e: IndexEntry, q: Seq<char>)
    ensures
        first_hit(e.message_snippets@, q) is Some ==> entry_snippet(e, q) == spec_snippet(
            e.message_snippets@[first_hit(e.message_snippets@, q)->0].1@,
            q,
            SNIPPET_WIDTH as nat,
        ),
        first_hit(e.message_snippets@, q) is None ==> entry_snippet(e, q) == Seq::<char>::empty(),
{
}

/// The anchor of a snippet is the first byte at which the needle occurs in the
/// lowercased text, and 0 when it does not occur.
pub proof fn law_snippet_anchor(text: Seq<char>, needle: Seq<char>)
    ensures
        ({
            let hay = encode_utf8(lower_seq(text));
            let pat = encode_utf8(needle);
            let a = snippet_anchor(text, needle);
            &&& (exists|i: int|
                0 <= i && i + pat.len() <= hay.len() && #[trigger] hay.subrange(i, i + pat.len())
                    == pat) ==> {
                &&& 0 <= a && a + pat.len() <= hay.len()
                &&& hay.subrange(a, a + pat.len()) == pat
                &&& forall|j: int|
                    0 <= j < a ==> #[trigger] hay.subrange(j, j + pat.len()) != pat
            }
            &&& !(exists|i: int|
                0 <= i && i + pat.len() <= hay.len() && #[trigger] hay.subrange(i, i + pat.len())
                    == pat) ==> a == 0
        }),
{
    let hay = encode_utf8(lower_seq(text));
    let pat = encode_utf8(needle);
    if exists|i: int|
        0 <= i && i + pat.len() <= hay.len() && #[trigger] hay.subrange(i, i + pat.len()) == pat {
        let w = choose|i: int|
            0 <= i && i + pat.len() <= hay.len() && #[trigger] hay.subrange(i, i + pat.len())
                == pat;
        assert(crate::server::text::occurs_at(hay, pat, w));
        lemma_first_occurrence_exists(hay, pat, w);
        let a = snippet_anchor(text, needle);
        assert(crate::server::text::is_first_occurrence(hay, pat, a));
        assert forall|j: int| 0 <= j < a implies #[trigger] hay.subrange(j, j + pat.len())
            != pat by {
            assert(!crate::server::text::occurs_at(hay, pat, j));
        }
    }
}

/// The shape of a snippet: its window starts at the last character boundary at or
/// before a quarter of the width ahead of the anchor (or 0), ends at the last
/// boundary at or before `width` bytes after that start (or the end of the text),
/// and the window's characters are marked with an ellipsis on each side that was
/// cut.
pub proof fn law_snippet_shape(text: Seq<char>, needle: Seq<char>, width: nat)
    ensures
        ({
            let bytes = encode_utf8(text);
            let n = bytes.len() as int;
            let pos = snippet_anchor(text, needle);
            let from = if pos >= (width / 4) as int { pos - (width / 4) as int } else { 0 };
            let start = snippet_start(text, needle, width);
            let stop = if start + width < n { start + width } else { n };
            let end = snippet_end(text, needle, width);
            &&& 0 <= start <= from
            &&& is_char_boundary(bytes, start)
            &&& forall|k: int| start < k <= from ==> !is_char_boundary(bytes, k)
            &&& start <= end <= stop
            &&& is_char_boundary(bytes, end)
            &&& forall|k: int| end < k <= stop ==> !is_char_boundary(bytes, k)
            &&& spec_snippet(text, needle, width) == (if start > 0 {
                seq!['\u{2026}']
            } else {
                Seq::empty()
            }) + decode_utf8(bytes.subrange(start, end)) + (if end < n {
                seq!['\u{2026}']
            } else {
                Seq::empty()
            })
        }),
{
    broadcast use vstd::utf8::encode_utf8_valid_utf8;

    let bytes = encode_utf8(text);
    let n = bytes.len() as int;
    let pos = snippet_anchor(text, needle);
    let from = if pos >= (width / 4) as int { pos - (width / 4) as int } else { 0 };
    crate::server::text::lemma_floor_boundary_exists(bytes, from);
    crate::server::text::lemma_snippet_window(text, needle, width);
    let start = snippet_start(text, needle, width);
    let stop = if start + width < n { start + width } else { n };
    crate::server::text::lemma_floor_boundary_exists(bytes, stop);
}

/// std's order of strings compares their UTF-8 bytes: at the first position where
/// two byte sequences differ, the smaller byte comes first.
pub proof fn law_bytes_le_first_difference(a: Seq<u8>, b: Seq<u8>, i: int)
    requires
        0 <= i < a.len(),
        i < b.len(),
        a.subrange(0, i) == b.subrange(0, i),
        a[i] != b[i],
    ensures
        bytes_le(a, b) == (a[i] < b[i]),
    decreases i,
{
    if i > 0 {
        assert(a[0] == a.subrange(0, i)[0]);
        assert(b[0] == b.subrange(0, i)[0]);
        assert(a.drop_first().subrange(0, i - 1) =~= a.subrange(0, i).drop_first());
        assert(b.drop_first().subrange(0, i - 1) =~= b.subrange(0, i).drop_first());
        law_bytes_le_first_difference(a.drop_first(), b.drop_first(), i - 1);
    }
}

/// A byte sequence comes no later than any sequence that it starts, and a proper
/// prefix comes strictly first.
pub proof fn law_bytes_le_prefix(a: Seq<u8>, b: Seq<u8>)
    requires
        a.len() <= b.len(),
        b.subrange(0, a.len() as int) == a,
    ensures
        bytes_le(a, b),
        a.len() < b.len() ==> !bytes_le(b, a),
    decreases a.len(),
{
    if a.len() > 0 {
        assert(a[0] == b.subrange(0, a.len() as int)[0]);
        assert(b.drop_first().subrange(0, a.len() - 1) =~= a.drop_first());
        law_bytes_le_prefix(a.drop_first(), b.drop_first());
    }
}

/// Strings are ordered by their UTF-8 bytes.
pub proof fn law_str_le(a: Seq<char>, b: Seq<char>)
    ensures
        str_le(a, b) == bytes_le(encode_utf8(a), encode_utf8(b)),
{
}

/// An index entry keeps every message, in order, with its id and its text.
pub proof fn law_snippets_of(messages: Seq<Message>)
    ensures
        snippets_of(messages).len() == messages.len(),
        forall|j: int|
            0 <= j < messages.len() ==> #[trigger] snippets_of(messages)[j] == (
                messages[j].uuid,
                messages[j].text,
            ),
{
}

/// The first `text` block is the first content block whose kind is `text`.
pub proof fn law_first_text_block(content: Seq<RawContent>)
    ensures
        first_text_block(content) is Some ==> {
            let i = first_text_block(content)->0;
            &&& 0 <= i < content.len()
            &&& content[i].kind@ == "text"@
            &&& forall|j: int| 0 <= j < i ==> (#[trigger] content[j]).kind@ != "text"@
        },
        first_text_block(content) is None ==> forall|j: int|
            0 <= j < content.len() ==> (#[trigger] content[j]).kind@ != "text"@,
    decreases content.len(),
{
    if content.len() > 0 {
        let rest = content.drop_last();
        law_first_text_block(rest);
        assert forall|j: int| 0 <= j < rest.len() implies #[trigger] rest[j] == content[j] by {}
        assert(content.last() == content[content.len() - 1]);
        match first_text_block(rest) {
            Some(i) => {
                assert(first_text_block(content) == Some(i));
                assert forall|j: int| 0 <= j < i implies (#[trigger] content[j]).kind@ != "text"@ by {
                    assert(rest[j] == content[j]);
                }
            },
            None => {
                assert forall|j: int| 0 <= j < content.len() - 1 implies (
                #[trigger] content[j]).kind@ != "text"@ by {
                    assert(rest[j] == content[j]);
                }
            },
        }
    }
}

/// A message keeps its top-level text whole when that is not empty; otherwise it
/// takes the text of its first `text` block, or nothing.
pub proof fn law_message_text(raw: RawMessage)
    ensures
        raw.text@.len() > 0 ==> spec_message_text(raw) == raw.text@,
        raw.text@.len() == 0 && first_text_block(raw.content@) is Some ==> spec_message_text(raw)
            == raw.content@[first_text_block(raw.content@)->0].text@,
        raw.text@.len() == 0 && first_text_block(raw.content@) is None ==> spec_message_text(raw)
            == Seq::<char>::empty(),
{
}

/// The conversations with hits are listed by increasing position, each once, and
/// every conversation with at least one hit is listed.
pub proof fn law_hit_entries(entries: Seq<IndexEntry>, q: Seq<char>)
    requires
        entries.len() <= usize::MAX,
    ensures
        forall|p: int|
            0 <= p < hit_entries(entries, q).len() ==> {
                &&& 0 <= #[trigger] hit_entries(entries, q)[p] < entries.len()
                &&& entry_hits(entries[hit_entries(entries, q)[p] as int], q) > 0
            },
        forall|p1: int, p2: int|
            0 <= p1 < p2 < hit_entries(entries, q).len() ==> #[trigger] hit_entries(entries, q)[p1]
                < #[trigger] hit_entries(entries, q)[p2],
        forall|i: int|
            0 <= i < entries.len() && entry_hits(#[trigger] entries[i], q) > 0 ==> hit_entries(
                entries,
                q,
            ).contains(i as usize),
    decreases entries.len(),
{
    lemma_hit_entries_have_hits(entries, q);
    if entries.len() > 0 {
        let rest = entries.drop_last();
        law_hit_entries(rest, q);
        let r = hit_entries(rest, q);
        let h = hit_entries(entries, q);
        let n = entries.len() as int;
        assert forall|i: int|
            0 <= i < entries.len() && entry_hits(#[trigger] entries[i], q) > 0 implies h.contains(
            i as usize,
        ) by {
            if i < n - 1 {
                assert(rest[i] == entries[i]);
                assert(r.contains(i as usize));
                let p = choose|p: int| 0 <= p < r.len() && r[p] == i as usize;
                if entry_hits(entries.last(), q) > 0 {
                    assert(h[p] == r[p]);
                } else {
                    assert(h == r);
                }
            } else {
                assert(entries.last() == entries[i]);
                assert(h == r.push((n - 1) as usize));
                assert(h[r.len() as int] == i as usize);
            }
        }
    }
}

/// True when `card` shows the conversation of `e` with the given snippet and hits.
pub open spec fn card_of(card: ConvoCard, e: IndexEntry, snippet: Seq<char>, hits: nat) -> bool {
    &&& card.uuid == e.convo.uuid
    &&& card.name == e.convo.name
    &&& card.created_at == e.convo.created_at
    &&& card.updated_at == e.convo.updated_at
    &&& card.message_count == e.convo.message_count
    &&& card.snippet@ == snippet
    &&& card.match_count == hits
}

/// The number of cards is the smaller of the limit and the total.
pub proof fn law_search_card_count(
    entries: Seq<IndexEntry>,
    query: Seq<char>,
    limit: nat,
    res: SearchResponse,
)
    requires
        is_search_answer(entries, query, limit, res),
    ensures
        res.convos@.len() == (if limit < res.total {
            limit
        } else {
            res.total as nat
        }),
        query.len() == 0 ==> res.total == entries.len(),
{
}

/// True when `card` shows one of `entries`, with no snippet and no hits.
pub open spec fn lists_some_entry(card: ConvoCard, entries: Seq<IndexEntry>) -> bool {
    exists|i: int| 0 <= i < entries.len() && card_of(card, #[trigger] entries[i], Seq::empty(), 0)
}

/// True when `card` shows one of `entries` that has a hit for the lowercased
/// query `q`, with that entry's snippet and number of hits.
pub open spec fn shows_some_hit(card: ConvoCard, entries: Seq<IndexEntry>, q: Seq<char>) -> bool {
    exists|i: int|
        0 <= i < entries.len() && entry_hits(entries[i], q) > 0 && card_of(
            card,
            #[trigger] entries[i],
            entry_snippet(entries[i], q),
            entry_hits(entries[i], q),
        )
}

/// True when some card of `cards` shows `e` with the given snippet and hits.
pub open spec fn has_card(cards: Seq<ConvoCard>, e: IndexEntry, snippet: Seq<char>, hits: nat) -> bool {
    exists|k: int| 0 <= k < cards.len() && card_of(#[trigger] cards[k], e, snippet, hits)
}

/// For the empty query every card shows a conversation with no snippet and no
/// hits, and when the limit admits them all every conversation gets a card.
pub proof fn law_listing_cards(entries: Seq<IndexEntry>, limit: nat, res: SearchResponse)
    requires
        is_search_answer(entries, Seq::empty(), limit, res),
    ensures
        forall|k: int|
            0 <= k < res.convos@.len() ==> lists_some_entry(#[trigger] res.convos@[k], entries),
        limit >= entries.len() ==> forall|i: int|
            0 <= i < entries.len() ==> has_card(res.convos@, #[trigger] entries[i], Seq::empty(), 0),
{
    let rel = crate::server::search::newer_first(entries);
    let order = choose|order: Seq<usize>|
        {
            &&& is_stable_sort(order, entries.len(), rel)
            &&& forall|k: int|
                0 <= k < res.convos@.len() ==> crate::server::search::shows(
                    #[trigger] res.convos@[k],
                    entries[order[k] as int],
                    Seq::empty(),
                    0,
                )
        };
    assert forall|k: int| 0 <= k < res.convos@.len() implies lists_some_entry(
        #[trigger] res.convos@[k],
        entries,
    ) by {
        let i = order[k] as int;
        assert(card_of(res.convos@[k], entries[i], Seq::empty(), 0));
    }
    if limit >= entries.len() {
        assert forall|i: int| 0 <= i < entries.len() implies has_card(
            res.convos@,
            #[trigger] entries[i],
            Seq::empty(),
            0,
        ) by {
            assert(order.contains(i as usize));
            let k = choose|k: int| 0 <= k < order.len() && order[k] == i as usize;
            assert(card_of(res.convos@[k], entries[i], Seq::empty(), 0));
        }
    }
}

/// For a non-empty query every card shows a conversation with at least one hit,
/// together with its snippet and its number of hits, and when the limit admits
/// them all every conversation with a hit gets a card.
#[verifier::rlimit(40)]
pub proof fn law_hit_cards(
    entries: Seq<IndexEntry>,
    query: Seq<char>,
    limit: nat,
    res: SearchResponse,
)
    requires
        entries.len() <= usize::MAX,
        query.len() > 0,
        is_search_answer(entries, query, limit, res),
    ensures
        forall|k: int|
            0 <= k < res.convos@.len() ==> shows_some_hit(
                #[trigger] res.convos@[k],
                entries,
                lower_seq(query),
            ),
        limit >= res.total ==> forall|i: int|
            0 <= i < entries.len() && entry_hits(#[trigger] entries[i], lower_seq(query)) > 0
                ==> has_card(
                res.convos@,
                entries[i],
                entry_snippet(entries[i], lower_seq(query)),
                entry_hits(entries[i], lower_seq(query)),
            ),
{
    let q = lower_seq(query);
    let hits = hit_entries(entries, q);
    law_hit_entries(entries, q);
    let rel = crate::server::search::more_hits_first(entries, hits, q);
    let order = choose|order: Seq<usize>|
        {
            &&& is_stable_sort(order, hits.len(), rel)
            &&& forall|k: int|
                0 <= k < res.convos@.len() ==> {
                    let e = entries[hits[order[k] as int] as int];
                    crate::server::search::shows(
                        #[trigger] res.convos@[k],
                        e,
                        entry_snippet(e, q),
                        entry_hits(e, q),
                    )
                }
        };
    assert forall|k: int| 0 <= k < res.convos@.len() implies shows_some_hit(
        #[trigger] res.convos@[k],
        entries,
        q,
    ) by {
        let p = order[k] as int;
        let i = hits[p] as int;
        assert(card_of(res.convos@[k], entries[i], entry_snippet(entries[i], q), entry_hits(entries[i], q)));
    }
    if limit >= res.total {
        assert forall|i: int|
            0 <= i < entries.len() && entry_hits(#[trigger] entries[i], q) > 0 implies has_card(
            res.convos@,
            entries[i],
            entry_snippet(entries[i], q),
            entry_hits(entries[i], q),
        ) by {
            assert(hits.contains(i as usize));
            let p = choose|p: int| 0 <= p < hits.len() && hits[p] == i as usize;
            assert(order.contains(p as usize));
            let k = choose|k: int| 0 <= k < order.len() && order[k] == p as usize;
            assert(card_of(res.convos@[k], entries[i], entry_snippet(entries[i], q), entry_hits(entries[i], q)));
        }
    }
}

} // verus!
