use vstd::prelude::*;

use crate::server::models::{Conversation, ConvoCard, Message, SearchResponse};
use crate::server::order::{
    is_stable_sort, is_total_preorder, lemma_stable_sort_unique, stable_sort,
};
use crate::server::text::{
    contains_bytes, lemma_bytes_le_total, lemma_bytes_le_transitive,
    lemma_snippet_empty_only_for_empty_text, lower_seq, make_snippet, occurs_in, spec_snippet,
    str_le, str_le_exec, to_ascii_lowercase, utf8,
};

verus! {

/// Width in bytes of the window that a search snippet shows.
pub const SNIPPET_WIDTH: usize = 120;

/// One conversation of the search index with the id and text of each of its messages.
pub struct IndexEntry {
    pub convo: Conversation,
    pub message_snippets: Vec<(String, String)>,
}

/// The in-memory search index: one entry per conversation.
pub struct SearchIndex {
    pub entries: Vec<IndexEntry>,
}

/// True when the lowercased query `q` occurs in the ASCII-lowercased `text`.
pub open spec fn text_matches(text: Seq<char>, q: Seq<char>) -> bool {
    occurs_in(utf8(lower_seq(text)), utf8(q))
}

/// Number of messages whose text matches `q`.
pub open spec fn count_hits(msgs: Seq<(String, String)>, q: Seq<char>) -> nat
    decreases msgs.len(),
{
    if msgs.len() == 0 {
        0
    } else {
        count_hits(msgs.drop_last(), q) + if text_matches(msgs.last().1@, q) {
            1nat
        } else {
            0nat
        }
    }
}

/// Position of the first message whose text matches `q`.
pub open spec fn first_hit(msgs: Seq<(String, String)>, q: Seq<char>) -> Option<int>
    decreases msgs.len(),
{
    if msgs.len() == 0 {
        None
    } else {
        match first_hit(msgs.drop_last(), q) {
            Some(i) => Some(i),
            None => if text_matches(msgs.last().1@, q) {
                Some(msgs.len() - 1)
            } else {
                None
            },
        }
    }
}

/// Hits of a conversation: one for its name, if it matches, and one per matching
/// message.
pub open spec fn entry_hits(e: IndexEntry, q: Seq<char>) -> nat {
    (if text_matches(e.convo.name@, q) {
        1nat
    } else {
        0nat
    }) + count_hits(e.message_snippets@, q)
}

/// The snippet shown for a conversation: cut from its first matching message, or
/// empty when no message matches.
pub open spec fn entry_snippet(e: IndexEntry, q: Seq<char>) -> Seq<char> {
    match first_hit(e.message_snippets@, q) {
        Some(i) => spec_snippet(e.message_snippets@[i].1@, q, SNIPPET_WIDTH as nat),
        None => Seq::empty(),
    }
}

/// Positions, in index order, of the conversations with at least one hit.
pub open spec fn hit_entries(entries: Seq<IndexEntry>, q: Seq<char>) -> Seq<usize>
    decreases entries.len(),
{
    if entries.len() == 0 {
        Seq::empty()
    } else {
        let rest = hit_entries(entries.drop_last(), q);
        if entry_hits(entries.last(), q) > 0 {
            rest.push((entries.len() - 1) as usize)
        } else {
            rest
        }
    }
}

/// Entry `a` may stand before entry `b` when it was updated no earlier.
pub open spec fn newer_first(entries: Seq<IndexEntry>) -> spec_fn(int, int) -> bool {
    |a: int, b: int| str_le(entries[b].convo.updated_at@, entries[a].convo.updated_at@)
}

/// Hit `a` may stand before hit `b` when its conversation has no fewer hits.
pub open spec fn more_hits_first(entries: Seq<IndexEntry>, hits: Seq<usize>, q: Seq<char>) -> spec_fn(
    int,
    int,
) -> bool {
    |a: int, b: int|
        entry_hits(entries[hits[a] as int], q) >= entry_hits(entries[hits[b] as int], q)
}

/// `card` shows conversation `e` with the given snippet and number of hits.
pub open spec fn shows(card: ConvoCard, e: IndexEntry, snippet: Seq<char>, hits: nat) -> bool {
    &&& card.uuid == e.convo.uuid
    &&& card.name == e.convo.name
    &&& card.created_at == e.convo.created_at
    &&& card.updated_at == e.convo.updated_at
    &&& card.message_count == e.convo.message_count
    &&& card.snippet@ == snippet
    &&& card.match_count == hits
}

/// The smaller of two numbers.
pub open spec fn min_nat(a: nat, b: nat) -> nat {
    if a < b {
        a
    } else {
        b
    }
}

/// What a search for `query` over `entries` answers, showing at most `limit` cards.
/// An empty query lists every conversation, most recently updated first. Otherwise
/// the ASCII-lowercased query is looked for in the lowercased names and message
/// texts, and the conversations with hits are listed with the most hits first; in
/// both cases ties keep index order and `total` counts every conversation listed
/// before the cut to `limit`.
pub open spec fn is_search_answer(
    entries: Seq<IndexEntry>,
    query: Seq<char>,
    limit: nat,
    res: SearchResponse,
) -> bool {
    if query.len() == 0 {
        &&& res.total == entries.len()
        &&& res.convos@.len() == min_nat(limit, entries.len())
        &&& exists|order: Seq<usize>|
            {
                &&& is_stable_sort(order, entries.len(), newer_first(entries))
                &&& forall|k: int|
                    0 <= k < res.convos@.len() ==> shows(
                        #[trigger] res.convos@[k],
                        entries[order[k] as int],
                        Seq::empty(),
                        0,
                    )
            }
    } else {
        let q = lower_seq(query);
        let hits = hit_entries(entries, q);
        &&& res.total == hits.len()
        &&& res.convos@.len() == min_nat(limit, hits.len())
        &&& exists|order: Seq<usize>|
            {
                &&& is_stable_sort(order, hits.len(), more_hits_first(entries, hits, q))
                &&& forall|k: int|
                    0 <= k < res.convos@.len() ==> {
                        let e = entries[hits[order[k] as int] as int];
                        shows(#[trigger] res.convos@[k], e, entry_snippet(e, q), entry_hits(e, q))
                    }
            }
    }
}

/// The index stays within what the machine counts: hits fit a `u32` and every
/// message text, widened by a snippet window, fits a `usize` byte offset.
pub open spec fn within_limits(entries: Seq<IndexEntry>) -> bool {
    forall|i: int|
        0 <= i < entries.len() ==> {
            &&& #[trigger] entries[i].message_snippets@.len() < u32::MAX
            &&& forall|j: int|
                0 <= j < entries[i].message_snippets@.len() ==> utf8(
                    #[trigger] entries[i].message_snippets@[j].1@,
                ).len() + SNIPPET_WIDTH <= usize::MAX
        }
}


/// Every conversation listed among the hits has at least one hit, and the hits are
/// listed by increasing position.
pub proof fn lemma_hit_entries_have_hits(entries: Seq<IndexEntry>, q: Seq<char>)
    requires
        entries.len() <= usize::MAX,
    ensures
        forall|p: int|
            0 <= p < hit_entries(entries, q).len() ==> {
                &&& 0 <= #[trigger] hit_entries(entries, q)[p] < entries.len()
                &&& entry_hits(entries[hit_entries(entries, q)[p] as int], q) > 0
            },
        forall|p1: int, p2: int|
            0 <= p1 < p2 < hit_entries(entries, q).len() ==> #[trigger] hit_entries(entries, q)[p1]
                < #[trigger] hit_entries(entries, q)[p2],
    decreases entries.len(),
{
    if entries.len() > 0 {
        let rest = entries.drop_last();
        lemma_hit_entries_have_hits(rest, q);
        let r = hit_entries(rest, q);
        let h = hit_entries(entries, q);
        let n = entries.len() as int;
        assert forall|p: int| 0 <= p < r.len() implies entries[#[trigger] r[p] as int] == rest[r[p]
            as int] && r[p] < n - 1 by {}
        if entry_hits(entries.last(), q) > 0 {
            assert(h == r.push((n - 1) as usize));
            assert forall|p: int| 0 <= p < h.len() implies {
                &&& 0 <= #[trigger] h[p] < entries.len()
                &&& entry_hits(entries[h[p] as int], q) > 0
            } by {
                if p < r.len() {
                    assert(h[p] == r[p]);
                } else {
                    assert(h[p] == n - 1);
                    assert(entries[n - 1] == entries.last());
                }
            }
            assert forall|p1: int, p2: int| 0 <= p1 < p2 < h.len() implies #[trigger] h[p1]
                < #[trigger] h[p2] by {
                assert(h[p1] == r[p1]);
                assert(r[p1] < n - 1);
                if p2 < r.len() {
                    assert(h[p2] == r[p2]);
                } else {
                    assert(h[p2] == n - 1);
                }
            }
        } else {
            assert(h == r);
        }
    }
}

/// Queries that differ only in the case of ASCII letters get the same answers.
pub proof fn lemma_search_ignores_ascii_case(
    entries: Seq<IndexEntry>,
    q1: Seq<char>,
    q2: Seq<char>,
    limit: nat,
    res: SearchResponse,
)
    requires
        lower_seq(q1) == lower_seq(q2),
    ensures
        is_search_answer(entries, q1, limit, res) == is_search_answer(entries, q2, limit, res),
{
    assert(lower_seq(q1).len() == q1.len());
    assert(lower_seq(q2).len() == q2.len());
}

/// For a non-empty query every card shows at least one hit, and cards with more
/// hits come first.
pub proof fn lemma_cards_most_hits_first(
    entries: Seq<IndexEntry>,
    query: Seq<char>,
    limit: nat,
    res: SearchResponse,
)
    requires
        entries.len() <= usize::MAX,
        query.len() > 0,
        is_search_answer(entries, query, limit, res),
    ensures
        res.convos@.len() <= res.total,
        forall|k: int| 0 <= k < res.convos@.len() ==> #[trigger] res.convos@[k].match_count >= 1,
        forall|k1: int, k2: int|
            0 <= k1 < k2 < res.convos@.len() ==> #[trigger] res.convos@[k1].match_count
                >= #[trigger] res.convos@[k2].match_count,
{
    let q = lower_seq(query);
    let hits = hit_entries(entries, q);
    lemma_hit_entries_have_hits(entries, q);
    let order = choose|order: Seq<usize>|
        {
            &&& is_stable_sort(order, hits.len(), more_hits_first(entries, hits, q))
            &&& forall|k: int|
                0 <= k < res.convos@.len() ==> {
                    let e = entries[hits[order[k] as int] as int];
                    shows(#[trigger] res.convos@[k], e, entry_snippet(e, q), entry_hits(e, q))
                }
        };
    assert forall|k: int| 0 <= k < res.convos@.len() implies #[trigger] res.convos@[k].match_count
        >= 1 by {
        assert(order[k] < hits.len());
    }
    assert forall|k1: int, k2: int| 0 <= k1 < k2 < res.convos@.len() implies
        #[trigger] res.convos@[k1].match_count >= #[trigger] res.convos@[k2].match_count by {
        assert(more_hits_first(entries, hits, q)(order[k1] as int, order[k2] as int));
    }
}

/// For the empty query cards come most recently updated first, and every
/// conversation is counted.
pub proof fn lemma_cards_newest_first(entries: Seq<IndexEntry>, limit: nat, res: SearchResponse)
    requires
        is_search_answer(entries, Seq::empty(), limit, res),
    ensures
        res.total == entries.len(),
        forall|k: int| 0 <= k < res.convos@.len() ==> #[trigger] res.convos@[k].match_count == 0,
        forall|k1: int, k2: int|
            0 <= k1 < k2 < res.convos@.len() ==> str_le(
                (#[trigger] res.convos@[k2]).updated_at@,
                (#[trigger] res.convos@[k1]).updated_at@,
            ),
{
    let order = choose|order: Seq<usize>|
        {
            &&& is_stable_sort(order, entries.len(), newer_first(entries))
            &&& forall|k: int|
                0 <= k < res.convos@.len() ==> shows(
                    #[trigger] res.convos@[k],
                    entries[order[k] as int],
                    Seq::empty(),
                    0,
                )
        };
    assert forall|k1: int, k2: int| 0 <= k1 < k2 < res.convos@.len() implies str_le(
        (#[trigger] res.convos@[k2]).updated_at@,
        (#[trigger] res.convos@[k1]).updated_at@,
    ) by {
        assert(newer_first(entries)(order[k1] as int, order[k2] as int));
    }
}

/// Two cards show the same conversation the same way.
pub open spec fn same_card(a: ConvoCard, b: ConvoCard) -> bool {
    &&& a.uuid == b.uuid
    &&& a.name == b.name
    &&& a.created_at == b.created_at
    &&& a.updated_at == b.updated_at
    &&& a.message_count == b.message_count
    &&& a.snippet@ == b.snippet@
    &&& a.match_count == b.match_count
}

/// The total does not depend on the limit, and a search with a smaller limit shows
/// the first cards of the same search with a larger one.
pub proof fn lemma_smaller_limit_shows_prefix(
    entries: Seq<IndexEntry>,
    query: Seq<char>,
    l1: nat,
    l2: nat,
    r1: SearchResponse,
    r2: SearchResponse,
)
    requires
        l1 <= l2,
        is_search_answer(entries, query, l1, r1),
        is_search_answer(entries, query, l2, r2),
    ensures
        r1.total == r2.total,
        r1.convos@.len() <= r2.convos@.len(),
        forall|k: int|
            0 <= k < r1.convos@.len() ==> same_card(#[trigger] r1.convos@[k], r2.convos@[k]),
{
    if query.len() == 0 {
        let rel = newer_first(entries);
        let o1 = choose|order: Seq<usize>|
            {
                &&& is_stable_sort(order, entries.len(), rel)
                &&& forall|k: int|
                    0 <= k < r1.convos@.len() ==> shows(
                        #[trigger] r1.convos@[k],
                        entries[order[k] as int],
                        Seq::empty(),
                        0,
                    )
            };
        let o2 = choose|order: Seq<usize>|
            {
                &&& is_stable_sort(order, entries.len(), rel)
                &&& forall|k: int|
                    0 <= k < r2.convos@.len() ==> shows(
                        #[trigger] r2.convos@[k],
                        entries[order[k] as int],
                        Seq::empty(),
                        0,
                    )
            };
        lemma_stable_sort_unique(o1, o2, entries.len(), rel);
        assert forall|k: int| 0 <= k < r1.convos@.len() implies same_card(
            #[trigger] r1.convos@[k],
            r2.convos@[k],
        ) by {
            assert(shows(r2.convos@[k], entries[o2[k] as int], Seq::empty(), 0));
        }
    } else {
        let q = lower_seq(query);
        let hits = hit_entries(entries, q);
        let rel = more_hits_first(entries, hits, q);
        let o1 = choose|order: Seq<usize>|
            {
                &&& is_stable_sort(order, hits.len(), rel)
                &&& forall|k: int|
                    0 <= k < r1.convos@.len() ==> {
                        let e = entries[hits[order[k] as int] as int];
                        shows(#[trigger] r1.convos@[k], e, entry_snippet(e, q), entry_hits(e, q))
                    }
            };
        let o2 = choose|order: Seq<usize>|
            {
                &&& is_stable_sort(order, hits.len(), rel)
                &&& forall|k: int|
                    0 <= k < r2.convos@.len() ==> {
                        let e = entries[hits[order[k] as int] as int];
                        shows(#[trigger] r2.convos@[k], e, entry_snippet(e, q), entry_hits(e, q))
                    }
            };
        lemma_stable_sort_unique(o1, o2, hits.len(), rel);
        assert forall|k: int| 0 <= k < r1.convos@.len() implies same_card(
            #[trigger] r1.convos@[k],
            r2.convos@[k],
        ) by {
            let e = entries[hits[o2[k] as int] as int];
            assert(shows(r2.convos@[k], e, entry_snippet(e, q), entry_hits(e, q)));
        }
    }
}

/// A text can only match a non-empty query when it is not empty itself.
proof fn lemma_match_needs_text(text: Seq<char>, q: Seq<char>)
    requires
        q.len() > 0,
        text_matches(text, q),
    ensures
        text.len() > 0,
{
    assert(utf8(q).len() > 0) by {
        reveal_with_fuel(vstd::utf8::encode_utf8, 2);
    }
    if text.len() == 0 {
        assert(lower_seq(text) =~= Seq::<char>::empty());
        assert(utf8(lower_seq(text)).len() == 0);
        let i = choose|i: int| crate::server::text::occurs_at(utf8(lower_seq(text)), utf8(q), i);
    }
}

/// Counts the hits of one conversation for the lowercased query `q` and cuts the
/// snippet of its first matching message.
fn score_entry(e: &IndexEntry, q: &String) -> (r: (u32, String))
    requires
        q@.len() > 0,
        e.message_snippets@.len() < u32::MAX,
        forall|j: int|
            0 <= j < e.message_snippets@.len() ==> utf8(#[trigger] e.message_snippets@[j].1@).len()
                + SNIPPET_WIDTH <= usize::MAX,
    ensures
        r.0 == entry_hits(*e, q@),
        r.1@ == entry_snippet(*e, q@),
{
    let ghost msgs = e.message_snippets@;
    let qb = q.as_str().as_bytes();
    let name_lc = to_ascii_lowercase(e.convo.name.as_str());
    let mut count: u32 = if contains_bytes(name_lc.as_str().as_bytes(), qb) {
        1
    } else {
        0
    };
    let ghost name_part: nat = count as nat;
    let mut best = String::new();
    let mut i: usize = 0;
    assert(msgs.take(0) =~= Seq::<(String, String)>::empty());
    while i < e.message_snippets.len()
        invariant
            msgs == e.message_snippets@,
            qb@ == utf8(q@),
            q@.len() > 0,
            msgs.len() < u32::MAX,
            forall|j: int|
                0 <= j < msgs.len() ==> utf8(#[trigger] msgs[j].1@).len() + SNIPPET_WIDTH
                    <= usize::MAX,
            i <= msgs.len(),
            name_part <= 1,
            name_part == (if text_matches(e.convo.name@, q@) {
                1nat
            } else {
                0nat
            }),
            count == name_part + count_hits(msgs.take(i as int), q@),
            count_hits(msgs.take(i as int), q@) <= i,
            best@ == (match first_hit(msgs.take(i as int), q@) {
                Some(j) => spec_snippet(msgs[j].1@, q@, SNIPPET_WIDTH as nat),
                None => Seq::empty(),
            }),
            first_hit(msgs.take(i as int), q@) is Some ==> 0 <= first_hit(msgs.take(i as int), q@)->0 < i,
            (best@.len() == 0) == (first_hit(msgs.take(i as int), q@) is None),
        decreases msgs.len() - i,
    {
        let ghost before = msgs.take(i as int);
        let ghost after = msgs.take(i + 1);
        assert(after.drop_last() =~= before);
        assert(after.last() == msgs[i as int]);
        let text = &e.message_snippets[i].1;
        let lc = to_ascii_lowercase(text.as_str());
        if contains_bytes(lc.as_str().as_bytes(), qb) {
            count = count + 1;
            if best.as_str().is_empty() {
                best = make_snippet(text.as_str(), q.as_str(), SNIPPET_WIDTH);
                proof {
                    lemma_match_needs_text(text@, q@);
                    lemma_snippet_empty_only_for_empty_text(text@, q@, SNIPPET_WIDTH as nat);
                }
            }
        }
        i = i + 1;
    }
    assert(msgs.take(msgs.len() as int) =~= msgs);
    (count, best)
}

/// Card of a conversation with the given snippet and number of hits.
fn card_for(e: &IndexEntry, snippet: String, hits: usize) -> (card: ConvoCard)
    ensures
        shows(card, *e, snippet@, hits as nat),
{
    ConvoCard {
        uuid: e.convo.uuid.clone(),
        name: e.convo.name.clone(),
        created_at: e.convo.created_at.clone(),
        updated_at: e.convo.updated_at.clone(),
        message_count: e.convo.message_count,
        snippet,
        match_count: hits,
    }
}

/// The id and text of each message, in order.
pub open spec fn snippets_of(messages: Seq<Message>) -> Seq<(String, String)> {
    messages.map_values(|m: Message| (m.uuid, m.text))
}

impl IndexEntry {
    /// The index entry of a conversation and its messages.
    pub fn new(convo: Conversation, messages: Vec<Message>) -> (e: IndexEntry)
        ensures
            e.convo == convo,
            e.message_snippets@ == snippets_of(messages@),
    {
        let ghost msgs = messages@;
        let mut message_snippets: Vec<(String, String)> = Vec::new();
        for m in it: messages.into_iter()
            invariant
                it.seq() == msgs,
                message_snippets@ == snippets_of(msgs.take(it.index() as int)),
        {
            proof {
                assert(snippets_of(msgs.take(it.index() + 1)) =~= snippets_of(
                    msgs.take(it.index() as int),
                ).push((m.uuid, m.text)));
            }
            message_snippets.push((m.uuid, m.text));
        }
        assert(msgs.take(msgs.len() as int) =~= msgs);
        IndexEntry { convo, message_snippets }
    }
}

impl SearchIndex {
    /// Builds the index from the conversations, each with its messages in key order.
    pub fn build(data: Vec<(Conversation, Vec<Message>)>) -> (index: SearchIndex)
        ensures
            index.entries@.len() == data@.len(),
            forall|i: int|
                0 <= i < data@.len() ==> {
                    &&& (#[trigger] index.entries@[i]).convo == data@[i].0
                    &&& index.entries@[i].message_snippets@ == snippets_of(data@[i].1@)
                },
    {
        let ghost d = data@;
        let mut entries: Vec<IndexEntry> = Vec::new();
        for item in it: data.into_iter()
            invariant
                it.seq() == d,
                entries@.len() == it.index(),
                forall|i: int|
                    0 <= i < it.index() ==> {
                        &&& (#[trigger] entries@[i]).convo == d[i].0
                        &&& entries@[i].message_snippets@ == snippets_of(d[i].1@)
                    },
        {
            let (convo, messages) = item;
            entries.push(IndexEntry::new(convo, messages));
        }
        SearchIndex { entries }
    }

    /// Every conversation, most recently updated first, cut to `limit` cards.
    fn list_recent(&self, limit: usize) -> (res: SearchResponse)
        ensures
            is_search_answer(self.entries@, Seq::empty(), limit as nat, res),
    {
        let ghost entries = self.entries@;
        let n = self.entries.len();
        let ghost rel = newer_first(entries);
        proof {
            assert forall|a: int, b: int| 0 <= a < n && 0 <= b < n implies #[trigger] rel(a, b)
                || rel(b, a) by {
                lemma_bytes_le_total(
                    utf8(entries[a].convo.updated_at@),
                    utf8(entries[b].convo.updated_at@),
                );
            }
            assert forall|a: int, b: int, c: int|
                0 <= a < n && 0 <= b < n && 0 <= c < n && #[trigger] rel(a, b) && #[trigger] rel(
                    b,
                    c,
                ) implies rel(a, c) by {
                lemma_bytes_le_transitive(
                    utf8(entries[c].convo.updated_at@),
                    utf8(entries[b].convo.updated_at@),
                    utf8(entries[a].convo.updated_at@),
                );
            }
        }
        let may_precede = |a: usize, b: usize| -> (r: bool)
            requires
                a < self.entries@.len(),
                b < self.entries@.len(),
            ensures
                r == str_le(
                    self.entries@[b as int].convo.updated_at@,
                    self.entries@[a as int].convo.updated_at@,
                ),
            {
                str_le_exec(
                    self.entries[b].convo.updated_at.as_str(),
                    self.entries[a].convo.updated_at.as_str(),
                )
            };
        let order = stable_sort(n, &may_precede, Ghost(rel));
        let shown = if limit < n {
            limit
        } else {
            n
        };
        let mut convos: Vec<ConvoCard> = Vec::new();
        let mut k: usize = 0;
        while k < shown
            invariant
                entries == self.entries@,
                shown <= n,
                n == entries.len(),
                is_stable_sort(order@, n as nat, rel),
                k <= shown,
                convos@.len() == k,
                forall|j: int|
                    0 <= j < k ==> shows(
                        #[trigger] convos@[j],
                        entries[order@[j] as int],
                        Seq::empty(),
                        0,
                    ),
            decreases shown - k,
        {
            let e = &self.entries[order[k]];
            convos.push(card_for(e, String::new(), 0));
            k = k + 1;
        }
        assert(is_stable_sort(order@, entries.len(), newer_first(entries)));
        SearchResponse { convos, total: n }
    }

    /// Searches the index for `query`, returning at most `limit` cards and the
    /// number of conversations that matched.
    pub fn search(&self, query: &str, limit: usize) -> (res: SearchResponse)
        requires
            within_limits(self.entries@),
        ensures
            is_search_answer(self.entries@, query@, limit as nat, res),
    {
        if query.is_empty() {
            return self.list_recent(limit);
        }
        let ghost entries = self.entries@;
        let q = to_ascii_lowercase(query);
        let ghost hits = hit_entries(entries, q@);
        let n = self.entries.len();
        let mut scored: Vec<(usize, u32, String)> = Vec::new();
        let mut idx: usize = 0;
        assert(entries.take(0) =~= Seq::<IndexEntry>::empty());
        while idx < n
            invariant
                entries == self.entries@,
                n == entries.len(),
                within_limits(entries),
                q@ == lower_seq(query@),
                q@.len() > 0,
                idx <= n,
                scored@.len() == hit_entries(entries.take(idx as int), q@).len(),
                forall|p: int|
                    0 <= p < scored@.len() ==> {
                        let h = hit_entries(entries.take(idx as int), q@);
                        &&& (#[trigger] scored@[p]).0 == h[p]
                        &&& h[p] < idx
                        &&& scored@[p].1 == entry_hits(entries[h[p] as int], q@)
                        &&& scored@[p].2@ == entry_snippet(entries[h[p] as int], q@)
                    },
            decreases n - idx,
        {
            let ghost before = entries.take(idx as int);
            let ghost after = entries.take(idx + 1);
            assert(after.drop_last() =~= before);
            assert(after.last() == entries[idx as int]);
            let e = &self.entries[idx];
            let (count, snippet) = score_entry(e, &q);
            if count > 0 {
                scored.push((idx, count, snippet));
            }
            proof {
                let h0 = hit_entries(before, q@);
                let h1 = hit_entries(after, q@);
                assert forall|p: int| 0 <= p < h0.len() implies #[trigger] h1[p] == h0[p] by {}
            }
            idx = idx + 1;
        }
        assert(entries.take(n as int) =~= entries);
        proof {
            lemma_hit_entries_have_hits(entries, q@);
        }
        let m = scored.len();
        let ghost rel = more_hits_first(entries, hits, q@);
        assert(is_total_preorder(rel, m as nat));
        let may_precede = |a: usize, b: usize| -> (r: bool)
            requires
                a < scored@.len(),
                b < scored@.len(),
            ensures
                r == (scored@[a as int].1 >= scored@[b as int].1),
            { scored[a].1 >= scored[b].1 };
        let order = stable_sort(m, &may_precede, Ghost(rel));
        let shown = if limit < m {
            limit
        } else {
            m
        };
        let mut convos: Vec<ConvoCard> = Vec::new();
        let mut k: usize = 0;
        while k < shown
            invariant
                entries == self.entries@,
                shown <= m,
                m == scored@.len(),
                m == hits.len(),
                is_stable_sort(order@, m as nat, rel),
                forall|p: int|
                    0 <= p < scored@.len() ==> {
                        &&& (#[trigger] scored@[p]).0 == hits[p]
                        &&& hits[p] < entries.len()
                        &&& scored@[p].1 == entry_hits(entries[hits[p] as int], q@)
                        &&& scored@[p].2@ == entry_snippet(entries[hits[p] as int], q@)
                    },
                k <= shown,
                convos@.len() == k,
                forall|j: int|
                    0 <= j < k ==> {
                        let e = entries[hits[order@[j] as int] as int];
                        shows(#[trigger] convos@[j], e, entry_snippet(e, q@), entry_hits(e, q@))
                    },
            decreases shown - k,
        {
            let p = order[k];
            let e = &self.entries[scored[p].0];
            convos.push(card_for(e, scored[p].2.clone(), scored[p].1 as usize));
            k = k + 1;
        }
        assert(is_stable_sort(order@, hits.len(), more_hits_first(entries, hits, q@)));
        SearchResponse { convos, total: m }
    }
}

} // verus!
