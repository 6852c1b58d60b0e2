use vstd::prelude::*;
use vstd::string::*;
use vstd::utf8::*;

verus! {


/// The UTF-8 bytes of a character sequence.
pub open spec fn utf8(s: Seq<char>) -> Seq<u8> {
    encode_utf8(s)
}

/// The encoding of a concatenation is the concatenation of the encodings.
pub proof fn lemma_utf8_concat(a: Seq<char>, b: Seq<char>)
    ensures
        utf8(a + b) == utf8(a) + utf8(b),
    decreases a.len(),
{
    if a.len() == 0 {
        assert(a + b =~= b);
        assert(utf8(a) + utf8(b) =~= utf8(b));
    } else {
        lemma_utf8_concat(a.drop_first(), b);
        assert((a + b).drop_first() =~= a.drop_first() + b);
        assert((a + b)[0] == a[0]);
    }
}

/// True when `r` is the greatest character boundary of `bytes` that is not after `i`.
pub open spec fn is_floor_boundary(bytes: Seq<u8>, i: int, r: int) -> bool {
    &&& 0 <= r <= i
    &&& is_char_boundary(bytes, r)
    &&& forall|k: int| r < k <= i ==> !is_char_boundary(bytes, k)
}

/// The greatest character boundary of `bytes` that is not after `i` (for `i >= 0`).
pub open spec fn floor_boundary(bytes: Seq<u8>, i: int) -> int {
    choose|r: int| is_floor_boundary(bytes, i, r)
}

/// At most one position is the floor boundary of `i`.
pub proof fn lemma_floor_boundary_unique(bytes: Seq<u8>, i: int, r: int)
    requires
        is_floor_boundary(bytes, i, r),
    ensures
        floor_boundary(bytes, i) == r,
{
    let c = floor_boundary(bytes, i);
    assert(is_floor_boundary(bytes, i, c));
    if c < r {
        assert(!is_char_boundary(bytes, r));
    } else if r < c {
        assert(!is_char_boundary(bytes, c));
    }
}

/// Every non-negative position has a floor boundary in a well-formed encoding.
pub proof fn lemma_floor_boundary_exists(bytes: Seq<u8>, i: int)
    requires
        valid_utf8(bytes),
        0 <= i,
    ensures
        is_floor_boundary(bytes, i, floor_boundary(bytes, i)),
    decreases i,
{
    assert(is_char_boundary(bytes, 0));
    if is_char_boundary(bytes, i) {
        lemma_floor_boundary_unique(bytes, i, i);
    } else {
        lemma_floor_boundary_exists(bytes, i - 1);
        let r = floor_boundary(bytes, i - 1);
        lemma_floor_boundary_unique(bytes, i, r);
    }
}

/// Moves a byte index of `s` back to the nearest character boundary at or before it.
pub fn floor_char(s: &str, i: usize) -> (r: usize)
    ensures
        is_floor_boundary(utf8(s@), i as int, r as int),
        r as int == floor_boundary(utf8(s@), i as int),
        r <= utf8(s@).len(),
{
    let ghost bytes = utf8(s@);
    proof {
        broadcast use vstd::utf8::encode_utf8_valid_utf8;
        assert(valid_utf8(bytes));
        assert(is_char_boundary(bytes, 0));
    }
    let mut i = i;
    let ghost i0 = i as int;
    while i > 0 && !s.is_char_boundary(i)
        invariant
            bytes == utf8(s@),
            valid_utf8(bytes),
            0 <= i <= i0,
            forall|k: int| i < k <= i0 ==> !is_char_boundary(bytes, k),
        decreases i,
    {
        i = i - 1;
    }
    proof {
        if i as int > bytes.len() {
            assert(!is_char_boundary(bytes, i as int));
        }
        lemma_floor_boundary_unique(bytes, i0, i as int);
    }
    i
}


/// True when `pat` occurs in `hay` starting at byte `i`.
pub open spec fn occurs_at(hay: Seq<u8>, pat: Seq<u8>, i: int) -> bool {
    &&& 0 <= i
    &&& i + pat.len() <= hay.len()
    &&& hay.subrange(i, i + pat.len()) == pat
}

/// True when `pat` occurs somewhere in `hay`.
pub open spec fn occurs_in(hay: Seq<u8>, pat: Seq<u8>) -> bool {
    exists|i: int| occurs_at(hay, pat, i)
}

/// True when `i` is the first position at which `pat` occurs in `hay`.
pub open spec fn is_first_occurrence(hay: Seq<u8>, pat: Seq<u8>, i: int) -> bool {
    &&& occurs_at(hay, pat, i)
    &&& forall|j: int| 0 <= j < i ==> !occurs_at(hay, pat, j)
}

/// The first position at which `pat` occurs in `hay`, if it occurs.
pub open spec fn first_occurrence(hay: Seq<u8>, pat: Seq<u8>) -> Option<int> {
    if occurs_in(hay, pat) {
        Some(choose|i: int| is_first_occurrence(hay, pat, i))
    } else {
        None
    }
}

proof fn lemma_first_occurrence_unique(hay: Seq<u8>, pat: Seq<u8>, i: int)
    requires
        is_first_occurrence(hay, pat, i),
    ensures
        first_occurrence(hay, pat) == Some(i),
{
    assert(occurs_in(hay, pat));
    let c = choose|k: int| is_first_occurrence(hay, pat, k);
    assert(is_first_occurrence(hay, pat, c));
    if c < i {
        assert(!occurs_at(hay, pat, c));
    } else if i < c {
        assert(!occurs_at(hay, pat, i));
    }
}

/// Whether `pat` occurs in `hay` at byte `i`; `i + pat.len()` must lie within `hay`.
fn bytes_match_at(hay: &[u8], pat: &[u8], i: usize) -> (r: bool)
    requires
        i + pat@.len() <= hay@.len(),
    ensures
        r == occurs_at(hay@, pat@, i as int),
{
    let n = hay.len();
    let mut k: usize = 0;
    while k < pat.len()
        invariant
            i + pat@.len() <= hay@.len(),
            n == hay@.len(),
            k <= pat@.len(),
            forall|t: int| 0 <= t < k ==> hay@[i + t] == pat@[t],
        decreases pat@.len() - k,
    {
        if hay[i + k] != pat[k] {
            proof {
                assert(hay@.subrange(i as int, i + pat@.len())[k as int] != pat@[k as int]);
            }
            return false;
        }
        k = k + 1;
    }
    assert(hay@.subrange(i as int, i + pat@.len()) =~= pat@);
    true
}

/// The first byte position at which `pat` occurs in `hay`.
pub fn find_bytes(hay: &[u8], pat: &[u8]) -> (r: Option<usize>)
    ensures
        r matches Some(p) ==> p as int == first_occurrence(hay@, pat@)->0,
        r is Some <==> occurs_in(hay@, pat@),
        first_occurrence(hay@, pat@) == (match r { Some(p) => Some(p as int), None => None::<int> }),
{
    if pat.len() > hay.len() {
        proof {
            assert forall|j: int| !occurs_at(hay@, pat@, j) by {}
        }
        return None;
    }
    let last = hay.len() - pat.len();
    let mut i: usize = 0;
    loop
        invariant
            last + pat@.len() == hay@.len(),
            i <= last,
            forall|j: int| 0 <= j < i ==> !occurs_at(hay@, pat@, j),
        decreases last - i,
    {
        if bytes_match_at(hay, pat, i) {
            proof {
                lemma_first_occurrence_unique(hay@, pat@, i as int);
            }
            return Some(i);
        }
        if i == last {
            proof {
                assert forall|j: int| !occurs_at(hay@, pat@, j) by {
                    if 0 <= j <= i {
                    }
                }
            }
            return None;
        }
        i = i + 1;
    }
}

/// Whether `pat` occurs in `hay`.
pub fn contains_bytes(hay: &[u8], pat: &[u8]) -> (r: bool)
    ensures
        r == occurs_in(hay@, pat@),
{
    find_bytes(hay, pat).is_some()
}


/// ASCII lowercase of one character: `A`..=`Z` become `a`..=`z`, all else is kept.
pub open spec fn ascii_lower(c: char) -> char {
    if 'A' <= c <= 'Z' {
        ((c as u32) + 32) as char
    } else {
        c
    }
}

/// ASCII lowercase of a character sequence.
pub open spec fn lower_seq(s: Seq<char>) -> Seq<char> {
    s.map_values(|c: char| ascii_lower(c))
}

/// Calls `str::to_ascii_lowercase` of std, which maps every ASCII capital letter
/// to its small letter and leaves every other character as it is.
#[verifier::external_body]
pub(crate) fn to_ascii_lowercase(s: &str) -> (res: String)
    ensures
        res@ == lower_seq(s@),
{
    s.to_ascii_lowercase()
}

/// The horizontal ellipsis that marks a cut at either side of a snippet.
pub open spec fn ellipsis() -> Seq<char> {
    seq!['\u{2026}']
}

/// Byte position in `text` around which a snippet is cut: the first occurrence of
/// `needle` in the lowercased text, or 0 when there is none.
pub open spec fn snippet_anchor(text: Seq<char>, needle: Seq<char>) -> int {
    match first_occurrence(utf8(lower_seq(text)), utf8(needle)) {
        Some(p) => p,
        None => 0,
    }
}

/// First byte of the window that a snippet shows: a quarter of the width before the
/// anchor (but not before 0), moved back to a character boundary.
pub open spec fn snippet_start(text: Seq<char>, needle: Seq<char>, width: nat) -> int {
    let pos = snippet_anchor(text, needle);
    let back = (width / 4) as int;
    floor_boundary(utf8(text), if pos >= back { pos - back } else { 0 })
}

/// End (exclusive) of the window that a snippet shows: `width` bytes after its start
/// (but not past the text), moved back to a character boundary.
pub open spec fn snippet_end(text: Seq<char>, needle: Seq<char>, width: nat) -> int {
    let start = snippet_start(text, needle, width);
    let n = utf8(text).len() as int;
    floor_boundary(utf8(text), if start + width < n { start + width } else { n })
}

/// The snippet of `text` around `needle`: the window's characters, with an ellipsis
/// in front when the window does not start the text and one behind when it does not
/// end it.
pub open spec fn spec_snippet(text: Seq<char>, needle: Seq<char>, width: nat) -> Seq<char> {
    let bytes = utf8(text);
    let start = snippet_start(text, needle, width);
    let end = snippet_end(text, needle, width);
    (if start > 0 { ellipsis() } else { Seq::empty() })
        + decode_utf8(bytes.subrange(start, end))
        + (if end < bytes.len() { ellipsis() } else { Seq::empty() })
}

proof fn lemma_boundary_in_suffix(bytes: Seq<u8>, s: int, e: int)
    requires
        valid_utf8(bytes),
        is_char_boundary(bytes, s),
        is_char_boundary(bytes, e),
        0 <= s <= e <= bytes.len(),
    ensures
        valid_utf8(bytes.subrange(s, bytes.len() as int)),
        is_char_boundary(bytes.subrange(s, bytes.len() as int), e - s),
{
    broadcast use {
        vstd::utf8::valid_utf8_split,
        vstd::utf8::is_char_boundary_iff_not_is_continuation_byte,
        vstd::utf8::is_char_boundary_start_end_of_seq,
    };

    let rest = bytes.subrange(s, bytes.len() as int);
    assert(valid_utf8(rest));
    if e < bytes.len() {
        assert(rest[e - s] == bytes[e]);
        assert(!is_continuation_byte(bytes[e]));
    } else {
        assert(rest.len() == e - s);
    }
}

/// A snippet is empty only when the whole text is.
pub proof fn lemma_snippet_empty_only_for_empty_text(text: Seq<char>, needle: Seq<char>, width: nat)
    ensures
        spec_snippet(text, needle, width).len() == 0 ==> text.len() == 0,
{
    broadcast use {vstd::utf8::encode_utf8_valid_utf8, vstd::utf8::encode_utf8_decode_utf8};

    let bytes = utf8(text);
    let n = bytes.len() as int;
    let pos = snippet_anchor(text, needle);
    let back = (width / 4) as int;
    let from = if pos >= back { pos - back } else { 0 };
    lemma_floor_boundary_exists(bytes, from);
    let start = snippet_start(text, needle, width);
    let stop = if start + width < n { start + width } else { n };
    assert(start <= n);
    lemma_floor_boundary_exists(bytes, stop);
    let end = snippet_end(text, needle, width);
    if start == 0 && end == n {
        assert(bytes.subrange(start, end) =~= bytes);
    }
}

/// The window a snippet shows runs between two character boundaries of the text,
/// spans at most `width` bytes, and does not start after the anchor.
pub proof fn lemma_snippet_window(text: Seq<char>, needle: Seq<char>, width: nat)
    ensures
        ({
            let bytes = utf8(text);
            let start = snippet_start(text, needle, width);
            let end = snippet_end(text, needle, width);
            &&& 0 <= start <= end <= bytes.len()
            &&& end - start <= width
            &&& is_char_boundary(bytes, start)
            &&& is_char_boundary(bytes, end)
            &&& start <= snippet_anchor(text, needle) || start == 0
        }),
{
    broadcast use vstd::utf8::encode_utf8_valid_utf8;

    let bytes = utf8(text);
    let n = bytes.len() as int;
    let pos = snippet_anchor(text, needle);
    let back = (width / 4) as int;
    let from = if pos >= back { pos - back } else { 0 };
    lemma_floor_boundary_exists(bytes, from);
    let start = snippet_start(text, needle, width);
    assert(start <= n);
    let stop = if start + width < n { start + width } else { n };
    lemma_floor_boundary_exists(bytes, stop);
    assert(is_floor_boundary(bytes, stop, snippet_end(text, needle, width)));
    assert(is_char_boundary(bytes, start));
}

/// A text no longer than the window whose anchor lies in the window's first
/// quarter is shown whole, without ellipses.
pub proof fn lemma_short_text_shown_whole(text: Seq<char>, needle: Seq<char>, width: nat)
    requires
        utf8(text).len() <= width,
        snippet_anchor(text, needle) <= width / 4,
    ensures
        spec_snippet(text, needle, width) == text,
{
    broadcast use {vstd::utf8::encode_utf8_valid_utf8, vstd::utf8::encode_utf8_decode_utf8};

    let bytes = utf8(text);
    let n = bytes.len() as int;
    assert(is_char_boundary(bytes, 0));
    lemma_floor_boundary_unique(bytes, 0, 0);
    assert(snippet_start(text, needle, width) == 0);
    assert(is_char_boundary(bytes, n)) by {
        vstd::utf8::is_char_boundary_start_end_of_seq(bytes);
    }
    lemma_floor_boundary_unique(bytes, n, n);
    assert(snippet_end(text, needle, width) == n);
    assert(bytes.subrange(0, n) =~= bytes);
    assert(Seq::<char>::empty() + text + Seq::<char>::empty() =~= text);
}

/// In well-formed UTF-8 a character boundary lies at most three bytes before any
/// position: no character takes more than four bytes.
pub proof fn lemma_boundary_near(bytes: Seq<u8>, i: int)
    requires
        valid_utf8(bytes),
        0 <= i <= bytes.len(),
    ensures
        is_floor_boundary(bytes, i, floor_boundary(bytes, i)),
        floor_boundary(bytes, i) >= i - 3,
    decreases bytes.len(),
{
    lemma_floor_boundary_exists(bytes, i);
    let r = floor_boundary(bytes, i);
    if i > 0 {
        let l = length_of_first_scalar(bytes);
        let tail = pop_first_scalar(bytes);
        assert(1 <= l <= 4);
        if i >= l {
            assert(tail.len() == bytes.len() - l);
            lemma_boundary_near(tail, i - l);
            let rt = floor_boundary(tail, i - l);
            assert(is_char_boundary(bytes, rt + l)) by {
                reveal_with_fuel(is_char_boundary, 2);
            }
            if r < rt + l {
                assert(!is_char_boundary(bytes, rt + l));
            }
        }
    }
}

/// ASCII lowercasing keeps the byte length of a text.
pub proof fn lemma_lower_keeps_byte_length(s: Seq<char>)
    ensures
        utf8(lower_seq(s)).len() == utf8(s).len(),
    decreases s.len(),
{
    if s.len() > 0 {
        lemma_lower_keeps_byte_length(s.drop_first());
        assert(lower_seq(s).drop_first() =~= lower_seq(s.drop_first()));
        let c = s[0];
        assert(lower_seq(s)[0] == ascii_lower(c));
        if 'A' <= c <= 'Z' {
            assert(has_width_1_encoding(ascii_lower(c) as u32));
            assert(has_width_1_encoding(c as u32));
        }
    }
}

/// The anchor of a snippet never lies past the end of the text.
pub proof fn lemma_anchor_within_text(text: Seq<char>, needle: Seq<char>)
    ensures
        0 <= snippet_anchor(text, needle) <= utf8(text).len(),
{
    lemma_lower_keeps_byte_length(text);
    let hay = utf8(lower_seq(text));
    let pat = utf8(needle);
    if occurs_in(hay, pat) {
        let w = choose|w: int| occurs_at(hay, pat, w);
        assert(exists|i: int| is_first_occurrence(hay, pat, i)) by {
            lemma_first_occurrence_exists(hay, pat, w);
        }
    }
}

/// Where a pattern occurs it has a first occurrence.
pub proof fn lemma_first_occurrence_exists(hay: Seq<u8>, pat: Seq<u8>, w: int)
    requires
        occurs_at(hay, pat, w),
    ensures
        exists|i: int| is_first_occurrence(hay, pat, i),
    decreases w,
{
    if exists|j: int| 0 <= j < w && occurs_at(hay, pat, j) {
        let j = choose|j: int| 0 <= j < w && occurs_at(hay, pat, j);
        lemma_first_occurrence_exists(hay, pat, j);
    } else {
        assert(is_first_occurrence(hay, pat, w));
    }
}

/// The window of a snippet starts at most a quarter of its width, plus the three
/// bytes that a character boundary may lie back, before the anchor.
pub proof fn lemma_snippet_starts_near_anchor(text: Seq<char>, needle: Seq<char>, width: nat)
    ensures
        snippet_start(text, needle, width) + width / 4 + 3 >= snippet_anchor(text, needle),
{
    broadcast use vstd::utf8::encode_utf8_valid_utf8;

    lemma_anchor_within_text(text, needle);
    let bytes = utf8(text);
    let pos = snippet_anchor(text, needle);
    let back = (width / 4) as int;
    let from = if pos >= back { pos - back } else { 0 };
    lemma_boundary_near(bytes, from);
}

/// When the needle occurs in the lowercased text and is short enough for the
/// window (its bytes, a quarter of the width and six bytes of slack fit the
/// width), the window covers the bytes of its first occurrence.
pub proof fn lemma_snippet_covers_match(text: Seq<char>, needle: Seq<char>, width: nat)
    requires
        occurs_in(utf8(lower_seq(text)), utf8(needle)),
        utf8(needle).len() + width / 4 + 6 <= width,
    ensures
        ({
            let pos = snippet_anchor(text, needle);
            &&& occurs_at(utf8(lower_seq(text)), utf8(needle), pos)
            &&& snippet_start(text, needle, width) <= pos
            &&& pos + utf8(needle).len() <= snippet_end(text, needle, width)
        }),
{
    broadcast use vstd::utf8::encode_utf8_valid_utf8;

    let bytes = utf8(text);
    let n = bytes.len() as int;
    let hay = utf8(lower_seq(text));
    let pat = utf8(needle);
    let w = choose|w: int| occurs_at(hay, pat, w);
    lemma_first_occurrence_exists(hay, pat, w);
    let pos = snippet_anchor(text, needle);
    assert(is_first_occurrence(hay, pat, pos));
    lemma_lower_keeps_byte_length(text);
    lemma_snippet_window(text, needle, width);
    lemma_snippet_starts_near_anchor(text, needle, width);
    let start = snippet_start(text, needle, width);
    let stop = if start + width < n { start + width } else { n };
    lemma_boundary_near(bytes, stop);
    if stop == n {
        vstd::utf8::is_char_boundary_start_end_of_seq(bytes);
        lemma_floor_boundary_unique(bytes, n, n);
    }
}

/// The characters of `text` between two of its character boundaries.
fn char_range(text: &str, start: usize, end: usize) -> (mid: &str)
    requires
        start <= end,
        is_char_boundary(utf8(text@), start as int),
        is_char_boundary(utf8(text@), end as int),
    ensures
        mid@ == decode_utf8(utf8(text@).subrange(start as int, end as int)),
{
    let ghost bytes = utf8(text@);
    proof {
        broadcast use vstd::utf8::encode_utf8_valid_utf8;
        assert(valid_utf8(bytes));
        assert(end <= bytes.len());
        lemma_boundary_in_suffix(bytes, start as int, end as int);
    }
    let (_, rest) = text.split_at(start);
    let (mid, _) = rest.split_at(end - start);
    proof {
        broadcast use vstd::utf8::encode_utf8_decode_utf8;
        assert(mid.spec_bytes() =~= bytes.subrange(start as int, end as int));
        assert(decode_utf8(utf8(mid@)) == mid@);
    }
    mid
}

/// Cuts a snippet of about `width` bytes out of `text` around the first
/// (ASCII case-insensitive) occurrence of `needle`.
pub fn make_snippet(text: &str, needle: &str, width: usize) -> (s: String)
    requires
        utf8(text@).len() + width <= usize::MAX,
    ensures
        s@ == spec_snippet(text@, needle@, width as nat),
{
    let ghost bytes = utf8(text@);
    let lc = to_ascii_lowercase(text);
    let pos = match find_bytes(lc.as_str().as_bytes(), needle.as_bytes()) {
        Some(p) => p,
        None => 0,
    };
    assert(pos == snippet_anchor(text@, needle@));
    let back = width / 4;
    let from = if pos >= back { pos - back } else { 0 };
    let start = floor_char(text, from);
    assert(start == snippet_start(text@, needle@, width as nat));
    let n = text.len();
    let stop = if start + width < n { start + width } else { n };
    let end = floor_char(text, stop);
    assert(end == snippet_end(text@, needle@, width as nat));
    assert(start <= end) by {
        assert(is_char_boundary(bytes, start as int));
    }
    let mid = char_range(text, start, end);
    let mut s = String::new();
    if start > 0 {
        s.append("\u{2026}");
    }
    s.append(mid);
    if end < n {
        s.append("\u{2026}");
    }
    proof {
        reveal_strlit("\u{2026}");
    }
    s
}


/// Whether two strings are equal, compared byte by byte.
pub fn str_eq(a: &str, b: &str) -> (r: bool)
    ensures
        r == (a@ == b@),
{
    let x = a.as_bytes();
    let y = b.as_bytes();
    proof {
        broadcast use vstd::utf8::encode_utf8_decode_utf8;
        assert(decode_utf8(utf8(a@)) == a@);
        assert(decode_utf8(utf8(b@)) == b@);
    }
    if x.len() != y.len() {
        return false;
    }
    let mut i: usize = 0;
    while i < x.len()
        invariant
            x@ == utf8(a@),
            y@ == utf8(b@),
            x@.len() == y@.len(),
            i <= x@.len(),
            forall|k: int| 0 <= k < i ==> x@[k] == y@[k],
        decreases x@.len() - i,
    {
        if x[i] != y[i] {
            return false;
        }
        i = i + 1;
    }
    assert(x@ =~= y@);
    true
}

/// `a` does not come after `b` in the lexicographic order of byte sequences, the
/// order in which std compares strings.
pub open spec fn bytes_le(a: Seq<u8>, b: Seq<u8>) -> bool
    decreases a.len(),
{
    if a.len() == 0 {
        true
    } else if b.len() == 0 {
        false
    } else if a[0] != b[0] {
        a[0] < b[0]
    } else {
        bytes_le(a.drop_first(), b.drop_first())
    }
}

/// `a` does not come after `b` in std's order of strings.
pub open spec fn str_le(a: Seq<char>, b: Seq<char>) -> bool {
    bytes_le(utf8(a), utf8(b))
}

/// Any two byte sequences are ordered one way or the other.
pub proof fn lemma_bytes_le_total(a: Seq<u8>, b: Seq<u8>)
    ensures
        bytes_le(a, b) || bytes_le(b, a),
    decreases a.len(),
{
    if a.len() > 0 && b.len() > 0 && a[0] == b[0] {
        lemma_bytes_le_total(a.drop_first(), b.drop_first());
    }
}

/// The order of byte sequences is transitive.
pub proof fn lemma_bytes_le_transitive(a: Seq<u8>, b: Seq<u8>, c: Seq<u8>)
    requires
        bytes_le(a, b),
        bytes_le(b, c),
    ensures
        bytes_le(a, c),
    decreases a.len(),
{
    if a.len() > 0 && b.len() > 0 && c.len() > 0 && a[0] == b[0] && b[0] == c[0] {
        lemma_bytes_le_transitive(a.drop_first(), b.drop_first(), c.drop_first());
    }
}

/// Whether `a` does not come after `b` in std's order of strings.
pub fn str_le_exec(a: &str, b: &str) -> (r: bool)
    ensures
        r == str_le(a@, b@),
{
    let x = a.as_bytes();
    let y = b.as_bytes();
    let mut i: usize = 0;
    assert(x@.skip(0) =~= x@ && y@.skip(0) =~= y@);
    while i < x.len() && i < y.len() && x[i] == y[i]
        invariant
            x@ == utf8(a@),
            y@ == utf8(b@),
            i <= x@.len(),
            i <= y@.len(),
            bytes_le(x@, y@) == bytes_le(x@.skip(i as int), y@.skip(i as int)),
        decreases x@.len() - i,
    {
        assert(x@.skip(i as int).drop_first() =~= x@.skip(i + 1));
        assert(y@.skip(i as int).drop_first() =~= y@.skip(i + 1));
        i = i + 1;
    }
    if i == x.len() {
        true
    } else if i == y.len() {
        false
    } else {
        x[i] < y[i]
    }
}

} // verus!
