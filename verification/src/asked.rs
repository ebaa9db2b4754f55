//! What a search looks for, told by the text or the material that it is made with.

use vstd::prelude::*;
use crate::chars;
use crate::models::{MaterialRecord, MaterialSegment};
use crate::numbers;
use crate::order;
use crate::query;
use crate::query::QueryView;
use crate::strings;
use crate::text;

verus! {

/// Whether a chunk of a query has its own terms: the runs of letters and numbers of its text, in
/// lower case, of three bytes or more.
pub open spec fn has_own_terms(chunk: QueryView) -> bool {
    chunk.terms == strings::terms(chunk.text, 3)
}

/// Whether a piece is long enough to be looked for, and says what no piece before it says.
pub open spec fn is_new_piece(pieces: Seq<Seq<char>>, k: int) -> bool {
    &&& 0 <= k < pieces.len()
    &&& strings::byte_len(pieces[k]) >= 24
    &&& forall|j: int| 0 <= j < k ==> #[trigger] pieces[j] != pieces[k]
}

/// Whether a chunk is made of a piece of the text, under the number of the piece.
pub open spec fn is_numbered_piece(
    chunk: QueryView,
    prefix: Seq<char>,
    pieces: Seq<Seq<char>>,
    k: int,
) -> bool {
    &&& chunk.text == pieces[k]
    &&& chunk.label == prefix + numbers::digits((k + 1) as nat)
    &&& has_own_terms(chunk)
}

/// Whether chunks are the first 24 pieces that are long enough and new: chunk `i` is piece `ks[i]`,
/// and where there are fewer, no such piece is left out.
pub open spec fn are_new_pieces(
    chunks: Seq<QueryView>,
    pieces: Seq<Seq<char>>,
    ks: Seq<int>,
) -> bool {
    &&& ks.len() == chunks.len() <= 24
    &&& forall|i: int, j: int| 0 <= i < j < ks.len() ==> #[trigger] ks[i] < #[trigger] ks[j]
    &&& forall|i: int|
        0 <= i < ks.len() ==> is_new_piece(pieces, #[trigger] ks[i]) && is_numbered_piece(
            chunks[i],
            "Query chunk "@,
            pieces,
            ks[i],
        )
    &&& forall|k: int| #[trigger]
        is_new_piece(pieces, k) ==> ks.contains(k) || chunks.len() == 24 && ks.last() < k
}

proof fn lemma_distinct_pieces(pieces: Seq<Seq<char>>) -> (ks: Seq<int>)
    ensures
        are_new_pieces(query::distinct_pieces(pieces), pieces, ks),
    decreases pieces.len(),
{
    let chunks = query::distinct_pieces(pieces);
    if pieces.len() == 0 {
        Seq::empty()
    } else {
        let front = pieces.drop_last();
        let last = pieces.len() - 1;
        let before = lemma_distinct_pieces(front);
        let fewer = query::distinct_pieces(front);
        let fresh = strings::byte_len(pieces[last]) >= 24 && !front.contains(pieces[last]);
        let ks = if fewer.len() < 24 && fresh {
            before.push(last)
        } else {
            before
        };
        assert(fresh == is_new_piece(pieces, last)) by {
            if front.contains(pieces[last]) {
                let j = choose|j: int| 0 <= j < front.len() && front[j] == pieces[last];
                assert(pieces[j] == pieces[last]);
            } else {
                assert forall|j: int| 0 <= j < last implies #[trigger] pieces[j]
                    != pieces[last] by {
                    assert(front[j] == pieces[j]);
                }
            }
        }
        assert forall|k: int| 0 <= k < last implies #[trigger] is_new_piece(pieces, k)
            == is_new_piece(front, k) by {
            assert(front[k] == pieces[k]);
            if is_new_piece(front, k) {
                assert forall|j: int| 0 <= j < k implies #[trigger] pieces[j] != pieces[k] by {
                    assert(front[j] == pieces[j]);
                }
            }
            if is_new_piece(pieces, k) {
                assert forall|j: int| 0 <= j < k implies #[trigger] front[j] != front[k] by {
                    assert(front[j] == pieces[j]);
                }
            }
        }
        assert forall|i: int| 0 <= i < ks.len() implies is_new_piece(pieces, #[trigger] ks[i])
            && is_numbered_piece(chunks[i], "Query chunk "@, pieces, ks[i]) by {
            if i < before.len() {
                assert(ks[i] == before[i]);
                assert(is_new_piece(front, before[i]));
                assert(front[before[i]] == pieces[before[i]]);
            }
        }
        assert forall|k: int| #[trigger] is_new_piece(pieces, k) implies ks.contains(k)
            || chunks.len() == 24 && ks.last() < k by {
            if k < last {
                assert(is_new_piece(front, k));
                if before.contains(k) {
                    let i = choose|i: int| 0 <= i < before.len() && before[i] == k;
                    assert(ks[i] == k);
                }
            } else if fewer.len() < 24 {
                assert(ks[before.len() as int] == last);
            } else {
                assert(is_new_piece(front, before[before.len() - 1]));
            }
        }
        ks
    }
}

/// Whether chunks are those that a text is looked for by.
pub open spec fn are_text_chunks(chunks: Seq<QueryView>, plain: Seq<char>) -> bool {
    exists|pieces: Seq<Seq<char>>, at: Seq<(int, int)>, ks: Seq<int>|
        #![trigger text::are_windows(strings::words(plain), pieces, 120, 20, at), ks.len()]
        {
            &&& text::are_windows(strings::words(plain), pieces, 120, 20, at)
            &&& are_new_pieces(chunks, pieces, ks) || (no_new_piece(pieces) && plain.len() > 0
                && is_whole_text(chunks, plain))
            &&& are_new_pieces(chunks, pieces, ks) ==> chunks.len() > 0 || plain.len() == 0
        }
}

/// Whether no piece is long enough.
pub open spec fn no_new_piece(pieces: Seq<Seq<char>>) -> bool {
    forall|k: int| 0 <= k < pieces.len() ==> strings::byte_len(#[trigger] pieces[k]) < 24
}

/// Whether the only chunk is all of the text.
pub open spec fn is_whole_text(chunks: Seq<QueryView>, plain: Seq<char>) -> bool {
    chunks.len() == 1 && chunks[0].label == "Query chunk 1"@ && chunks[0].text == plain
        && has_own_terms(chunks[0])
}

proof fn lemma_some_new_piece(pieces: Seq<Seq<char>>, k: int)
    requires
        0 <= k < pieces.len(),
        strings::byte_len(pieces[k]) >= 24,
    ensures
        exists|j: int| #[trigger] is_new_piece(pieces, j),
    decreases k,
{
    if exists|j: int| 0 <= j < k && #[trigger] pieces[j] == pieces[k] {
        let j = choose|j: int| 0 <= j < k && #[trigger] pieces[j] == pieces[k];
        lemma_some_new_piece(pieces, j);
    } else {
        assert(is_new_piece(pieces, k));
    }
}

/// A text is looked for by its windows of at most 120 words that overlap by 20: the first 24 of
/// those that have at least 24 bytes and say what none before them says, in order, each under its
/// number and with its own terms; or, where no window is long enough, by the whole text.
pub proof fn law_text_is_looked_for_in_windows(plain: Seq<char>)
    ensures
        are_text_chunks(query::text_chunks(plain), plain),
{
    let pieces = text::chunks(strings::words(plain), 120, 20);
    let picked = query::distinct_pieces(pieces);
    let chunks = query::text_chunks(plain);
    text::law_chunks_are_windows(plain, 120, 20);
    let at = choose|at: Seq<(int, int)>| #[trigger]
        text::are_windows(strings::words(plain), pieces, 120, 20, at);
    let ks = lemma_distinct_pieces(pieces);
    if picked.len() == 0 && plain.len() > 0 {
        assert(no_new_piece(pieces)) by {
            assert forall|k: int| 0 <= k < pieces.len() implies strings::byte_len(
                #[trigger] pieces[k],
            ) < 24 by {
                if strings::byte_len(pieces[k]) >= 24 {
                    lemma_some_new_piece(pieces, k);
                    let j = choose|j: int| #[trigger] is_new_piece(pieces, j);
                    assert(ks.contains(j));
                }
            }
        }
        assert(is_whole_text(chunks, plain));
        assert(!are_new_pieces(chunks, pieces, ks));
    }
    assert(text::are_windows(strings::words(plain), pieces, 120, 20, at) && ks.len() >= 0);
}

/// Whether samples are items of a list, in order: those at the places that divide it evenly from the
/// first to the last, without one that says the same as the sample before it.
pub open spec fn are_samples(
    samples: Seq<Seq<char>>,
    items: Seq<Seq<char>>,
    max: nat,
    ks: Seq<int>,
) -> bool {
    &&& ks.len() == samples.len() <= max
    &&& forall|i: int, j: int| 0 <= i < j < ks.len() ==> #[trigger] ks[i] < #[trigger] ks[j]
    &&& forall|i: int|
        0 <= i < ks.len() ==> 0 <= #[trigger] ks[i] < max && samples[i] == items[ks[i] * (
        items.len() - 1) / (max - 1)]
    &&& forall|k: int|
        0 <= k < max ==> samples.contains(#[trigger] items[k * (items.len() - 1) / (max - 1)])
    &&& forall|i: int, j: int|
        #![trigger samples[i], samples[j]]
        0 <= i && j == i + 1 && j < samples.len() ==> samples[i] != samples[j]
}

proof fn lemma_samples(items: Seq<Seq<char>>, max: int, n: nat) -> (ks: Seq<int>)
    requires
        max >= 2,
        n <= max,
    ensures
        ({
            let samples = query::samples(items, max, n);
            &&& ks.len() == samples.len() <= n
            &&& n > 0 ==> samples.len() > 0 && samples.last() == items[query::sample_at(
                n - 1,
                items.len() as int,
                max,
            )]
            &&& forall|i: int, j: int|
                0 <= i < j < ks.len() ==> #[trigger] ks[i] < #[trigger] ks[j]
            &&& forall|i: int|
                0 <= i < ks.len() ==> 0 <= #[trigger] ks[i] < n && samples[i] == items[
                query::sample_at(ks[i], items.len() as int, max)]
            &&& forall|k: int|
                0 <= k < n ==> samples.contains(
                    items[#[trigger] query::sample_at(k, items.len() as int, max)],
                )
            &&& forall|i: int, j: int|
                #![trigger samples[i], samples[j]]
                0 <= i && j == i + 1 && j < samples.len() ==> samples[i] != samples[j]
        }),
    decreases n,
{
    if n == 0 {
        Seq::empty()
    } else {
        let before = lemma_samples(items, max, (n - 1) as nat);
        let front = query::samples(items, max, (n - 1) as nat);
        let samples = query::samples(items, max, n);
        let place = query::sample_at(n - 1, items.len() as int, max);
        let same = front.len() > 0 && front.last() == items[place];
        let ks = if same {
            before
        } else {
            before.push(n - 1)
        };
        assert forall|i: int| 0 <= i < ks.len() implies 0 <= #[trigger] ks[i] < n && samples[i]
            == items[query::sample_at(ks[i], items.len() as int, max)] by {
            if i < before.len() {
                assert(ks[i] == before[i]);
            }
        }
        assert forall|k: int| 0 <= k < n implies samples.contains(
            items[#[trigger] query::sample_at(k, items.len() as int, max)],
        ) by {
            if k < n - 1 {
                let item = items[query::sample_at(k, items.len() as int, max)];
                let i = choose|i: int| 0 <= i < front.len() && front[i] == item;
                assert(samples[i] == item);
            } else {
                assert(samples[samples.len() - 1] == items[place]);
            }
        }
        ks
    }
}

/// Sampling keeps a list that is short enough as it is; of a longer one it takes the items at the
/// places that divide it evenly, the first and the last among them.
pub proof fn law_samples_are_spread_evenly(items: Seq<Seq<char>>, max: nat)
    ensures
        items.len() <= max || max <= 1 ==> query::sampled(items, max) == items,
        items.len() > max && max >= 2 ==> exists|ks: Seq<int>| #[trigger]
            are_samples(query::sampled(items, max), items, max, ks),
        items.len() > max && max >= 2 ==> query::sampled(items, max).contains(items[0])
            && query::sampled(items, max).contains(items.last()),
{
    if items.len() > max && max >= 2 {
        let samples = query::sampled(items, max);
        let n = items.len() as int;
        let ks = lemma_samples(items, max as int, max);
        assert forall|k: int| 0 <= k < max implies samples.contains(
            #[trigger] items[k * (items.len() - 1) / (max - 1)],
        ) by {
            assert(query::sample_at(k, n, max as int) == k * (items.len() - 1) / (max - 1));
        }
        assert forall|i: int| 0 <= i < ks.len() implies 0 <= #[trigger] ks[i] < max && samples[i]
            == items[ks[i] * (items.len() - 1) / (max - 1)] by {
            assert(query::sample_at(ks[i], n, max as int) == ks[i] * (items.len() - 1) / (max - 1));
        }
        assert(are_samples(samples, items, max, ks));
        query::law_sample_at(0, n, max as int);
        assert(samples.contains(items[query::sample_at(0, n, max as int)]));
        assert(samples.contains(items[query::sample_at(max - 1, n, max as int)]));
    }
}

/// Whether pieces are those of a plain text that are looked for: of its windows of at most 100
/// words that overlap by 20 all, or so many samples.
pub open spec fn are_document_pieces(
    pieces: Seq<Seq<char>>,
    plain: Seq<char>,
    max: nat,
) -> bool {
    exists|windows: Seq<Seq<char>>, at: Seq<(int, int)>| #[trigger]
        text::are_windows(strings::words(plain), windows, 100, 20, at) && (if windows.len() <= max
            || max <= 1 {
            pieces == windows
        } else {
            exists|ks: Seq<int>| #[trigger] are_samples(pieces, windows, max, ks)
        })
}

/// The pieces of a plain text that are looked for are all of its windows, or samples of them.
pub proof fn law_document_pieces(plain: Seq<char>, max: nat)
    ensures
        are_document_pieces(query::document_pieces(plain, max), plain, max),
{
    let windows = text::chunks(strings::words(plain), 100, 20);
    text::law_chunks_are_windows(plain, 100, 20);
    law_samples_are_spread_evenly(windows, max);
    let at = choose|at: Seq<(int, int)>| #[trigger]
        text::are_windows(strings::words(plain), windows, 100, 20, at);
    assert(text::are_windows(strings::words(plain), windows, 100, 20, at));
}

/// The places of the words that hold a letter and have so many bytes.
pub open spec fn telling_words(ws: Seq<Seq<char>>, min_bytes: nat) -> Set<int> {
    Set::new(
        |k: int|
            0 <= k < ws.len() && strings::byte_len(ws[k]) >= min_bytes && exists|i: int|
                0 <= i < ws[k].len() && chars::alphabetic(#[trigger] ws[k][i]),
    )
}

/// The words that count as saying something are those that hold a letter and are long enough, each
/// of them once.
pub proof fn law_telling_words(ws: Seq<Seq<char>>, min_bytes: nat)
    ensures
        telling_words(ws, min_bytes).finite(),
        query::informative_words(ws, min_bytes) == telling_words(ws, min_bytes).len(),
    decreases ws.len(),
{
    let all = telling_words(ws, min_bytes);
    if ws.len() == 0 {
        assert(all =~= Set::<int>::empty());
    } else {
        let front = ws.drop_last();
        let last = ws.len() - 1;
        law_telling_words(front, min_bytes);
        let fewer = telling_words(front, min_bytes);
        assert(forall|k: int| 0 <= k < last ==> front[k] == ws[k]);
        if query::has_letter(ws.last()) && strings::byte_len(ws.last()) >= min_bytes {
            assert(all =~= fewer.insert(last));
        } else {
            assert(all =~= fewer);
        }
    }
}

/// The letters that count in a text are those that stand in it, each of them once.
pub proof fn law_letters(s: Seq<char>)
    ensures
        Set::new(|i: int| 0 <= i < s.len() && chars::alphabetic(s[i])).finite(),
        query::letters(s) == Set::new(
            |i: int| 0 <= i < s.len() && chars::alphabetic(s[i]),
        ).len(),
    decreases s.len(),
{
    let all = Set::new(|i: int| 0 <= i < s.len() && chars::alphabetic(s[i]));
    if s.len() == 0 {
        assert(all =~= Set::<int>::empty());
    } else {
        let front = s.drop_last();
        let last = s.len() - 1;
        law_letters(front);
        let fewer = Set::new(|i: int| 0 <= i < front.len() && chars::alphabetic(front[i]));
        assert(forall|i: int| 0 <= i < last ==> front[i] == s[i]);
        if chars::alphabetic(s[last]) {
            assert(all =~= fewer.insert(last));
        } else {
            assert(all =~= fewer);
        }
    }
}

/// Whether a piece says enough to be looked for: its plain text has at least eight words of four
/// bytes or more that hold a letter.
pub open spec fn says_enough(piece: Seq<char>) -> bool {
    text::normalized(piece) matches Some(plain) && telling_words(strings::words(plain), 4).len()
        >= 8
}

proof fn lemma_says_enough(piece: Seq<char>)
    ensures
        says_enough(piece) == (text::normalized(piece) matches Some(plain) && query::informative(
            plain,
        )),
{
    if let Some(plain) = text::normalized(piece) {
        law_telling_words(strings::words(plain), 4);
    }
}

/// Whether chunks are the pieces of a document that say enough: chunk `i` is piece `ks[i]`, under
/// its number, and no such piece is left out.
pub open spec fn are_sections(
    chunks: Seq<QueryView>,
    pieces: Seq<Seq<char>>,
    ks: Seq<int>,
) -> bool {
    &&& ks.len() == chunks.len()
    &&& forall|i: int, j: int| 0 <= i < j < ks.len() ==> #[trigger] ks[i] < #[trigger] ks[j]
    &&& forall|i: int|
        0 <= i < ks.len() ==> 0 <= #[trigger] ks[i] < pieces.len() && says_enough(pieces[ks[i]])
            && is_numbered_piece(chunks[i], "Document section "@, pieces, ks[i])
    &&& forall|k: int|
        0 <= k < pieces.len() && says_enough(#[trigger] pieces[k]) ==> ks.contains(k)
}

proof fn lemma_section_chunks(pieces: Seq<Seq<char>>) -> (ks: Seq<int>)
    ensures
        query::section_chunks(pieces) matches Some(chunks) ==> are_sections(chunks, pieces, ks),
    decreases pieces.len(),
{
    if pieces.len() == 0 {
        Seq::empty()
    } else {
        let front = pieces.drop_last();
        let last = pieces.len() - 1;
        let before = lemma_section_chunks(front);
        lemma_says_enough(pieces[last]);
        let ks = if says_enough(pieces[last]) {
            before.push(last)
        } else {
            before
        };
        if let Some(chunks) = query::section_chunks(pieces) {
            let fewer = query::section_chunks(front)->Some_0;
            assert(are_sections(fewer, front, before));
            assert forall|i: int| 0 <= i < ks.len() implies 0 <= #[trigger] ks[i] < pieces.len()
                && says_enough(pieces[ks[i]]) && is_numbered_piece(
                chunks[i],
                "Document section "@,
                pieces,
                ks[i],
            ) by {
                if i < before.len() {
                    assert(ks[i] == before[i]);
                    assert(front[before[i]] == pieces[before[i]]);
                    assert(chunks[i] == fewer[i]);
                }
            }
            assert forall|k: int| 0 <= k < pieces.len() && says_enough(#[trigger] pieces[k]) implies
                ks.contains(k) by {
                if k < last {
                    assert(front[k] == pieces[k]);
                    let i = choose|i: int| 0 <= i < before.len() && before[i] == k;
                    assert(ks[i] == k);
                } else {
                    assert(ks[before.len() as int] == last);
                }
            }
        }
        ks
    }
}

/// Whether chunks are those that a document without segments is looked for by.
pub open spec fn are_document_chunks(chunks: Seq<QueryView>, s: Seq<char>, max: nat) -> bool {
    exists|plain: Seq<char>, pieces: Seq<Seq<char>>, ks: Seq<int>|
        #![trigger are_document_pieces(pieces, plain, max), ks.len()]
        {
            &&& text::normalized(s) == Some(plain)
            &&& are_document_pieces(pieces, plain, max)
            &&& if exists|k: int| 0 <= k < pieces.len() && says_enough(#[trigger] pieces[k]) {
                are_sections(chunks, pieces, ks)
            } else {
                are_text_chunks(chunks, plain)
            }
        }
}

/// A document is looked for by the pieces of its plain text that say enough, in order, each under
/// its number; where none does, as a text is.
pub proof fn law_document_is_looked_for_in_pieces(s: Seq<char>, max: nat)
    ensures
        query::document_query(s, max) matches Some(chunks) ==> are_document_chunks(chunks, s, max),
{
    if let Some(chunks) = query::document_query(s, max) {
        let plain = text::normalized(s)->Some_0;
        let pieces = query::document_pieces(plain, max);
        law_document_pieces(plain, max);
        let ks = lemma_section_chunks(pieces);
        let sections = query::section_chunks(pieces)->Some_0;
        law_text_is_looked_for_in_windows(plain);
        if exists|k: int| 0 <= k < pieces.len() && says_enough(#[trigger] pieces[k]) {
            let k = choose|k: int| 0 <= k < pieces.len() && says_enough(#[trigger] pieces[k]);
            assert(ks.contains(k));
        } else {
            if sections.len() > 0 {
                assert(says_enough(pieces[ks[0]]));
            }
        }
        assert(are_document_pieces(pieces, plain, max) && ks.len() >= 0);
    }
}

/// Whether a chunk is made of a piece of a segment, under the label of the segment and, but for the
/// first piece, the number of the piece.
pub open spec fn is_segment_piece(
    chunk: QueryView,
    segment: MaterialSegment,
    k: int,
) -> bool {
    exists|plain: Seq<char>, pieces: Seq<Seq<char>>| #[trigger]
        are_document_pieces(pieces, plain, 3) && text::normalized(segment.text@) == Some(plain)
            && 0 <= k < pieces.len() && chunk.text == pieces[k] && says_enough(pieces[k])
            && has_own_terms(chunk) && chunk.label == (if k == 0 {
            segment.label@
        } else {
            segment.label@ + " part "@ + numbers::digits((k + 1) as nat)
        })
}

/// Whether chunks are pieces of segments: chunk `i` is piece `at[i].1` of segment `at[i].0`, in the
/// order of the segments and of their pieces, and there are at most 24.
pub open spec fn are_segment_pieces(
    chunks: Seq<QueryView>,
    segments: Seq<MaterialSegment>,
    at: Seq<(int, int)>,
) -> bool {
    &&& at.len() == chunks.len() <= 24
    &&& forall|i: int, j: int|
        0 <= i < j < at.len() ==> piece_before(#[trigger] at[i], #[trigger] at[j])
    &&& forall|i: int|
        0 <= i < at.len() ==> 0 <= (#[trigger] at[i]).0 < segments.len() && is_segment_piece(
            chunks[i],
            segments[at[i].0],
            at[i].1,
        ) && is_wanted_piece(segments, at[i].0, at[i].1)
}

/// Whether a piece of a segment is one to look for.
pub open spec fn is_wanted_piece(segments: Seq<MaterialSegment>, s: int, k: int) -> bool {
    0 <= s < segments.len() && match text::normalized(segments[s].text@) {
        Some(plain) => plain.len() > 0 && 0 <= k < query::document_pieces(plain, 3).len()
            && says_enough(query::document_pieces(plain, 3)[k]),
        None => false,
    }
}

/// Whether no piece to look for before a place is left out.
pub open spec fn covers(segments: Seq<MaterialSegment>, at: Seq<(int, int)>, to: (int, int)) -> bool {
    forall|s: int, k: int| #[trigger]
        is_wanted_piece(segments, s, k) && piece_before((s, k), to) ==> at.contains((s, k))
}

/// Whether a piece comes before another.
pub open spec fn piece_before(a: (int, int), b: (int, int)) -> bool {
    a.0 < b.0 || a.0 == b.0 && a.1 < b.1
}

proof fn lemma_with_pieces(
    before: Seq<QueryView>,
    was: Seq<(int, int)>,
    segments: Seq<MaterialSegment>,
    s: int,
    plain: Seq<char>,
    n: int,
) -> (at: Seq<(int, int)>)
    requires
        0 <= s < segments.len(),
        text::normalized(segments[s].text@) == Some(plain),
        are_segment_pieces(before, segments, was),
        forall|i: int| 0 <= i < was.len() ==> (#[trigger] was[i]).0 < s,
        before.len() < 24 ==> covers(segments, was, (s, 0)),
        plain.len() > 0,
        0 <= n <= query::document_pieces(plain, 3).len(),
    ensures
        query::with_pieces(
            before,
            segments[s].label@,
            query::document_pieces(plain, 3).take(n),
        ) matches Some(chunks) ==> are_segment_pieces(chunks, segments, at) && (chunks.len() < 24
            ==> covers(segments, at, (s, n))) && forall|i: int|
            0 <= i < at.len() ==> (#[trigger] at[i]).0 <= s && (at[i].0 == s ==> at[i].1 < n),
    decreases n,
{
    let pieces = query::document_pieces(plain, 3);
    if n == 0 {
        was
    } else {
        let at = lemma_with_pieces(before, was, segments, s, plain, n - 1);
        let label = segments[s].label@;
        let now = pieces.take(n);
        assert(now.drop_last() =~= pieces.take(n - 1));
        assert(now.last() == pieces[n - 1]);
        lemma_says_enough(pieces[n - 1]);
        law_document_pieces(plain, 3);
        match query::with_pieces(before, label, pieces.take(n - 1)) {
            None => at,
            Some(front) => if front.len() >= 24 || !says_enough(pieces[n - 1]) {
                assert(query::with_pieces(before, label, now) matches Some(chunks) ==> chunks
                    =~= front);
                if front.len() < 24 {
                    assert forall|t: int, k: int| #[trigger]
                        is_wanted_piece(segments, t, k) && piece_before((t, k), (s, n)) implies
                        at.contains((t, k)) by {
                        assert(piece_before((t, k), (s, n - 1)));
                    }
                }
                at
            } else {
                let more = at.push((s, n - 1));
                let chunk = query::query_view(query::part_label(label, n - 1), pieces[n - 1]);
                assert(query::with_pieces(before, label, now) == Some(front.push(chunk))) by {
                    assert(front + seq![chunk] =~= front.push(chunk));
                }
                assert(are_document_pieces(pieces, plain, 3));
                assert(is_segment_piece(chunk, segments[s], n - 1));
                assert(is_wanted_piece(segments, s, n - 1));
                assert(are_segment_pieces(front.push(chunk), segments, more));
                assert forall|t: int, k: int| #[trigger]
                    is_wanted_piece(segments, t, k) && piece_before((t, k), (s, n)) implies
                    more.contains((t, k)) by {
                    if t == s && k == n - 1 {
                        assert(more[at.len() as int] == (t, k));
                    } else {
                        assert(piece_before((t, k), (s, n - 1)));
                        let i = choose|i: int| 0 <= i < at.len() && at[i] == (t, k);
                        assert(more[i] == (t, k));
                    }
                }
                more
            },
        }
    }
}

proof fn lemma_segments_query(segments: Seq<MaterialSegment>, n: int) -> (at: Seq<(int, int)>)
    requires
        0 <= n <= segments.len(),
    ensures
        query::segments_query(segments.take(n)) matches Some(chunks) ==> are_segment_pieces(
            chunks,
            segments,
            at,
        ) && (chunks.len() < 24 ==> covers(segments, at, (n, 0))) && forall|i: int|
            0 <= i < at.len() ==> (#[trigger] at[i]).0 < n,
    decreases n,
{
    if n == 0 {
        Seq::empty()
    } else {
        let was = lemma_segments_query(segments, n - 1);
        let now = segments.take(n);
        assert(now.drop_last() =~= segments.take(n - 1));
        assert(now.last() == segments[n - 1]);
        match query::segments_query(segments.take(n - 1)) {
            None => was,
            Some(front) => if front.len() >= 24 {
                was
            } else {
                match text::normalized(segments[n - 1].text@) {
                    None => was,
                    Some(plain) => if plain.len() == 0 {
                        assert forall|t: int, k: int| #[trigger]
                            is_wanted_piece(segments, t, k) && piece_before((t, k), (n, 0)) implies
                            was.contains((t, k)) by {
                            assert(piece_before((t, k), (n - 1, 0)));
                        }
                        was
                    } else {
                        let pieces = query::document_pieces(plain, 3);
                        assert(pieces.take(pieces.len() as int) =~= pieces);
                        let at = lemma_with_pieces(
                            front,
                            was,
                            segments,
                            n - 1,
                            plain,
                            pieces.len() as int,
                        );
                        assert forall|t: int, k: int| #[trigger]
                            is_wanted_piece(segments, t, k) && piece_before((t, k), (n, 0)) && covers(
                                segments,
                                at,
                                (n - 1, pieces.len() as int),
                            ) implies at.contains((t, k)) by {
                            assert(piece_before((t, k), (n - 1, pieces.len() as int)));
                        }
                        at
                    },
                }
            },
        }
    }
}

/// Whether some piece of a segment is one to look for.
pub open spec fn has_wanted_piece(segments: Seq<MaterialSegment>) -> bool {
    exists|s: int, k: int| #[trigger] is_wanted_piece(segments, s, k)
}

/// A material with one segment or none is looked for as a document by at most twelve pieces. One
/// with more is looked for by the pieces of its segments that say enough, at most three of each and
/// at most 24 in all, in order, each under the label of its segment, and none is left out where
/// there are fewer; where there are none, as a text is.
pub proof fn law_material_is_looked_for_by_its_segments(material: MaterialRecord)
    ensures
        query::material_query(material) matches Some(chunks) ==> {
            &&& material.segments@.len() <= 1 ==> are_document_chunks(
                chunks,
                material.source_text@,
                12,
            )
            &&& material.segments@.len() > 1 && has_wanted_piece(material.segments@) ==> exists|
                at: Seq<(int, int)>,
            | #[trigger]
                are_segment_pieces(chunks, material.segments@, at) && (chunks.len() < 24 ==> covers(
                    material.segments@,
                    at,
                    (material.segments@.len() as int, 0),
                ))
            &&& material.segments@.len() > 1 && !has_wanted_piece(material.segments@)
                ==> match text::normalized(material.source_text@) {
                Some(plain) => are_text_chunks(chunks, plain),
                None => false,
            }
        },
{
    law_document_is_looked_for_in_pieces(material.source_text@, 12);
    let segments = material.segments@;
    let at = lemma_segments_query(segments, segments.len() as int);
    assert(segments.take(segments.len() as int) =~= segments);
    if segments.len() > 1 {
        if let Some(found) = query::segments_query(segments) {
            if found.len() > 0 {
                assert(is_wanted_piece(segments, at[0].0, at[0].1));
            }
            if has_wanted_piece(segments) {
                let (t, k) = choose|t: int, k: int| #[trigger] is_wanted_piece(segments, t, k);
                if found.len() < 24 {
                    assert(piece_before((t, k), (segments.len() as int, 0)));
                    assert(at.contains((t, k)));
                }
            }
        }
    }
    if let Some(plain) = text::normalized(material.source_text@) {
        law_text_is_looked_for_in_windows(plain);
    }
}

/// Whether a text is the summary of a query: the first 4000 characters of lines with a blank line
/// between any two, one for each of the first eight chunks, with its label and the first 600
/// characters of its text.
pub open spec fn is_summary(summary: Seq<char>, chunks: Seq<QueryView>) -> bool {
    exists|whole: Seq<char>, lines: Seq<Seq<char>>, at: Seq<int>| #[trigger]
        strings::laid_out(whole, lines, "\n\n"@, at) && is_prefix(summary, whole, 4000)
            && lines.len() == (if chunks.len() <= 8 {
            chunks.len()
        } else {
            8
        }) && forall|i: int| 0 <= i < lines.len() ==> is_line(#[trigger] lines[i], chunks[i])
}

/// Whether a line shows a chunk.
pub open spec fn is_line(line: Seq<char>, chunk: QueryView) -> bool {
    exists|start: Seq<char>| #[trigger]
        is_prefix(start, chunk.text, 600) && line == chunk.label + ": "@ + start
}

/// Whether a text is the start of another: so many characters, or all of it.
pub open spec fn is_prefix(start: Seq<char>, whole: Seq<char>, n: nat) -> bool {
    &&& start.len() == if whole.len() <= n {
        whole.len()
    } else {
        n
    }
    &&& start == whole.take(start.len() as int)
}

/// Results are ranked against the summary of the query's chunks, or against the start of the query
/// where it has none.
pub proof fn law_rerank_query_is_a_summary(query_text: Seq<char>, chunks: Seq<QueryView>)
    ensures
        chunks.len() > 0 ==> is_summary(query::rerank_query(query_text, chunks), chunks),
        chunks.len() == 0 ==> is_prefix(
            query::rerank_query(query_text, chunks),
            query_text,
            4000,
        ),
{
    lemma_at_most_is_prefix(query_text, 4000);
    if chunks.len() > 0 {
        let shown = order::first_n(chunks, 8);
        let lines = Seq::new(shown.len(), |i: int| query::summary_line(shown[i]));
        let whole = strings::join(lines, "\n\n"@);
        strings::law_join(lines, "\n\n"@);
        lemma_at_most_is_prefix(whole, 4000);
        let at = choose|at: Seq<int>| #[trigger] strings::laid_out(whole, lines, "\n\n"@, at);
        assert forall|i: int| 0 <= i < lines.len() implies is_line(
            #[trigger] lines[i],
            chunks[i],
        ) by {
            lemma_at_most_is_prefix(chunks[i].text, 600);
            assert(shown[i] == chunks[i]);
            assert(is_prefix(strings::at_most(chunks[i].text, 600), chunks[i].text, 600));
        }
        assert(strings::laid_out(whole, lines, "\n\n"@, at));
    }
}

pub proof fn lemma_at_most_is_prefix(s: Seq<char>, n: nat)
    ensures
        is_prefix(strings::at_most(s, n), s, n),
{
    if s.len() <= n {
        assert(s.take(s.len() as int) =~= s);
    }
}

/// Every chunk of a query is embedded, in order, as a query with the chunk's own text.
pub proof fn law_query_is_embedded(chunks: Seq<QueryView>)
    ensures
        query::embed_texts(chunks).len() == chunks.len(),
        forall|i: int|
            0 <= i < chunks.len() ==> #[trigger] query::embed_texts(chunks)[i] == "query: "@
                + chunks[i].text,
{
}

} // verus!
