//! The query of a search: the chunks that are looked for, and the text that results are ranked
//! against.

use vstd::prelude::*;
use crate::chars;
use crate::models::{MaterialRecord, MaterialSegment};
use crate::numbers;
use crate::order;
use crate::strings;
use crate::text;

verus! {

/// How many chunks a query has at most.
pub const MAX_QUERY_CHUNKS: usize = 24;

/// How many bytes a chunk of a text query has at least.
pub const MIN_CHUNK_BYTES: usize = 24;

/// How many sections of a document without segments are looked for.
pub const MAX_SECTIONS: usize = 12;

/// How many pieces of one segment are looked for.
pub const MAX_PIECES: usize = 3;

/// A part of a query.
#[derive(Debug, Clone)]
pub struct QueryChunk {
    pub label: String,
    pub text: String,
    pub terms: Vec<String>,
}

/// What a part of a query says.
#[verifier::ext_equal]
pub struct QueryView {
    pub label: Seq<char>,
    pub text: Seq<char>,
    pub terms: Seq<Seq<char>>,
}

impl View for QueryChunk {
    type V = QueryView;

    open spec fn view(&self) -> QueryView {
        QueryView {
            label: self.label@,
            text: self.text@,
            terms: strings::texts(self.terms@),
        }
    }
}

/// The views of a list of chunks.
pub open spec fn query_views(v: Seq<QueryChunk>) -> Seq<QueryView> {
    Seq::new(v.len(), |i: int| v[i]@)
}

/// The chunk with a label and a text.
pub open spec fn query_view(label: Seq<char>, text: Seq<char>) -> QueryView {
    QueryView { label, text, terms: strings::terms(text, 3) }
}

/// The terms of a query: its runs of letters and numbers, in lower case, of three bytes or more.
pub fn tokenize_query(query: &str) -> (res: Vec<String>)
    ensures
        strings::texts(res@) == strings::terms(query@, 3),
{
    strings::split_terms(query, 3)
}

/// A chunk with its terms.
pub fn query_chunk(label: String, text: String) -> (res: QueryChunk)
    ensures
        res@ == query_view(label@, text@),
{
    let terms = tokenize_query(text.as_str());
    QueryChunk { label, text, terms }
}

/// Adds a chunk.
fn push_chunk(chunks: &mut Vec<QueryChunk>, label: String, text: String)
    ensures
        query_views(final(chunks)@) == query_views(old(chunks)@).push(query_view(label@, text@)),
{
    let ghost before = query_views(chunks@);
    let ghost added = query_view(label@, text@);
    let chunk = query_chunk(label, text);
    chunks.push(chunk);
    assert(query_views(chunks@) =~= before.push(added));
}

/// Whether a text holds a letter.
pub open spec fn has_letter(s: Seq<char>) -> bool {
    exists|i: int| 0 <= i < s.len() && chars::alphabetic(#[trigger] s[i])
}

/// How many of the words hold a letter and have at least so many bytes.
pub open spec fn informative_words(ws: Seq<Seq<char>>, min_bytes: nat) -> nat
    decreases ws.len(),
{
    if ws.len() == 0 {
        0
    } else {
        informative_words(ws.drop_last(), min_bytes) + (if has_letter(ws.last())
            && strings::byte_len(ws.last()) >= min_bytes {
            1nat
        } else {
            0nat
        })
    }
}

/// How many letters a text holds.
pub open spec fn letters(s: Seq<char>) -> nat
    decreases s.len(),
{
    if s.len() == 0 {
        0
    } else {
        letters(s.drop_last()) + (if chars::alphabetic(s.last()) {
            1nat
        } else {
            0nat
        })
    }
}

fn holds_letter(text: &str) -> (res: bool)
    ensures
        res == has_letter(text@),
{
    let chars = strings::to_chars(text);
    for i in 0..chars.len()
        invariant
            chars@ == text@,
            forall|j: int| 0 <= j < i ==> !chars::alphabetic(#[trigger] chars@[j]),
    {
        if chars[i].is_alphabetic() {
            return true;
        }
    }
    false
}

/// Counts the letters of a text.
pub fn count_letters(text: &str) -> (res: usize)
    ensures
        res == letters(text@),
{
    let chars = strings::to_chars(text);
    let mut n: usize = 0;
    for i in 0..chars.len()
        invariant
            n <= i,
            n == letters(chars@.take(i as int)),
    {
        assert(chars@.take(i + 1).drop_last() =~= chars@.take(i as int));
        if chars[i].is_alphabetic() {
            n = n + 1;
        }
    }
    assert(chars@.take(chars@.len() as int) =~= chars@);
    n
}

/// Counts the words of a text that hold a letter and have at least so many bytes.
pub fn count_informative(text: &str, min_bytes: usize) -> (res: usize)
    ensures
        res == informative_words(strings::words(text@), min_bytes as nat),
{
    let words = strings::split_words(text);
    let ghost all = strings::words(text@);
    let mut n: usize = 0;
    for i in 0..words.len()
        invariant
            all == strings::texts(words@),
            n <= i,
            n == informative_words(all.take(i as int), min_bytes as nat),
    {
        assert(all.take(i + 1).drop_last() =~= all.take(i as int));
        if holds_letter(words[i].as_str()) && strings::utf8_len(words[i].as_str()) >= min_bytes {
            n = n + 1;
        }
    }
    assert(all.take(all.len() as int) =~= all);
    n
}

/// Whether a plain text says enough to be looked for.
pub open spec fn informative(plain: Seq<char>) -> bool {
    informative_words(strings::words(plain), 4) >= 8
}

/// Whether a plain text says enough to be looked for.
pub fn is_informative(plain: &str) -> (res: bool)
    ensures
        res == informative(plain@),
{
    count_informative(plain, 4) >= 8
}

/// Whether a stored text says enough to be looked for, `None` where it cannot be laid out.
pub fn is_informative_text(text: &str) -> (res: Option<bool>)
    ensures
        match text::normalized(text@) {
            Some(plain) => res == Some(informative(plain)),
            None => res is None,
        },
{
    match text::normalize_text(text) {
        Some(plain) => Some(is_informative(plain.as_str())),
        None => None,
    }
}

/// The place of sample `k` of `max` among `n` items.
pub open spec fn sample_at(k: int, n: int, max: int) -> int {
    k * (n - 1) / (max - 1)
}

/// The first `k` of `max` samples, without a sample that says the same as the one before it.
pub open spec fn samples(items: Seq<Seq<char>>, max: int, k: nat) -> Seq<Seq<char>>
    decreases k,
{
    if k == 0 {
        Seq::empty()
    } else {
        let front = samples(items, max, (k - 1) as nat);
        let item = items[sample_at(k - 1, items.len() as int, max)];
        if front.len() > 0 && front.last() == item {
            front
        } else {
            front.push(item)
        }
    }
}

/// Samples spread evenly from the first item to the last; a list that is short enough stays whole.
pub open spec fn sampled(items: Seq<Seq<char>>, max: nat) -> Seq<Seq<char>> {
    if items.len() <= max || max <= 1 {
        items
    } else {
        samples(items, max as int, max)
    }
}

/// The first sample is the first item, the last sample is the last one, and no sample lies outside.
pub proof fn law_sample_at(k: int, n: int, max: int)
    requires
        n >= 1,
        max >= 2,
        0 <= k < max,
    ensures
        0 <= sample_at(k, n, max) < n,
        sample_at(0, n, max) == 0,
        sample_at(max - 1, n, max) == n - 1,
{
    let d = max - 1;
    let m = n - 1;
    assert(0 <= k * m <= d * m) by (nonlinear_arith)
        requires
            0 <= k <= d,
            m >= 0,
    ;
    assert((d * m) / d == m) by (nonlinear_arith)
        requires
            d > 0,
    ;
    assert(0 <= (k * m) / d <= (d * m) / d) by (nonlinear_arith)
        requires
            0 <= k * m <= d * m,
            d > 0,
    ;
    assert(0 * m == 0);
    assert(0int / d == 0) by (nonlinear_arith)
        requires
            d > 0,
    ;
}

/// Later samples do not lie before earlier ones.
pub proof fn law_samples_in_order(j: int, k: int, n: int, max: int)
    requires
        n >= 1,
        max >= 2,
        0 <= j <= k < max,
    ensures
        sample_at(j, n, max) <= sample_at(k, n, max),
{
    let d = max - 1;
    let m = n - 1;
    assert(j * m <= k * m) by (nonlinear_arith)
        requires
            j <= k,
            m >= 0,
    ;
    assert((j * m) / d <= (k * m) / d) by (nonlinear_arith)
        requires
            j * m <= k * m,
            d > 0,
    ;
}

/// Picks samples spread evenly over a list.
pub fn sample_evenly(chunks: Vec<String>, max_chunks: usize) -> (res: Vec<String>)
    ensures
        strings::texts(res@) == sampled(strings::texts(chunks@), max_chunks as nat),
{
    let n: usize = chunks.len();
    if n <= max_chunks || max_chunks <= 1 {
        return chunks;
    }
    let ghost all = strings::texts(chunks@);
    let mut res: Vec<String> = Vec::new();
    assert(strings::texts(res@) =~= Seq::<Seq<char>>::empty());
    for k in 0..max_chunks
        invariant
            n == chunks.len(),
            n > max_chunks,
            max_chunks > 1,
            all == strings::texts(chunks@),
            strings::texts(res@) == samples(all, max_chunks as int, k as nat),
    {
        let last: u128 = n as u128 - 1;
        assert(0 <= k * last <= 0xffff_ffff_ffff_ffff * 0xffff_ffff_ffff_ffff) by (nonlinear_arith)
            requires
                0 <= k <= 0xffff_ffff_ffff_ffff,
                0 <= last <= 0xffff_ffff_ffff_ffff,
        ;
        let spread: u128 = (k as u128 * last) / (max_chunks as u128 - 1);
        proof {
            law_sample_at(k as int, n as int, max_chunks as int);
            assert(spread == sample_at(k as int, n as int, max_chunks as int));
        }
        let at: usize = spread as usize;
        let ghost before = strings::texts(res@);
        let count: usize = res.len();
        assert(before.len() == count);
        if count == 0 || !strings::same(res[count - 1].as_str(), chunks[at].as_str()) {
            res.push(chunks[at].clone());
            assert(strings::texts(res@) =~= before.push(all[at as int]));
        }
    }
    res
}

/// There are at most as many samples as were asked for, if more than one was.
pub proof fn law_sampled_len(items: Seq<Seq<char>>, max: nat)
    requires
        max > 1,
    ensures
        sampled(items, max).len() <= max,
        items.len() > 0 ==> sampled(items, max).len() > 0,
{
    if items.len() > max {
        lemma_samples_len(items, max as int, max);
    }
}

proof fn lemma_samples_len(items: Seq<Seq<char>>, max: int, k: nat)
    ensures
        samples(items, max, k).len() <= k,
        k > 0 ==> samples(items, max, k).len() > 0,
    decreases k,
{
    if k > 0 {
        lemma_samples_len(items, max, (k - 1) as nat);
    }
}

/// The chunks of a text query among its pieces: the pieces that are long enough and say nothing
/// that an earlier piece says, as long as there is room, each under its number.
pub open spec fn distinct_pieces(pieces: Seq<Seq<char>>) -> Seq<QueryView>
    decreases pieces.len(),
{
    if pieces.len() == 0 {
        Seq::empty()
    } else {
        let front = distinct_pieces(pieces.drop_last());
        let piece = pieces.last();
        if front.len() >= MAX_QUERY_CHUNKS || strings::byte_len(piece) < MIN_CHUNK_BYTES
            || pieces.drop_last().contains(piece) {
            front
        } else {
            front.push(query_view("Query chunk "@ + numbers::digits(pieces.len()), piece))
        }
    }
}

/// The chunks of a text query whose plain text is known. A text with no piece that is long enough
/// is one chunk.
pub open spec fn text_chunks(plain: Seq<char>) -> Seq<QueryView> {
    let picked = distinct_pieces(text::chunks(strings::words(plain), 120, 20));
    if picked.len() == 0 && plain.len() > 0 {
        seq![query_view("Query chunk 1"@, plain)]
    } else {
        picked
    }
}

proof fn lemma_distinct_full(pieces: Seq<Seq<char>>, n: int)
    requires
        0 <= n <= pieces.len(),
        distinct_pieces(pieces.take(n)).len() >= MAX_QUERY_CHUNKS,
    ensures
        distinct_pieces(pieces) == distinct_pieces(pieces.take(n)),
    decreases pieces.len(),
{
    if n == pieces.len() {
        assert(pieces.take(n) =~= pieces);
    } else {
        assert(pieces.drop_last().take(n) =~= pieces.take(n));
        lemma_distinct_full(pieces.drop_last(), n);
    }
}

fn is_taken(chunks: &Vec<QueryChunk>, text: &str) -> (res: bool)
    ensures
        res == (exists|i: int| 0 <= i < chunks@.len() && (#[trigger] chunks@[i]).text@ == text@),
{
    for i in 0..chunks.len()
        invariant
            forall|j: int| 0 <= j < i ==> (#[trigger] chunks@[j]).text@ != text@,
    {
        if strings::same(chunks[i].text.as_str(), text) {
            return true;
        }
    }
    false
}

/// The chunks of a text query, from its plain text.
pub fn split_text_query(plain: String) -> (res: Vec<QueryChunk>)
    ensures
        query_views(res@) == text_chunks(plain@),
{
    let pieces = text::chunk_text(plain.as_str(), 120, 20);
    let ghost all = strings::texts(pieces@);
    let mut chunks: Vec<QueryChunk> = Vec::new();
    assert(query_views(chunks@) =~= Seq::<QueryView>::empty());
    for i in 0..pieces.len()
        invariant
            all == strings::texts(pieces@),
            all == text::chunks(strings::words(plain@), 120, 20),
            query_views(chunks@) == distinct_pieces(all.take(i as int)),
            chunks@.len() < MAX_QUERY_CHUNKS,
            forall|j: int|
                0 <= j < i && strings::byte_len(#[trigger] all[j]) >= MIN_CHUNK_BYTES ==> exists|
                    k: int,
                |
                    0 <= k < chunks@.len() && (#[trigger] chunks@[k]).text@ == all[j],
            forall|k: int|
                0 <= k < chunks@.len() ==> all.take(i as int).contains(
                    (#[trigger] chunks@[k]).text@,
                ),
    {
        let ghost now = all.take(i + 1);
        assert(now.drop_last() =~= all.take(i as int));
        assert(query_views(chunks@).len() == chunks@.len());
        let ghost before = chunks@;
        let piece = pieces[i].as_str();
        let long = strings::utf8_len(piece) >= MIN_CHUNK_BYTES;
        let taken = is_taken(&chunks, piece);
        proof {
            if long && now.drop_last().contains(piece@) {
                let j = choose|j: int| 0 <= j < i && now.drop_last()[j] == piece@;
                assert(all[j] == piece@);
                assert(taken);
            }
        }
        if long && !taken {
            push_chunk(&mut chunks, numbers::numbered("Query chunk ", i as u64 + 1), pieces[i].clone());
            assert(query_views(chunks@).len() == chunks@.len());
            assert(forall|k: int| 0 <= k < before.len() ==> (#[trigger] chunks@[k])@
                == query_views(chunks@)[k]);
            assert(forall|k: int| 0 <= k < before.len() ==> (#[trigger] before[k])@
                == query_views(before)[k]);
            assert forall|k: int| 0 <= k < chunks@.len() implies now.contains(
                (#[trigger] chunks@[k]).text@,
            ) by {
                if k < before.len() {
                    assert(chunks@[k].text@ == before[k].text@);
                    let j = choose|j: int| 0 <= j < i && all.take(i as int)[j] == before[k].text@;
                    assert(now[j] == before[k].text@);
                } else {
                    assert(query_views(chunks@)[k].text == piece@);
                    assert(now[i as int] == piece@);
                }
            }
            assert forall|j: int|
                0 <= j < i + 1 && strings::byte_len(
                    #[trigger] all[j],
                ) >= MIN_CHUNK_BYTES implies exists|k: int|
                0 <= k < chunks@.len() && (#[trigger] chunks@[k]).text@ == all[j] by {
                if j < i {
                    let k = choose|k: int|
                        0 <= k < before.len() && (#[trigger] before[k]).text@ == all[j];
                    assert(chunks@[k].text@ == all[j]);
                } else {
                    let k = before.len() as int;
                    assert(query_views(chunks@)[k].text == piece@);
                    assert(chunks@[k].text@ == all[j]);
                }
            }
            if chunks.len() >= MAX_QUERY_CHUNKS {
                proof {
                    lemma_distinct_full(all, i + 1);
                }
                return chunks;
            }
        } else {
            assert forall|k: int| 0 <= k < chunks@.len() implies now.contains(
                (#[trigger] chunks@[k]).text@,
            ) by {
                let j = choose|j: int| 0 <= j < i && all.take(i as int)[j] == chunks@[k].text@;
                assert(now[j] == chunks@[k].text@);
            }
        }
    }
    assert(all.take(all.len() as int) =~= all);
    assert(query_views(chunks@).len() == chunks@.len());
    if chunks.len() == 0 && !plain.as_str().is_empty() {
        push_chunk(&mut chunks, strings::copy("Query chunk 1"), plain);
        assert(query_views(chunks@) =~= text_chunks(plain@));
    }
    chunks
}

/// The chunks of a text query, `None` where its text cannot be laid out.
pub open spec fn text_query(s: Seq<char>) -> Option<Seq<QueryView>> {
    match text::normalized(s) {
        Some(plain) => Some(text_chunks(plain)),
        None => None,
    }
}

/// Whether a list of chunks, if there is one, is what it should be.
pub open spec fn are_chunks(res: Option<Vec<QueryChunk>>, chunks: Option<Seq<QueryView>>) -> bool {
    match (res, chunks) {
        (Some(v), Some(views)) => query_views(v@) == views,
        (None, None) => true,
        _ => false,
    }
}

/// Splits a text query into chunks.
pub fn build_text_query_chunks(query_text: &str) -> (res: Option<Vec<QueryChunk>>)
    ensures
        are_chunks(res, text_query(query_text@)),
{
    match text::normalize_text(query_text) {
        Some(plain) => Some(split_text_query(plain)),
        None => None,
    }
}

/// The pieces of a plain text that are looked for.
pub open spec fn document_pieces(plain: Seq<char>, max: nat) -> Seq<Seq<char>> {
    sampled(text::chunks(strings::words(plain), 100, 20), max)
}

/// Samples the pieces of a plain text.
pub fn split_document(plain: &str, max_chunks: usize) -> (res: Vec<String>)
    ensures
        strings::texts(res@) == document_pieces(plain@, max_chunks as nat),
{
    sample_evenly(text::chunk_text(plain, 100, 20), max_chunks)
}

/// The chunks that come of a piece whose plain text is known: none where that says too little.
pub open spec fn piece_chunks(label: Seq<char>, piece: Seq<char>, plain: Seq<char>) -> Seq<
    QueryView,
> {
    if informative(plain) {
        seq![query_view(label, piece)]
    } else {
        Seq::empty()
    }
}

/// Adds a piece to the chunks, if its plain text says enough.
pub fn take_piece(chunks: Vec<QueryChunk>, label: String, piece: String, plain: &str) -> (res: Vec<
    QueryChunk,
>)
    ensures
        query_views(res@) == query_views(chunks@) + piece_chunks(label@, piece@, plain@),
{
    let mut chunks = chunks;
    let ghost before = query_views(chunks@);
    let ghost piece_text = piece@;
    if is_informative(plain) {
        push_chunk(&mut chunks, label, piece);
        assert(query_views(chunks@) =~= before + piece_chunks(label@, piece_text, plain@));
    } else {
        assert(before =~= before + piece_chunks(label@, piece_text, plain@));
    }
    chunks
}

/// The chunks of a document's sections, each under its number; `None` where one cannot be laid
/// out.
pub open spec fn section_chunks(pieces: Seq<Seq<char>>) -> Option<Seq<QueryView>>
    decreases pieces.len(),
{
    if pieces.len() == 0 {
        Some(Seq::empty())
    } else {
        match (section_chunks(pieces.drop_last()), text::normalized(pieces.last())) {
            (Some(front), Some(plain)) => Some(
                front + piece_chunks(
                    "Document section "@ + numbers::digits(pieces.len()),
                    pieces.last(),
                    plain,
                ),
            ),
            _ => None,
        }
    }
}

proof fn lemma_section_chunks_none(pieces: Seq<Seq<char>>, n: int)
    requires
        0 <= n <= pieces.len(),
        section_chunks(pieces.take(n)) is None,
    ensures
        section_chunks(pieces) is None,
    decreases pieces.len(),
{
    if n == pieces.len() {
        assert(pieces.take(n) =~= pieces);
    } else {
        assert(pieces.drop_last().take(n) =~= pieces.take(n));
        lemma_section_chunks_none(pieces.drop_last(), n);
    }
}

/// The query for a document without segments: its sections, or the whole as a text query where
/// no section says enough.
pub open spec fn document_query(s: Seq<char>, max: nat) -> Option<Seq<QueryView>> {
    match text::normalized(s) {
        None => None,
        Some(plain) => match section_chunks(document_pieces(plain, max)) {
            None => None,
            Some(chunks) => if chunks.len() == 0 {
                text_query(s)
            } else {
                Some(chunks)
            },
        },
    }
}

/// Splits a document into sections to look for.
pub fn build_sampled_document_chunks(query_text: &str, max_chunks: usize) -> (res: Option<
    Vec<QueryChunk>,
>)
    ensures
        are_chunks(res, document_query(query_text@, max_chunks as nat)),
{
    let plain = match text::normalize_text(query_text) {
        Some(plain) => plain,
        None => {
            return None;
        },
    };
    let pieces = split_document(plain.as_str(), max_chunks);
    let ghost all = strings::texts(pieces@);
    let mut chunks: Vec<QueryChunk> = Vec::new();
    assert(query_views(chunks@) =~= Seq::<QueryView>::empty());
    for i in 0..pieces.len()
        invariant
            all == strings::texts(pieces@),
            text::normalized(query_text@) == Some(plain@),
            all == document_pieces(plain@, max_chunks as nat),
            section_chunks(all.take(i as int)) == Some(query_views(chunks@)),
    {
        assert(all.take(i + 1).drop_last() =~= all.take(i as int));
        match text::normalize_text(pieces[i].as_str()) {
            Some(said) => {
                let label = numbers::numbered("Document section ", i as u64 + 1);
                chunks = take_piece(chunks, label, pieces[i].clone(), said.as_str());
            },
            None => {
                proof {
                    lemma_section_chunks_none(all, i + 1);
                }
                return None;
            },
        }
    }
    assert(all.take(all.len() as int) =~= all);
    assert(query_views(chunks@).len() == chunks@.len());
    if chunks.len() == 0 {
        build_text_query_chunks(query_text)
    } else {
        Some(chunks)
    }
}

/// The label of piece `i` of a segment.
pub open spec fn part_label(label: Seq<char>, i: int) -> Seq<char> {
    if i == 0 {
        label
    } else {
        label + " part "@ + numbers::digits((i + 1) as nat)
    }
}

fn make_part_label(label: &str, i: usize) -> (res: String)
    requires
        i < usize::MAX,
    ensures
        res@ == part_label(label@, i as int),
{
    let mut res = strings::copy(label);
    if i > 0 {
        res.append(" part ");
        numbers::push_digits(&mut res, i as u64 + 1);
    }
    res
}

/// `before`, and the chunks of a segment's pieces as long as there is room.
pub open spec fn with_pieces(
    before: Seq<QueryView>,
    label: Seq<char>,
    pieces: Seq<Seq<char>>,
) -> Option<Seq<QueryView>>
    decreases pieces.len(),
{
    if pieces.len() == 0 {
        Some(before)
    } else {
        match with_pieces(before, label, pieces.drop_last()) {
            None => None,
            Some(front) => if front.len() >= MAX_QUERY_CHUNKS {
                Some(front)
            } else {
                match text::normalized(pieces.last()) {
                    None => None,
                    Some(plain) => Some(
                        front + piece_chunks(
                            part_label(label, pieces.len() - 1),
                            pieces.last(),
                            plain,
                        ),
                    ),
                }
            },
        }
    }
}

proof fn lemma_with_pieces_stop(
    before: Seq<QueryView>,
    label: Seq<char>,
    pieces: Seq<Seq<char>>,
    n: int,
)
    requires
        0 <= n <= pieces.len(),
        match with_pieces(before, label, pieces.take(n)) {
            None => true,
            Some(front) => front.len() >= MAX_QUERY_CHUNKS,
        },
    ensures
        with_pieces(before, label, pieces) == with_pieces(before, label, pieces.take(n)),
    decreases pieces.len(),
{
    if n == pieces.len() {
        assert(pieces.take(n) =~= pieces);
    } else {
        assert(pieces.drop_last().take(n) =~= pieces.take(n));
        lemma_with_pieces_stop(before, label, pieces.drop_last(), n);
    }
}

/// Adds the pieces of a segment whose plain text is known.
fn take_segment(chunks: Vec<QueryChunk>, label: &str, plain: &str) -> (res: Option<Vec<QueryChunk>>)
    requires
        chunks@.len() < MAX_QUERY_CHUNKS,
    ensures
        are_chunks(
            res,
            with_pieces(query_views(chunks@), label@, document_pieces(plain@, MAX_PIECES as nat)),
        ),
{
    let ghost before = query_views(chunks@);
    let pieces = split_document(plain, MAX_PIECES);
    let ghost all = strings::texts(pieces@);
    let mut res = chunks;
    for i in 0..pieces.len()
        invariant
            all == strings::texts(pieces@),
            all == document_pieces(plain@, MAX_PIECES as nat),
            before == query_views(chunks@),
            with_pieces(before, label@, all.take(i as int)) == Some(query_views(res@)),
            res@.len() < MAX_QUERY_CHUNKS,
    {
        assert(all.take(i + 1).drop_last() =~= all.take(i as int));
        assert(query_views(res@).len() == res@.len());
        match text::normalize_text(pieces[i].as_str()) {
            Some(said) => {
                let part = make_part_label(label, i);
                res = take_piece(res, part, pieces[i].clone(), said.as_str());
                assert(query_views(res@).len() == res@.len());
                if res.len() >= MAX_QUERY_CHUNKS {
                    proof {
                        lemma_with_pieces_stop(before, label@, all, i + 1);
                    }
                    return Some(res);
                }
            },
            None => {
                proof {
                    lemma_with_pieces_stop(before, label@, all, i + 1);
                }
                return None;
            },
        }
    }
    assert(all.take(all.len() as int) =~= all);
    Some(res)
}

/// The chunks of a material's segments as long as there is room; `None` where a text cannot be
/// laid out.
pub open spec fn segments_query(segments: Seq<MaterialSegment>) -> Option<Seq<QueryView>>
    decreases segments.len(),
{
    if segments.len() == 0 {
        Some(Seq::empty())
    } else {
        match segments_query(segments.drop_last()) {
            None => None,
            Some(front) => if front.len() >= MAX_QUERY_CHUNKS {
                Some(front)
            } else {
                match text::normalized(segments.last().text@) {
                    None => None,
                    Some(plain) => if plain.len() == 0 {
                        Some(front)
                    } else {
                        with_pieces(
                            front,
                            segments.last().label@,
                            document_pieces(plain, MAX_PIECES as nat),
                        )
                    },
                }
            },
        }
    }
}

proof fn lemma_segments_query_stop(segments: Seq<MaterialSegment>, n: int)
    requires
        0 <= n <= segments.len(),
        match segments_query(segments.take(n)) {
            None => true,
            Some(front) => front.len() >= MAX_QUERY_CHUNKS,
        },
    ensures
        segments_query(segments) == segments_query(segments.take(n)),
    decreases segments.len(),
{
    if n == segments.len() {
        assert(segments.take(n) =~= segments);
    } else {
        assert(segments.drop_last().take(n) =~= segments.take(n));
        lemma_segments_query_stop(segments.drop_last(), n);
    }
}

/// The query for a material: its segments, or its whole text where it has no more than one or
/// none of them says enough.
pub open spec fn material_query(material: MaterialRecord) -> Option<Seq<QueryView>> {
    if material.segments@.len() <= 1 {
        document_query(material.source_text@, MAX_SECTIONS as nat)
    } else {
        match segments_query(material.segments@) {
            None => None,
            Some(chunks) => if chunks.len() == 0 {
                text_query(material.source_text@)
            } else {
                Some(chunks)
            },
        }
    }
}

/// Splits a material into parts to look for.
pub fn build_material_query_chunks(material: &MaterialRecord) -> (res: Option<Vec<QueryChunk>>)
    ensures
        are_chunks(res, material_query(*material)),
{
    if material.segments.len() <= 1 {
        return build_sampled_document_chunks(material.source_text.as_str(), MAX_SECTIONS);
    }
    let ghost all = material.segments@;
    let mut chunks: Vec<QueryChunk> = Vec::new();
    assert(query_views(chunks@) =~= Seq::<QueryView>::empty());
    for i in 0..material.segments.len()
        invariant
            all == material.segments@,
            all.len() > 1,
            segments_query(all.take(i as int)) == Some(query_views(chunks@)),
            chunks@.len() < MAX_QUERY_CHUNKS,
    {
        assert(all.take(i + 1).drop_last() =~= all.take(i as int));
        assert(query_views(chunks@).len() == chunks@.len());
        let segment = &material.segments[i];
        match text::normalize_text(segment.text.as_str()) {
            None => {
                proof {
                    lemma_segments_query_stop(all, i + 1);
                }
                return None;
            },
            Some(plain) => {
                if !plain.as_str().is_empty() {
                    match take_segment(chunks, segment.label.as_str(), plain.as_str()) {
                        None => {
                            proof {
                                lemma_segments_query_stop(all, i + 1);
                            }
                            return None;
                        },
                        Some(more) => {
                            chunks = more;
                            assert(query_views(chunks@).len() == chunks@.len());
                            if chunks.len() >= MAX_QUERY_CHUNKS {
                                proof {
                                    lemma_segments_query_stop(all, i + 1);
                                }
                                return Some(chunks);
                            }
                        },
                    }
                }
            },
        }
    }
    assert(all.take(all.len() as int) =~= all);
    assert(query_views(chunks@).len() == chunks@.len());
    if chunks.len() == 0 {
        build_text_query_chunks(material.source_text.as_str())
    } else {
        Some(chunks)
    }
}

/// A text query has at most as many chunks as allowed, and at least one where there is text; no
/// two of its chunks say the same.
pub proof fn law_text_chunks(plain: Seq<char>)
    ensures
        text_chunks(plain).len() <= MAX_QUERY_CHUNKS,
        plain.len() > 0 ==> text_chunks(plain).len() > 0,
        forall|i: int, j: int|
            0 <= i < j < text_chunks(plain).len() ==> (#[trigger] text_chunks(plain)[i]).text != (
            #[trigger] text_chunks(plain)[j]).text,
{
    lemma_distinct_pieces(text::chunks(strings::words(plain), 120, 20));
}

proof fn lemma_distinct_pieces(pieces: Seq<Seq<char>>)
    ensures
        distinct_pieces(pieces).len() <= MAX_QUERY_CHUNKS,
        forall|i: int|
            0 <= i < distinct_pieces(pieces).len() ==> pieces.contains(
                (#[trigger] distinct_pieces(pieces)[i]).text,
            ),
        forall|i: int, j: int|
            0 <= i < j < distinct_pieces(pieces).len() ==> (#[trigger] distinct_pieces(
                pieces,
            )[i]).text != (#[trigger] distinct_pieces(pieces)[j]).text,
    decreases pieces.len(),
{
    if pieces.len() > 0 {
        let before = pieces.drop_last();
        let front = distinct_pieces(before);
        lemma_distinct_pieces(before);
        assert forall|i: int| 0 <= i < distinct_pieces(pieces).len() implies pieces.contains(
            (#[trigger] distinct_pieces(pieces)[i]).text,
        ) by {
            if i < front.len() {
                assert(distinct_pieces(pieces)[i] == front[i]);
                let k = choose|k: int| 0 <= k < before.len() && before[k] == front[i].text;
                assert(pieces[k] == front[i].text);
            } else {
                assert(pieces[pieces.len() - 1] == distinct_pieces(pieces)[i].text);
            }
        }
    }
}

/// A material's query has at most as many chunks as allowed.
pub proof fn law_material_query(material: MaterialRecord)
    ensures
        match material_query(material) {
            Some(chunks) => chunks.len() <= MAX_QUERY_CHUNKS,
            None => true,
        },
{
    match text::normalized(material.source_text@) {
        Some(plain) => {
            law_text_chunks(plain);
            law_sampled_len(text::chunks(strings::words(plain), 100, 20), MAX_SECTIONS as nat);
            lemma_section_chunks_len(document_pieces(plain, MAX_SECTIONS as nat));
        },
        None => {},
    }
    lemma_segments_query_len(material.segments@);
}

proof fn lemma_section_chunks_len(pieces: Seq<Seq<char>>)
    ensures
        match section_chunks(pieces) {
            Some(chunks) => chunks.len() <= pieces.len(),
            None => true,
        },
    decreases pieces.len(),
{
    if pieces.len() > 0 {
        lemma_section_chunks_len(pieces.drop_last());
    }
}

proof fn lemma_with_pieces_len(before: Seq<QueryView>, label: Seq<char>, pieces: Seq<Seq<char>>)
    requires
        before.len() <= MAX_QUERY_CHUNKS,
    ensures
        match with_pieces(before, label, pieces) {
            Some(chunks) => chunks.len() <= MAX_QUERY_CHUNKS,
            None => true,
        },
    decreases pieces.len(),
{
    if pieces.len() > 0 {
        lemma_with_pieces_len(before, label, pieces.drop_last());
    }
}

proof fn lemma_segments_query_len(segments: Seq<MaterialSegment>)
    ensures
        match segments_query(segments) {
            Some(chunks) => chunks.len() <= MAX_QUERY_CHUNKS,
            None => true,
        },
    decreases segments.len(),
{
    if segments.len() > 0 {
        lemma_segments_query_len(segments.drop_last());
        match (segments_query(segments.drop_last()), text::normalized(segments.last().text@)) {
            (Some(front), Some(plain)) => {
                lemma_with_pieces_len(
                    front,
                    segments.last().label@,
                    document_pieces(plain, MAX_PIECES as nat),
                );
            },
            _ => {},
        }
    }
}

/// Cuts a text for ranking.
pub fn truncate_for_rerank(text: &str, max_chars: usize) -> (res: String)
    ensures
        res@ == strings::at_most(text@, max_chars as nat),
{
    strings::first_chars(text, max_chars)
}

/// The line that a chunk contributes to the summary of a query.
pub open spec fn summary_line(chunk: QueryView) -> Seq<char> {
    chunk.label + ": "@ + strings::at_most(chunk.text, 600)
}

/// The text that results are ranked against: the first chunks with their labels, or the query
/// itself where it has no chunks.
pub open spec fn rerank_query(query_text: Seq<char>, chunks: Seq<QueryView>) -> Seq<char> {
    if chunks.len() == 0 {
        strings::at_most(query_text, 4000)
    } else {
        let shown = order::first_n(chunks, 8);
        strings::at_most(
            strings::join(Seq::new(shown.len(), |i: int| summary_line(shown[i])), "\n\n"@),
            4000,
        )
    }
}

/// Writes the text that results are ranked against.
pub fn build_rerank_query(query_text: &str, query_chunks: &Vec<QueryChunk>) -> (res: String)
    ensures
        res@ == rerank_query(query_text@, query_views(query_chunks@)),
        res@.len() <= 4000,
{
    if query_chunks.len() == 0 {
        return truncate_for_rerank(query_text, 4000);
    }
    let ghost shown = order::first_n(query_views(query_chunks@), 8);
    let ghost expected = Seq::new(shown.len(), |i: int| summary_line(shown[i]));
    let n: usize = if query_chunks.len() < 8 {
        query_chunks.len()
    } else {
        8
    };
    assert(n == shown.len());
    let mut lines: Vec<String> = Vec::new();
    for i in 0..n
        invariant
            n <= query_chunks@.len(),
            n == shown.len(),
            shown == order::first_n(query_views(query_chunks@), 8),
            expected == Seq::new(shown.len(), |i: int| summary_line(shown[i])),
            strings::texts(lines@) == expected.take(i as int),
    {
        let chunk = &query_chunks[i];
        assert(shown[i as int] == chunk@);
        let ghost before = strings::texts(lines@);
        let mut line = chunk.label.clone();
        line.append(": ");
        let cut = truncate_for_rerank(chunk.text.as_str(), 600);
        line.append(cut.as_str());
        assert(line@ == summary_line(shown[i as int]));
        let ghost added = line@;
        lines.push(line);
        assert(strings::texts(lines@) =~= before.push(added));
        assert(expected.take(i + 1) =~= expected.take(i as int).push(expected[i as int]));
    }
    assert(expected.take(n as int) =~= expected);
    let summary = strings::join_all(&lines, "\n\n");
    truncate_for_rerank(summary.as_str(), 4000)
}

/// What a chunk is embedded as.
pub open spec fn embed_texts(chunks: Seq<QueryView>) -> Seq<Seq<char>> {
    Seq::new(chunks.len(), |i: int| "query: "@ + chunks[i].text)
}

/// What the chunks of a query are embedded as.
pub fn query_embed_inputs(chunks: &Vec<QueryChunk>) -> (res: Vec<String>)
    ensures
        strings::texts(res@) == embed_texts(query_views(chunks@)),
{
    let ghost expected = embed_texts(query_views(chunks@));
    let mut res: Vec<String> = Vec::new();
    for i in 0..chunks.len()
        invariant
            expected == embed_texts(query_views(chunks@)),
            strings::texts(res@) == expected.take(i as int),
    {
        let ghost before = strings::texts(res@);
        let mut input = strings::copy("query: ");
        input.append(chunks[i].text.as_str());
        let ghost added = input@;
        res.push(input);
        assert(strings::texts(res@) =~= before.push(added));
        assert(expected.take(i + 1) =~= expected.take(i as int).push(expected[i as int]));
    }
    assert(expected.take(expected.len() as int) =~= expected);
    res
}

} // verus!
