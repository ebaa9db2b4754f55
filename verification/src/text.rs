//! Turning stored markup into plain text, and plain text into chunks, hashes and sentences.

use vstd::prelude::*;
use vstd::utf8;
use sha2::Digest;
use crate::chars;
use crate::markup;
use crate::strings;

verus! {

/// The line width at which markup is laid out as text.
pub const TEXT_WIDTH: usize = 80;

/// What `ammonia::clean` leaves of an HTML fragment.
pub uninterp spec fn clean_html(html: Seq<char>) -> Seq<char>;

/// The text as which `html2text` lays out an HTML fragment at a width; `None` where it reports
/// that it cannot.
pub uninterp spec fn rendered_html(html: Seq<char>, width: int) -> Option<Seq<char>>;

/// The SHA-256 digest of a byte sequence.
pub uninterp spec fn sha256(bytes: Seq<u8>) -> Seq<u8>;

/// `ammonia::clean` removes unsafe markup from an HTML fragment. Its result depends on the
/// fragment alone and is named, not described.
pub assume_specification[ ammonia::clean ](src: &str) -> (res: String)
    ensures
        res@ == clean_html(src@),
;

/// `html2text::config::plain().string_from_read` lays an HTML fragment out as plain text, as
/// `html2text::from_read` does, and reports an error where the fragment nests too deeply for the
/// width. Its result depends on its arguments alone and is named, not described. It splits a word
/// that is wider than its line by the widths of its characters but measures what is left as a
/// whole, and so never ends where an emoji selector makes the rest of a word wider than its
/// characters; it adds spanned columns and list numbers without a check; and it looks for a tab
/// stop for ever where no column is left. `markup::fits` leaves those fragments out. Memory and
/// stack are taken as sufficient for the fragment.
#[verifier::external_body]
fn render_html(html: &str, width: usize) -> (res: Option<String>)
    requires
        markup::fits(html@, width as int),
    ensures
        match res {
            Some(text) => rendered_html(html@, width as int) == Some(text@),
            None => rendered_html(html@, width as int) is None,
        },
{
    html2text::config::plain().string_from_read(html.as_bytes(), width).ok()
}

/// `sha2::Sha256::digest` computes the SHA-256 digest of its input: 32 bytes that depend on the
/// input alone, named here.
#[verifier::external_body]
fn sha256_digest(bytes: &[u8]) -> (res: Vec<u8>)
    ensures
        res@ == sha256(bytes@),
        res@.len() == 32,
{
    sha2::Sha256::digest(bytes).to_vec()
}

/// A text with every run of white space made one space, and none at either end.
pub open spec fn squeeze(s: Seq<char>) -> Seq<char> {
    strings::join(strings::words(s), seq![' '])
}

/// The plain text of a stored text: its markup cleaned, made ready, laid out, its emoji selectors
/// put back where others stood in for them, and its white space squeezed. `None` where the markup
/// cannot be laid out.
#[verifier::opaque]
pub open spec fn normalized(s: Seq<char>) -> Option<Seq<char>> {
    let ready = markup::prepared(clean_html(s), TEXT_WIDTH as int);
    if markup::fits(ready.html, TEXT_WIDTH as int) {
        match rendered_html(ready.html, TEXT_WIDTH as int) {
            Some(text) => Some(squeeze(markup::restored(text, ready.stand_in))),
            None => None,
        }
    } else {
        None
    }
}

/// Squeezes the white space of a text.
pub fn squeeze_text(text: &str) -> (res: String)
    ensures
        res@ == squeeze(text@),
{
    let words = strings::split_words(text);
    let res = strings::join_all(&words, " ");
    proof {
        reveal_strlit(" ");
        assert(" "@ =~= seq![' ']);
    }
    res
}

/// The plain text of a stored text, `None` where its markup cannot be laid out.
pub fn normalize_text(input: &str) -> (res: Option<String>)
    ensures
        match res {
            Some(text) => normalized(input@) == Some(text@),
            None => normalized(input@) is None,
        },
{
    proof {
        reveal(normalized);
    }
    let cleaned = ammonia::clean(input);
    let ready = markup::prepare(cleaned.as_str(), TEXT_WIDTH);
    if !markup::can_be_laid_out(ready.html.as_str(), TEXT_WIDTH) {
        return None;
    }
    match render_html(ready.html.as_str(), TEXT_WIDTH) {
        Some(text) => {
            let plain = markup::restore(text, ready.stand_in);
            Some(squeeze_text(plain.as_str()))
        },
        None => None,
    }
}

/// The plain texts of a list of stored texts, `None` where one of them cannot be laid out.
pub open spec fn all_normalized(parts: Seq<Seq<char>>) -> Option<Seq<Seq<char>>>
    decreases parts.len(),
{
    if parts.len() == 0 {
        Some(Seq::empty())
    } else {
        match (all_normalized(parts.drop_last()), normalized(parts.last())) {
            (Some(front), Some(last)) => Some(front.push(last)),
            _ => None,
        }
    }
}

proof fn lemma_all_normalized_prefix(parts: Seq<Seq<char>>, n: int)
    requires
        0 <= n <= parts.len(),
        all_normalized(parts.take(n)) is None,
    ensures
        all_normalized(parts) is None,
    decreases parts.len(),
{
    if n == parts.len() {
        assert(parts.take(n) =~= parts);
    } else {
        assert(parts.drop_last().take(n) =~= parts.take(n));
        lemma_all_normalized_prefix(parts.drop_last(), n);
    }
}

pub proof fn lemma_all_normalized(parts: Seq<Seq<char>>)
    ensures
        match all_normalized(parts) {
            Some(plain) => plain.len() == parts.len() && forall|i: int|
                0 <= i < parts.len() ==> normalized(#[trigger] parts[i]) == Some(plain[i]),
            None => true,
        },
    decreases parts.len(),
{
    if parts.len() > 0 {
        lemma_all_normalized(parts.drop_last());
        match all_normalized(parts.drop_last()) {
            Some(front) => {
                assert forall|i: int| 0 <= i < parts.len() - 1 implies normalized(
                    #[trigger] parts[i],
                ) == Some(front[i]) by {
                    assert(parts.drop_last()[i] == parts[i]);
                }
            },
            None => {},
        }
    }
}

/// The plain texts of a list of stored texts.
pub fn normalize_all(parts: &Vec<String>) -> (res: Option<Vec<String>>)
    ensures
        match res {
            Some(plain) => all_normalized(strings::texts(parts@)) == Some(strings::texts(plain@)),
            None => all_normalized(strings::texts(parts@)) is None,
        },
{
    let ghost all = strings::texts(parts@);
    let mut res: Vec<String> = Vec::new();
    assert(strings::texts(res@) =~= Seq::<Seq<char>>::empty());
    for i in 0..parts.len()
        invariant
            all == strings::texts(parts@),
            all_normalized(all.take(i as int)) == Some(strings::texts(res@)),
    {
        assert(all.take(i + 1).drop_last() =~= all.take(i as int));
        match normalize_text(parts[i].as_str()) {
            None => {
                proof {
                    lemma_all_normalized_prefix(all, i + 1);
                }
                return None;
            },
            Some(plain) => {
                let ghost before = strings::texts(res@);
                let ghost last = plain@;
                res.push(plain);
                assert(strings::texts(res@) =~= before.push(last));
            },
        }
    }
    assert(all.take(all.len() as int) =~= all);
    Some(res)
}

/// Plain text has no white space but single spaces between words: squeezing changes nothing in it.
pub proof fn law_plain_text_is_squeezed(s: Seq<char>)
    ensures
        match normalized(s) {
            Some(plain) => squeeze(plain) == plain,
            None => true,
        },
{
    reveal(normalized);
    let ready = markup::prepared(clean_html(s), TEXT_WIDTH as int);
    match rendered_html(ready.html, TEXT_WIDTH as int) {
        Some(text) => law_squeeze(markup::restored(text, ready.stand_in)),
        None => {},
    }
}

/// How many words a chunk starts behind the chunk before it.
pub open spec fn chunk_step(max_words: nat, overlap: nat) -> int {
    max_words - overlap
}

/// How many chunks `n` words make.
pub open spec fn chunk_count(n: nat, max_words: nat, overlap: nat) -> nat {
    if n == 0 {
        0
    } else if n <= max_words {
        1
    } else {
        let step = chunk_step(max_words, overlap);
        (1 + (n - max_words + step - 1) / step) as nat
    }
}

/// The first word of chunk `k`.
pub open spec fn chunk_start(k: int, max_words: nat, overlap: nat) -> int {
    k * chunk_step(max_words, overlap)
}

/// The word behind the last one of chunk `k`.
pub open spec fn chunk_end(k: int, n: nat, max_words: nat, overlap: nat) -> int {
    if chunk_start(k, max_words, overlap) + max_words <= n {
        chunk_start(k, max_words, overlap) + max_words
    } else {
        n as int
    }
}

/// The words of chunk `k`.
pub open spec fn chunk_words(
    ws: Seq<Seq<char>>,
    k: int,
    max_words: nat,
    overlap: nat,
) -> Seq<Seq<char>> {
    ws.subrange(
        chunk_start(k, max_words, overlap),
        chunk_end(k, ws.len(), max_words, overlap),
    )
}

/// Chunk `k`: its words joined by single spaces.
pub open spec fn chunk(ws: Seq<Seq<char>>, k: int, max_words: nat, overlap: nat) -> Seq<char> {
    strings::join(chunk_words(ws, k, max_words, overlap), seq![' '])
}

/// Overlapping chunks of at most `max_words` words, each joined by single spaces.
pub open spec fn chunks(ws: Seq<Seq<char>>, max_words: nat, overlap: nat) -> Seq<Seq<char>> {
    Seq::new(
        chunk_count(ws.len(), max_words, overlap),
        |k: int| chunk(ws, k, max_words, overlap),
    )
}

/// Whether chunking ends: each chunk moves on, or one chunk holds everything.
pub open spec fn chunking_ends(n: nat, max_words: nat, overlap: nat) -> bool {
    overlap < max_words || n <= max_words
}

proof fn lemma_last_chunk(k: int, n: nat, max_words: nat, overlap: nat)
    requires
        0 <= k,
        0 < n,
        chunking_ends(n, max_words, overlap),
        n <= max_words ==> k == 0,
        chunk_start(k, max_words, overlap) + max_words >= n,
        k == 0 || chunk_start(k - 1, max_words, overlap) + max_words < n,
    ensures
        chunk_count(n, max_words, overlap) == k + 1,
{
    if n > max_words {
        let step = chunk_step(max_words, overlap);
        let rest = n - max_words;
        assert((rest + step - 1) / step == k) by (nonlinear_arith)
            requires
                step > 0,
                rest > 0,
                k * step >= rest,
                k > 0 ==> (k - 1) * step < rest,
                k == 0 ==> 0 * step >= rest || k * step >= rest,
                k >= 0,
        ;
    }
}

/// Splits a text into overlapping chunks of at most `max_words` words.
pub fn chunk_text(input: &str, max_words: usize, overlap: usize) -> (res: Vec<String>)
    requires
        chunking_ends(strings::words(input@).len(), max_words as nat, overlap as nat),
    ensures
        strings::texts(res@) == chunks(strings::words(input@), max_words as nat, overlap as nat),
{
    let words = strings::split_words(input);
    let ghost ws = strings::words(input@);
    let ghost m = max_words as nat;
    let ghost o = overlap as nat;
    assert(words.len() == ws.len());
    let mut res: Vec<String> = Vec::new();
    if words.len() == 0 {
        assert(strings::texts(res@) =~= chunks(ws, m, o));
        return res;
    }
    let n: usize = words.len();
    let mut start: usize = 0;
    proof {
        reveal_strlit(" ");
        assert(" "@ =~= seq![' ']);
    }
    assert(chunk_start(0, m, o) == 0) by (nonlinear_arith);
    loop
        invariant_except_break
            start < n,
            start == chunk_start(res.len() as int, m, o),
            n <= m ==> res.len() == 0,
            res.len() == 0 || chunk_start(res.len() - 1, m, o) + m < n,
            strings::texts(res@) == Seq::new(res@.len(), |k: int| chunk(ws, k, m, o)),
        invariant
            strings::texts(words@) == ws,
            n == words.len(),
            n == ws.len(),
            m == max_words,
            o == overlap,
            " "@ == seq![' '],
            chunking_ends(n as nat, m, o),
        ensures
            strings::texts(res@) == chunks(ws, m, o),
        decreases n - start,
    {
        let end: usize = if max_words < n - start {
            start + max_words
        } else {
            n
        };
        let ghost before = strings::texts(res@);
        let ghost k = res.len() as int;
        let piece = strings::join_range(&words, start, end, " ");
        assert(piece@ == chunk(ws, k, m, o));
        res.push(piece);
        assert(strings::texts(res@) =~= before.push(chunk(ws, k, m, o)));
        assert(strings::texts(res@) =~= Seq::new(res@.len(), |k: int| chunk(ws, k, m, o)));
        if end == n {
            proof {
                lemma_last_chunk(k, n as nat, m, o);
            }
            break;
        }
        assert(chunk_start(k + 1, m, o) == chunk_start(k, m, o) + chunk_step(m, o))
            by (nonlinear_arith);
        start = end - overlap;
    }
    res
}

/// The hexadecimal digit of a number below 16.
pub open spec fn hex_digit(d: u8) -> char {
    if d < 10 {
        (('0' as u32 + d) as u32) as char
    } else {
        (('a' as u32 + (d - 10)) as u32) as char
    }
}

/// Bytes in lower-case hexadecimal notation, two digits each.
pub open spec fn hex(bytes: Seq<u8>) -> Seq<char> {
    Seq::new(
        2 * bytes.len(),
        |i: int|
            if i % 2 == 0 {
                hex_digit(bytes[i / 2] / 16)
            } else {
                hex_digit(bytes[i / 2] % 16)
            },
    )
}

fn to_hex_digit(d: u8) -> (res: char)
    requires
        d < 16,
    ensures
        res == hex_digit(d),
{
    if d < 10 {
        (48u8 + d) as char
    } else {
        (97u8 + (d - 10)) as char
    }
}

/// Writes bytes in lower-case hexadecimal notation.
pub fn hex_text(bytes: &Vec<u8>) -> (res: String)
    ensures
        res@ == hex(bytes@),
{
    let mut res = String::new();
    for i in 0..bytes.len()
        invariant
            res@ == hex(bytes@.take(i as int)),
    {
        let b: u8 = bytes[i];
        res.push(to_hex_digit(b / 16));
        res.push(to_hex_digit(b % 16));
        assert(res@ =~= hex(bytes@.take(i + 1)));
    }
    assert(bytes@.take(bytes@.len() as int) =~= bytes@);
    res
}

/// The SHA-256 digest of a text's UTF-8 bytes, in hexadecimal notation.
pub fn hash_text(input: &str) -> (res: String)
    ensures
        res@ == hex(sha256(utf8::encode_utf8(input@))),
        res@.len() == 64,
{
    let digest = sha256_digest(input.as_bytes());
    hex_text(&digest)
}

/// Whether a character ends a sentence.
pub open spec fn sentence_end(c: char) -> bool {
    c == '.' || c == '!' || c == '?'
}

/// Whether a character stands outside sentences: a sentence end or a line feed.
pub open spec fn sentence_stop(c: char) -> bool {
    sentence_end(c) || c == '\n'
}

/// How many characters at the start of `s` belong to a sentence.
pub open spec fn sentence_run(s: Seq<char>) -> int
    decreases s.len(),
{
    if s.len() == 0 || sentence_stop(s[0]) {
        0
    } else {
        1 + sentence_run(s.skip(1))
    }
}

/// The length of the sentence at the start of `s`, with the sentence end behind it.
pub open spec fn sentence_len(s: Seq<char>) -> int {
    let n = sentence_run(s);
    if n < s.len() && sentence_end(s[n]) {
        n + 1
    } else {
        n
    }
}

/// The maximal runs between stops, each with the sentence end that follows it.
pub open spec fn sentence_runs(s: Seq<char>) -> Seq<Seq<char>>
    decreases s.len(),
{
    if s.len() == 0 {
        Seq::empty()
    } else if sentence_stop(s[0]) {
        sentence_runs(s.skip(1))
    } else if 0 < sentence_len(s) <= s.len() {
        seq![s.take(sentence_len(s))] + sentence_runs(s.skip(sentence_len(s)))
    } else {
        Seq::empty()
    }
}

/// The trimmed runs of at least four bytes.
pub open spec fn long_sentences(runs: Seq<Seq<char>>) -> Seq<Seq<char>>
    decreases runs.len(),
{
    if runs.len() == 0 {
        Seq::empty()
    } else {
        let rest = long_sentences(runs.drop_last());
        let candidate = strings::trim(runs.last());
        if strings::byte_len(candidate) >= 4 {
            rest.push(candidate)
        } else {
            rest
        }
    }
}

/// The sentences of a text: its trimmed runs of at least four bytes or, where there is none, the
/// trimmed text itself unless it is empty.
pub open spec fn sentences(s: Seq<char>) -> Seq<Seq<char>> {
    let found = long_sentences(sentence_runs(s));
    if found.len() > 0 || strings::trim(s).len() == 0 {
        found
    } else {
        seq![strings::trim(s)]
    }
}

proof fn lemma_sentence_run(s: Seq<char>)
    ensures
        0 <= sentence_run(s) <= s.len(),
        s.len() > 0 && !sentence_stop(s[0]) ==> sentence_run(s) > 0,
    decreases s.len(),
{
    if s.len() > 0 && !sentence_stop(s[0]) {
        lemma_sentence_run(s.skip(1));
    }
}

fn is_sentence_stop(c: char) -> (res: bool)
    ensures
        res == sentence_stop(c),
{
    c == '.' || c == '!' || c == '?' || c == '\n'
}

/// Splits a text into sentences.
pub fn split_sentences(input: &str) -> (res: Vec<String>)
    ensures
        strings::texts(res@) == sentences(input@),
{
    let chars = strings::to_chars(input);
    let mut found: Vec<String> = Vec::new();
    let mut at: usize = 0;
    let ghost mut done: Seq<Seq<char>> = Seq::empty();
    assert(chars@.skip(0) =~= chars@);
    assert(done + sentence_runs(chars@) =~= sentence_runs(chars@));
    while at < chars.len()
        invariant
            at <= chars.len(),
            sentence_runs(chars@) == done + sentence_runs(chars@.skip(at as int)),
            strings::texts(found@) == long_sentences(done),
        decreases chars.len() - at,
    {
        let ghost tail = chars@.skip(at as int);
        assert(tail[0] == chars@[at as int]);
        if is_sentence_stop(chars[at]) {
            assert(tail.skip(1) =~= chars@.skip(at + 1));
            at = at + 1;
        } else {
            let mut end: usize = at;
            while end < chars.len() && !is_sentence_stop(chars[end])
                invariant
                    at <= end <= chars.len(),
                    tail == chars@.skip(at as int),
                    sentence_run(tail) == (end - at) + sentence_run(chars@.skip(end as int)),
                decreases chars.len() - end,
            {
                assert(chars@.skip(end as int)[0] == chars@[end as int]);
                assert(chars@.skip(end as int).skip(1) =~= chars@.skip(end + 1));
                end = end + 1;
            }
            proof {
                if end < chars@.len() {
                    assert(chars@.skip(end as int)[0] == chars@[end as int]);
                    assert(tail[end - at] == chars@[end as int]);
                }
                lemma_sentence_run(tail);
            }
            if end < chars.len() && chars[end] != '\n' {
                end = end + 1;
            }
            assert(sentence_len(tail) == end - at);
            let candidate = strings::from_range(&chars, at, end);
            assert(candidate@ =~= tail.take(end - at));
            let candidate = strings::trimmed(candidate.as_str());
            let ghost run = tail.take(end - at);
            proof {
                let next = done.push(run);
                assert(next.drop_last() =~= done);
                assert(tail.skip(end - at) =~= chars@.skip(end as int));
                assert(done + (seq![run] + sentence_runs(chars@.skip(end as int))) =~= next
                    + sentence_runs(chars@.skip(end as int)));
                done = next;
            }
            if strings::utf8_len(candidate.as_str()) >= 4 {
                let ghost before = strings::texts(found@);
                found.push(candidate);
                assert(strings::texts(found@) =~= before.push(strings::trim(run)));
            }
            at = end;
        }
    }
    assert(done + sentence_runs(chars@.skip(at as int)) =~= done);
    assert(found@.len() == long_sentences(sentence_runs(input@)).len());
    if found.len() == 0 {
        let whole = strings::trimmed(input);
        if !whole.as_str().is_empty() {
            found.push(whole);
            assert(strings::texts(found@) =~= seq![strings::trim(input@)]);
        }
    }
    found
}

proof fn lemma_chunk_bounds(n: nat, max_words: nat, overlap: nat)
    requires
        n > max_words,
        overlap < max_words,
    ensures
        ({
            let q = chunk_count(n, max_words, overlap) - 1;
            let step = chunk_step(max_words, overlap);
            &&& q >= 1
            &&& q * step >= n - max_words
            &&& (q - 1) * step < n - max_words
        }),
{
    let step = chunk_step(max_words, overlap);
    let rest = n - max_words;
    let q = (rest + step - 1) / step;
    assert(q >= 1 && q * step >= rest && (q - 1) * step < rest) by (nonlinear_arith)
        requires
            step > 0,
            rest > 0,
            q == (rest + step - 1) / step,
    ;
}

/// A chunk holds at least one word and at most `max_words`; the last one ends with the text, and
/// no other does; a chunk and the one behind it share exactly `overlap` words.
pub proof fn law_chunk_extent(k: int, n: nat, max_words: nat, overlap: nat)
    requires
        0 < max_words,
        chunking_ends(n, max_words, overlap),
        0 <= k < chunk_count(n, max_words, overlap),
    ensures
        0 <= chunk_start(k, max_words, overlap) < chunk_end(k, n, max_words, overlap) <= n,
        chunk_end(k, n, max_words, overlap) - chunk_start(k, max_words, overlap) <= max_words,
        k == chunk_count(n, max_words, overlap) - 1 ==> chunk_end(k, n, max_words, overlap) == n,
        k < chunk_count(n, max_words, overlap) - 1 ==> chunk_end(k, n, max_words, overlap)
            - chunk_start(k + 1, max_words, overlap) == overlap && chunk_end(
            k,
            n,
            max_words,
            overlap,
        ) < n,
{
    if n <= max_words {
        assert(chunk_start(0, max_words, overlap) == 0) by (nonlinear_arith);
    } else {
        lemma_chunk_bounds(n, max_words, overlap);
        let q = chunk_count(n, max_words, overlap) - 1;
        let step = chunk_step(max_words, overlap);
        assert(0 <= k * step <= q * step) by (nonlinear_arith)
            requires
                0 <= k <= q,
                step > 0,
        ;
        assert(q * step == (q - 1) * step + step) by (nonlinear_arith);
        assert((k + 1) * step == k * step + step) by (nonlinear_arith);
        if k < q {
            assert(k * step <= (q - 1) * step) by (nonlinear_arith)
                requires
                    k <= q - 1,
                    step > 0,
            ;
        }
    }
}

/// Every word of a text stands in some chunk.
pub proof fn law_chunks_cover(w: int, n: nat, max_words: nat, overlap: nat)
    requires
        0 < max_words,
        chunking_ends(n, max_words, overlap),
        0 <= w < n,
    ensures
        exists|k: int|
            0 <= k < chunk_count(n, max_words, overlap) && #[trigger] chunk_start(
                k,
                max_words,
                overlap,
            ) <= w < chunk_end(k, n, max_words, overlap),
{
    let count = chunk_count(n, max_words, overlap);
    let last = count - 1;
    if n <= max_words {
        law_chunk_extent(0, n, max_words, overlap);
        assert(chunk_start(0, max_words, overlap) == 0) by (nonlinear_arith);
    } else {
        lemma_chunk_bounds(n, max_words, overlap);
        law_chunk_extent(last, n, max_words, overlap);
        if w < chunk_start(last, max_words, overlap) {
            let step = chunk_step(max_words, overlap);
            let k = w / step;
            assert(0 <= k && k * step <= w < k * step + step && k < last) by (nonlinear_arith)
                requires
                    step > 0,
                    0 <= w < last * step,
                    k == w / step,
            ;
            assert(chunk_start(k, max_words, overlap) <= w);
        }
    }
}

/// The words of a chunk are the words it was cut from.
pub proof fn law_words_of_chunk(s: Seq<char>, k: int, max_words: nat, overlap: nat)
    requires
        0 < max_words,
        chunking_ends(strings::words(s).len(), max_words, overlap),
        0 <= k < chunk_count(strings::words(s).len(), max_words, overlap),
    ensures
        strings::words(chunks(strings::words(s), max_words, overlap)[k]) == chunk_words(
            strings::words(s),
            k,
            max_words,
            overlap,
        ),
{
    let ws = strings::words(s);
    law_chunk_extent(k, ws.len(), max_words, overlap);
    strings::law_words_are_words(s);
    let part = chunk_words(ws, k, max_words, overlap);
    assert forall|i: int| 0 <= i < part.len() implies (#[trigger] part[i]).len() > 0
        && strings::unsplit(part[i], strings::Separator::Space) by {
        assert(part[i] == ws[chunk_start(k, max_words, overlap) + i]);
    }
    strings::law_words_of_join(part);
}

/// Squeezing a text keeps its words, and squeezing again changes nothing.
pub proof fn law_squeeze(s: Seq<char>)
    ensures
        strings::words(squeeze(s)) == strings::words(s),
        squeeze(squeeze(s)) == squeeze(s),
{
    strings::law_words_are_words(s);
    strings::law_words_of_join(strings::words(s));
}

/// A text of at most `max_words` words is one chunk: the text squeezed.
pub proof fn law_short_text_is_one_chunk(s: Seq<char>, max_words: nat, overlap: nat)
    requires
        0 < strings::words(s).len() <= max_words,
    ensures
        chunks(strings::words(s), max_words, overlap) == seq![squeeze(s)],
{
    let ws = strings::words(s);
    assert(chunk_start(0, max_words, overlap) == 0) by (nonlinear_arith);
    assert(chunk_words(ws, 0, max_words, overlap) =~= ws);
    assert(chunks(ws, max_words, overlap) =~= seq![squeeze(s)]);
}


/// Whether chunks are windows over a list of words: chunk `k` holds the words from `at[k].0` up to
/// `at[k].1`. All but the last hold `max_words` words, each starts `overlap` words before the one
/// before it ends, the first starts with the first word, and the last is the first that ends with
/// the last one.
pub open spec fn are_windows(
    ws: Seq<Seq<char>>,
    cs: Seq<Seq<char>>,
    max_words: nat,
    overlap: nat,
    at: Seq<(int, int)>,
) -> bool {
    &&& at.len() == cs.len()
    &&& ws.len() == 0 <==> cs.len() == 0
    &&& forall|k: int| 0 <= k < cs.len() ==> is_window(ws, #[trigger] cs[k], at[k], max_words)
    &&& forall|k: int| 0 <= k < cs.len() ==> #[trigger] window_follows(at, k, overlap)
    &&& cs.len() > 0 ==> at.last().1 == ws.len()
    &&& forall|k: int|
        0 <= k < cs.len() - 1 ==> (#[trigger] at[k]).1 - at[k].0 == max_words && at[k].1
            < ws.len()
}

/// Whether a chunk holds the words of a window, single spaces between them.
pub open spec fn is_window(
    ws: Seq<Seq<char>>,
    chunk: Seq<char>,
    window: (int, int),
    max_words: nat,
) -> bool {
    &&& 0 <= window.0 < window.1 <= ws.len()
    &&& window.1 - window.0 <= max_words
    &&& strings::words(chunk) == ws.subrange(window.0, window.1)
    &&& exists|at: Seq<int>| #[trigger]
        strings::laid_out(chunk, ws.subrange(window.0, window.1), seq![' '], at)
}

/// Whether a window starts where it should: at the first word, or before the end of the window
/// before it.
pub open spec fn window_follows(at: Seq<(int, int)>, k: int, overlap: nat) -> bool {
    if k == 0 {
        at[k].0 == 0
    } else {
        at[k].0 == at[k - 1].1 - overlap
    }
}

/// The chunks of a text are windows over its words that overlap.
pub proof fn law_chunks_are_windows(s: Seq<char>, max_words: nat, overlap: nat)
    requires
        0 < max_words,
        chunking_ends(strings::words(s).len(), max_words, overlap),
    ensures
        exists|at: Seq<(int, int)>| #[trigger]
            are_windows(
                strings::words(s),
                chunks(strings::words(s), max_words, overlap),
                max_words,
                overlap,
                at,
            ),
{
    let ws = strings::words(s);
    let n = ws.len();
    let cs = chunks(ws, max_words, overlap);
    let at = Seq::new(
        cs.len(),
        |k: int| (chunk_start(k, max_words, overlap), chunk_end(k, n, max_words, overlap)),
    );
    assert forall|k: int| 0 <= k < cs.len() implies is_window(
        ws,
        #[trigger] cs[k],
        at[k],
        max_words,
    ) by {
        law_chunk_extent(k, n, max_words, overlap);
        law_words_of_chunk(s, k, max_words, overlap);
        strings::law_join(ws.subrange(at[k].0, at[k].1), seq![' ']);
    }
    assert forall|k: int| 0 <= k < cs.len() implies #[trigger] window_follows(at, k, overlap) by {
        if k > 0 {
            law_chunk_extent(k - 1, n, max_words, overlap);
        } else {
            assert(chunk_start(0, max_words, overlap) == 0) by (nonlinear_arith);
        }
    }
    assert forall|k: int| 0 <= k < cs.len() - 1 implies (#[trigger] at[k]).1 - at[k].0
        == max_words && at[k].1 < ws.len() by {
        law_chunk_extent(k, n, max_words, overlap);
        let step = chunk_step(max_words, overlap);
        assert((k + 1) * step == k * step + step) by (nonlinear_arith);
    }
    if cs.len() > 0 {
        law_chunk_extent(cs.len() - 1, n, max_words, overlap);
    }
    if n > 0 {
        law_chunks_cover(0, n, max_words, overlap);
    }
    assert(are_windows(ws, cs, max_words, overlap, at));
}

/// The number that a hexadecimal digit in lower case stands for.
pub open spec fn hex_value(c: char) -> int {
    if '0' <= c <= '9' {
        c as u32 - '0' as u32
    } else {
        c as u32 - 'a' as u32 + 10
    }
}

/// Two hexadecimal digits in lower case stand for each byte, in order, the higher one first.
pub proof fn law_hex(bytes: Seq<u8>, i: int)
    requires
        0 <= i < bytes.len(),
    ensures
        hex(bytes).len() == 2 * bytes.len(),
        16 * hex_value(hex(bytes)[2 * i]) + hex_value(hex(bytes)[2 * i + 1]) == bytes[i],
        0 <= hex_value(hex(bytes)[2 * i]) < 16,
        0 <= hex_value(hex(bytes)[2 * i + 1]) < 16,
{
    assert((2 * i) / 2 == i && (2 * i + 1) / 2 == i);
    let b = bytes[i];
    assert(b / 16 < 16 && b % 16 < 16 && 16 * (b / 16) + b % 16 == b);
}

/// The plain text of a stored text is that of its cleaned markup alone: what cleaning takes away
/// makes no difference. Where nothing stands in for another character, its words are those of the
/// markup laid out in lines of eighty columns.
pub proof fn law_plain_text_is_of_clean_markup(a: Seq<char>, b: Seq<char>)
    ensures
        clean_html(a) == clean_html(b) ==> normalized(a) == normalized(b),
        ({
            let ready = markup::prepared(clean_html(a), 80);
            normalized(a) is Some && ready.stand_in is None ==> match rendered_html(
                ready.html,
                80,
            ) {
                Some(laid_out) => strings::words(normalized(a)->Some_0) == strings::words(laid_out),
                None => false,
            }
        }),
        markup::selectors_fit(markup::lowered(clean_html(a)), 80) && markup::tabs_fit(
            markup::lowered(clean_html(a)),
        ) ==> markup::prepared(clean_html(a), 80).html == clean_html(a),
{
    reveal(normalized);
    let ready = markup::prepared(clean_html(a), 80);
    if let Some(laid_out) = rendered_html(ready.html, 80) {
        law_squeeze(laid_out);
    }
}

} // verus!
