//! What is made of the files and texts of materials and packages.

use vstd::prelude::*;
use crate::chars;
use crate::db;
use crate::material;
use crate::material::MaterialRoute;
use crate::media;
use crate::models;
use crate::numbers;
use crate::paths;
use crate::paths::PathError;
use crate::routes;
use crate::strings;
use crate::strings::Separator;
use crate::text;

verus! {

/// Whether pages are those of a text: cut at its form feeds, page `k` the plain text of piece `k`.
pub open spec fn are_pages(pages: Seq<Seq<char>>, raw: Seq<char>) -> bool {
    exists|pieces: Seq<Seq<char>>, at: Seq<int>| #[trigger]
        strings::cut_at(raw, pieces, Separator::Char('\u{c}'), at) && pages.len() == pieces.len()
            && forall|k: int|
            0 <= k < pieces.len() ==> !(#[trigger] pieces[k]).contains('\u{c}') && text::normalized(
                pieces[k],
            ) == Some(pages[k])
}

/// Whether segments are those of the pages that are not empty, all of them, in order and numbered
/// from one: segment `i` is page `ks[i]`.
pub open spec fn are_page_segments(
    segments: Seq<models::SegmentView>,
    pages: Seq<Seq<char>>,
    ks: Seq<int>,
) -> bool {
    &&& ks.len() == segments.len()
    &&& forall|i: int, j: int| 0 <= i < j < ks.len() ==> #[trigger] ks[i] < #[trigger] ks[j]
    &&& forall|i: int|
        0 <= i < ks.len() ==> 0 <= #[trigger] ks[i] < pages.len() && segments[i].text
            == pages[ks[i]] && segments[i].text.len() > 0 && segments[i].label == "Page "@
            + numbers::digits((i + 1) as nat) && segments[i].ordinal == i as i64 && segments[i].id
            == i as i64
    &&& forall|k: int| 0 <= k < pages.len() && (#[trigger] pages[k]).len() > 0 ==> ks.contains(k)
}

/// Whether all of some texts are empty.
pub open spec fn all_empty(parts: Seq<Seq<char>>) -> bool {
    forall|k: int| 0 <= k < parts.len() ==> (#[trigger] parts[k]).len() == 0
}

proof fn lemma_non_empty(parts: Seq<Seq<char>>) -> (ks: Seq<int>)
    ensures
        ks.len() == strings::non_empty(parts).len(),
        forall|i: int, j: int| 0 <= i < j < ks.len() ==> #[trigger] ks[i] < #[trigger] ks[j],
        forall|i: int|
            0 <= i < ks.len() ==> 0 <= #[trigger] ks[i] < parts.len() && strings::non_empty(
                parts,
            )[i] == parts[ks[i]] && parts[ks[i]].len() > 0,
        forall|k: int| 0 <= k < parts.len() && (#[trigger] parts[k]).len() > 0 ==> ks.contains(k),
    decreases parts.len(),
{
    reveal(Seq::filter);
    if parts.len() == 0 {
        Seq::empty()
    } else {
        let front = parts.drop_last();
        let last = parts.len() - 1;
        let before = lemma_non_empty(front);
        let fewer = strings::non_empty(front);
        let all = strings::non_empty(parts);
        let ks = if parts[last].len() > 0 {
            before.push(last)
        } else {
            before
        };
        assert(all == if parts[last].len() > 0 {
            fewer.push(parts[last])
        } else {
            fewer
        });
        assert forall|i: int| 0 <= i < ks.len() implies 0 <= #[trigger] ks[i] < parts.len()
            && all[i] == parts[ks[i]] && parts[ks[i]].len() > 0 by {
            if i < before.len() {
                assert(ks[i] == before[i]);
                assert(front[before[i]] == parts[before[i]]);
            }
        }
        assert forall|k: int| 0 <= k < parts.len() && (#[trigger] parts[k]).len() > 0 implies
            ks.contains(k) by {
            if k < last {
                assert(front[k] == parts[k]);
                let i = choose|i: int| 0 <= i < before.len() && before[i] == k;
                assert(ks[i] == k);
            } else {
                assert(ks[before.len() as int] == last);
            }
        }
        ks
    }
}

proof fn lemma_plain_pages(raw: Seq<char>)
    ensures
        material::plain_pages(raw) matches Some(pages) ==> are_pages(
            pages,
            strings::unix_lines(raw),
        ),
{
    let sep = Separator::Char('\u{c}');
    let lines = strings::unix_lines(raw);
    let pieces = strings::split_on(lines, sep);
    strings::law_split_is_lossless(lines, sep);
    strings::law_split_pieces(lines, sep);
    text::lemma_all_normalized(pieces);
    if let Some(pages) = material::plain_pages(raw) {
        let at = choose|at: Seq<int>| #[trigger] strings::cut_at(lines, pieces, sep, at);
        assert forall|k: int| 0 <= k < pieces.len() implies !(#[trigger] pieces[k]).contains(
            '\u{c}',
        ) && text::normalized(pieces[k]) == Some(pages[k]) by {
            assert(strings::unsplit(pieces[k], sep));
            if pieces[k].contains('\u{c}') {
                let i = choose|i: int| 0 <= i < pieces[k].len() && pieces[k][i] == '\u{c}';
                assert(sep.at(pieces[k][i]));
            }
        }
        assert(strings::cut_at(lines, pieces, sep, at));
    }
}

/// A PDF file, and a document that was converted to one, is read page by page: its text is cut at
/// its form feeds, and every page that has plain text is a segment under its number, in order.
/// Where no page has any, there is nothing to read.
pub proof fn law_documents_are_read_by_pages(route: MaterialRoute, raw: Seq<char>)
    requires
        route != MaterialRoute::Text,
    ensures
        match material::segments_along(route, raw) {
            Ok(segments) => exists|pages: Seq<Seq<char>>, ks: Seq<int>|
                #![trigger are_page_segments(segments, pages, ks)]
                are_pages(pages, strings::unix_lines(raw)) && segments.len() > 0
                    && are_page_segments(segments, pages, ks),
            Err(e) => if material::plain_pages(raw) is None {
                e is Unrenderable
            } else {
                e is NoText && exists|pages: Seq<Seq<char>>| #[trigger]
                    are_pages(pages, strings::unix_lines(raw)) && all_empty(pages)
            },
        },
{
    lemma_plain_pages(raw);
    reveal_strlit("Page");
    reveal_strlit(" ");
    reveal_strlit("Page ");
    assert("Page "@ =~= "Page"@ + " "@);
    if let Some(pages) = material::plain_pages(raw) {
        let ks = lemma_non_empty(pages);
        let kept = strings::non_empty(pages);
        let segments = material::page_segments(kept);
        if kept.len() > 0 {
            assert(material::segments_along(route, raw)->Ok_0 == segments);
            assert(are_page_segments(segments, pages, ks));
        } else {
            assert forall|k: int| 0 <= k < pages.len() implies (#[trigger] pages[k]).len() == 0 by {
                if pages[k].len() > 0 {
                    assert(ks.contains(k));
                }
            }
            assert(are_pages(pages, strings::unix_lines(raw)) && all_empty(pages));
        }
    }
}

/// A plain text file is one segment with all of its plain text, under the number one; a file without
/// words has none.
pub proof fn law_text_files_are_one_segment(raw: Seq<char>)
    ensures
        material::segments_along(MaterialRoute::Text, raw) matches Ok(segments) ==> match (
        text::normalized(raw)) {
            Some(plain) => if strings::words(plain).len() == 0 {
                segments.len() == 0
            } else {
                segments.len() == 1 && segments[0].text == plain && segments[0].label == "Line 1"@
                    && segments[0].ordinal == 0 && segments[0].id == 0
            },
            None => false,
        },
{
    if let Some(plain) = text::normalized(raw) {
        text::law_plain_text_is_squeezed(raw);
        material::law_plain_text_is_one_segment(plain, "Line"@);
        reveal_strlit("Line");
        reveal_strlit(" ");
        reveal_strlit("Line 1");
        assert(numbers::digits(1) =~= seq!['1']);
        assert("Line 1"@ =~= "Line"@ + " "@ + numbers::digits(1));
    }
}

/// Text files, PDF files and the documents of two office programs can be read, each in its own way,
/// and no others.
pub proof fn law_routes(extension: Seq<char>)
    ensures
        material::route_of(extension) == Some(MaterialRoute::Text) <==> extension == "txt"@,
        material::route_of(extension) == Some(MaterialRoute::Pdf) <==> extension == "pdf"@,
        material::route_of(extension) == Some(MaterialRoute::Office) <==> extension == "docx"@
            || extension == "pptx"@ || extension == "doc"@ || extension == "ppt"@,
{
    reveal_strlit("txt");
    reveal_strlit("pdf");
    reveal_strlit("docx");
    reveal_strlit("pptx");
    reveal_strlit("doc");
    reveal_strlit("ppt");
    assert("txt"@[0] != "pdf"@[0]);
    assert("txt"@[0] != "docx"@[0]);
    assert("txt"@[0] != "pptx"@[0]);
    assert("txt"@[0] != "doc"@[0]);
    assert("txt"@[0] != "ppt"@[0]);
    assert("pdf"@[0] != "docx"@[0]);
    assert("pdf"@[1] != "pptx"@[1]);
    assert("pdf"@[0] != "doc"@[0]);
    assert("pdf"@[1] != "ppt"@[1]);
}

/// Whether media records are those of entries: record `i` is that of entry `ks[i]`, which the archive
/// holds, with the name of the file and a path under the directory of the media; none is left out.
pub open spec fn are_media(
    views: Seq<media::MediaView>,
    import_id: i64,
    media_dir: Seq<char>,
    entries: Seq<(Seq<char>, Seq<char>)>,
    present: Seq<bool>,
    start: i64,
    ks: Seq<int>,
) -> bool {
    &&& ks.len() == views.len()
    &&& forall|i: int, j: int| 0 <= i < j < ks.len() ==> #[trigger] ks[i] < #[trigger] ks[j]
    &&& forall|i: int|
        0 <= i < ks.len() ==> 0 <= #[trigger] ks[i] < entries.len() && media::is_present(
            present,
            ks[i],
        ) && views[i].import_id == import_id && views[i].media_name == entries[ks[i]].1 && (
        match paths::safe_path(entries[ks[i]].1) {
            Ok(path) => views[i].extracted_path == media_dir + "/"@ + path,
            Err(_) => false,
        }) && views[i].id == db::id_after(start, i)
    &&& forall|k: int|
        0 <= k < entries.len() && #[trigger] media::is_present(present, k) ==> ks.contains(k)
}

proof fn lemma_media(
    import_id: i64,
    media_dir: Seq<char>,
    entries: Seq<(Seq<char>, Seq<char>)>,
    present: Seq<bool>,
    start: i64,
) -> (ks: Seq<int>)
    ensures
        media::media_of(import_id, media_dir, entries, present, start) matches Ok(views)
            ==> are_media(views, import_id, media_dir, entries, present, start, ks) && forall|
            k: int,
        |
            0 <= k < entries.len() ==> paths::safe_path((#[trigger] entries[k]).0) is Ok,
    decreases entries.len(),
{
    if entries.len() == 0 {
        Seq::empty()
    } else {
        let front = entries.drop_last();
        let last = entries.len() - 1;
        let before = lemma_media(import_id, media_dir, front, present, start);
        let ks = if media::is_present(present, last) {
            before.push(last)
        } else {
            before
        };
        if let Ok(views) = media::media_of(import_id, media_dir, entries, present, start) {
            let fewer = media::media_of(import_id, media_dir, front, present, start)->Ok_0;
            assert(are_media(fewer, import_id, media_dir, front, present, start, before));
            assert forall|i: int| 0 <= i < ks.len() implies 0 <= #[trigger] ks[i] < entries.len()
                && media::is_present(present, ks[i]) && views[i].import_id == import_id
                && views[i].media_name == entries[ks[i]].1 && (match paths::safe_path(
                entries[ks[i]].1,
            ) {
                Ok(path) => views[i].extracted_path == media_dir + "/"@ + path,
                Err(_) => false,
            }) && views[i].id == db::id_after(start, i) by {
                if i < before.len() {
                    assert(ks[i] == before[i]);
                    assert(front[before[i]] == entries[before[i]]);
                    assert(views[i] == fewer[i]);
                }
            }
            assert forall|k: int|
                0 <= k < entries.len() && #[trigger] media::is_present(present, k) implies
                ks.contains(k) by {
                if k < last {
                    let i = choose|i: int| 0 <= i < before.len() && before[i] == k;
                    assert(ks[i] == k);
                } else {
                    assert(ks[before.len() as int] == last);
                }
            }
            assert forall|k: int| 0 <= k < entries.len() implies paths::safe_path(
                (#[trigger] entries[k]).0,
            ) is Ok by {
                if k < last {
                    assert(front[k] == entries[k]);
                }
            }
        }
        ks
    }
}

/// The media of a deck are those of its entries that the archive holds, all of them, in order, each
/// with the name of its file, a path under the directory of the media, and an id of its own; and an
/// import goes through only where no entry leads out of the archive.
pub proof fn law_media_are_those_of_the_archive(
    import_id: i64,
    media_dir: Seq<char>,
    entries: Seq<(Seq<char>, Seq<char>)>,
    present: Seq<bool>,
    start: i64,
)
    ensures
        media::media_of(import_id, media_dir, entries, present, start) matches Ok(views) ==> (
        exists|ks: Seq<int>| #[trigger]
            are_media(views, import_id, media_dir, entries, present, start, ks)) && forall|k: int|
            0 <= k < entries.len() ==> paths::safe_path((#[trigger] entries[k]).0) is Ok,
{
    let ks = lemma_media(import_id, media_dir, entries, present, start);
}

/// A path with its backslashes as slashes.
pub open spec fn with_slashes(raw: Seq<char>) -> Seq<char> {
    Seq::new(
        raw.len(),
        |i: int|
            if raw[i] == '\\' {
                '/'
            } else {
                raw[i]
            },
    )
}

/// Whether a path with these pieces between its slashes and backslashes is judged rightly.
pub open spec fn is_judged(raw: Seq<char>, pieces: Seq<Seq<char>>) -> bool {
    let named = pieces.filter(|c: Seq<char>| c.len() > 0 && c != seq!['.']);
    let rooted = raw.len() > 0 && (raw[0] == '/' || raw[0] == '\\');
    let on_drive = raw.len() >= 2 && chars::ascii_letter(raw[0]) && raw[1] == ':';
    let goes_up = pieces.contains(seq!['.', '.']);
    &&& forall|k: int| 0 <= k < pieces.len() ==> !(#[trigger] pieces[k]).contains('/')
    &&& match paths::safe_path(raw) {
        Ok(path) => !rooted && !on_drive && !goes_up && named.len() > 0 && is_laid_out(path, named),
        Err(PathError::Unsafe) => rooted || on_drive || goes_up,
        Err(PathError::Empty) => !rooted && !on_drive && !goes_up && named.len() == 0,
    }
}

/// Whether a path is made of names with a slash between any two.
pub open spec fn is_laid_out(path: Seq<char>, names: Seq<Seq<char>>) -> bool {
    exists|places: Seq<int>| #[trigger] strings::laid_out(path, names, seq!['/'], places)
}

/// A path is accepted where it starts neither with a slash or a backslash nor with a letter and a
/// colon, none of the pieces between slashes and backslashes is two dots, and some piece is neither
/// empty nor a dot. It is then those pieces in order, with a slash between any two.
pub proof fn law_safe_paths(raw: Seq<char>)
    ensures
        exists|pieces: Seq<Seq<char>>, at: Seq<int>| #[trigger]
            strings::cut_at(with_slashes(raw), pieces, Separator::Char('/'), at) && is_judged(
                raw,
                pieces,
            ),
{
    let path = strings::replace_char(raw, '\\', '/');
    let sep = Separator::Char('/');
    let pieces = paths::components(raw);
    assert(path =~= with_slashes(raw));
    strings::law_split_is_lossless(path, sep);
    strings::law_split_pieces(path, sep);
    let at = choose|at: Seq<int>| #[trigger] strings::cut_at(path, pieces, sep, at);
    let named = pieces.filter(|c: Seq<char>| c.len() > 0 && c != seq!['.']);
    assert((|c: Seq<char>| c.len() > 0 && c != seq!['.']) =~= (|c: Seq<char>|
        paths::names_entry(c)));
    assert(named == paths::entries(pieces));
    strings::law_join(named, seq!['/']);
    assert forall|k: int| 0 <= k < pieces.len() implies !(#[trigger] pieces[k]).contains('/') by {
        assert(strings::unsplit(pieces[k], sep));
        if pieces[k].contains('/') {
            let i = choose|i: int| 0 <= i < pieces[k].len() && pieces[k][i] == '/';
            assert(sep.at(pieces[k][i]));
        }
    }
    if let Ok(safe) = paths::safe_path(raw) {
        let places = choose|places: Seq<int>| #[trigger]
            strings::laid_out(strings::join(named, seq!['/']), named, seq!['/'], places);
        assert(strings::laid_out(safe, named, seq!['/'], places));
    }
    if raw.len() > 0 {
        assert(path[0] == if raw[0] == '\\' {
            '/'
        } else {
            raw[0]
        });
    }
    if raw.len() >= 2 {
        assert(path[1] == if raw[1] == '\\' {
            '/'
        } else {
            raw[1]
        });
    }
    assert(is_judged(raw, pieces));
    assert(strings::cut_at(with_slashes(raw), pieces, sep, at));
}

/// The extension of a file name is what stands behind its last dot, where that dot is not the first
/// character of the name.
pub proof fn law_extension_is_behind_the_last_dot(name: Seq<char>, i: int)
    requires
        0 < i < name.len(),
        name[i] == '.',
        forall|j: int| i < j < name.len() ==> #[trigger] name[j] != '.',
        name != seq!['.', '.'],
    ensures
        paths::extension(name) == Some(name.skip(i + 1)),
        paths::stem(name) == name.take(i),
{
    lemma_last_dot(name, i);
}

/// A file name without a dot behind its first character has no extension.
pub proof fn law_names_without_extension(name: Seq<char>)
    requires
        forall|j: int| 0 < j < name.len() ==> #[trigger] name[j] != '.',
    ensures
        paths::extension(name) is None,
        paths::stem(name) == name,
{
    if name.len() > 0 && name[0] == '.' {
        lemma_last_dot(name, 0);
    } else {
        lemma_no_dot(name);
    }
}

proof fn lemma_last_dot(name: Seq<char>, i: int)
    requires
        0 <= i < name.len(),
        name[i] == '.',
        forall|j: int| i < j < name.len() ==> #[trigger] name[j] != '.',
    ensures
        paths::last_dot(name) == i,
    decreases name.len(),
{
    if i < name.len() - 1 {
        assert(name[name.len() - 1] != '.');
        lemma_last_dot(name.drop_last(), i);
    }
}

proof fn lemma_no_dot(name: Seq<char>)
    requires
        forall|j: int| 0 <= j < name.len() ==> #[trigger] name[j] != '.',
    ensures
        paths::last_dot(name) == -1,
    decreases name.len(),
{
    if name.len() > 0 {
        assert(name[name.len() - 1] != '.');
        lemma_no_dot(name.drop_last());
    }
}

/// A stored name is a mark and the characters of the file's own name that file systems give no
/// meaning to, in order, as far as 255 bytes go: all of them where they fit, unless they are dots
/// alone.
pub proof fn law_stored_names(filename: Seq<char>)
    ensures
        ({
            let kept = filename.filter(|c: char| !routes::illegal(c));
            let own = routes::stored_name(filename, false).skip("upload-"@.len() as int);
            &&& strings::starts_with(routes::stored_name(filename, false), "upload-"@)
            &&& routes::legal(own)
            &&& routes::all_dots(kept) ==> own.len() == 0
            &&& !routes::all_dots(kept) ==> own.len() <= kept.len() && own == kept.take(
                own.len() as int,
            )
            &&& !routes::all_dots(kept) && strings::byte_len(kept) <= 255 ==> own == kept
            &&& strings::byte_len(own) <= 255
        }),
{
    let kept = filename.filter(|c: char| !routes::illegal(c));
    let own = routes::sanitized(filename);
    let stored = routes::stored_name(filename, false);
    assert(stored.skip("upload-"@.len() as int) =~= own);
    assert(stored.take("upload-"@.len() as int) =~= "upload-"@);
    routes::law_sanitized(filename);
    lemma_first_bytes(kept, 255);
    lemma_first_bytes(Seq::empty(), 255);
}

proof fn lemma_first_bytes(s: Seq<char>, max: nat)
    ensures
        routes::first_bytes(s, max).len() <= s.len(),
        routes::first_bytes(s, max) == s.take(routes::first_bytes(s, max).len() as int),
        strings::byte_len(s) <= max ==> routes::first_bytes(s, max) == s,
    decreases s.len(),
{
    if strings::byte_len(s) <= max || s.len() == 0 {
        assert(s.take(s.len() as int) =~= s);
    } else {
        let front = s.drop_last();
        lemma_first_bytes(front, max);
        let n = routes::first_bytes(front, max).len() as int;
        assert(front.take(n) =~= s.take(n));
    }
}

/// Whether a text is a stretch of another between sentence ends and line feeds, with the sentence
/// end behind it where there is one.
pub open spec fn is_sentence_run(s: Seq<char>, i: int, j: int) -> bool {
    &&& 0 <= i < j <= s.len()
    &&& i == 0 || text::sentence_stop(s[i - 1])
    &&& !text::sentence_stop(s[i])
    &&& forall|k: int| i <= k < j - 1 ==> !text::sentence_stop(#[trigger] s[k])
    &&& text::sentence_end(s[j - 1]) || !text::sentence_stop(s[j - 1]) && (j == s.len() || s[j]
        == '\n')
}

proof fn lemma_sentence_run(s: Seq<char>)
    ensures
        0 <= text::sentence_run(s) <= s.len(),
        forall|k: int|
            0 <= k < text::sentence_run(s) ==> !text::sentence_stop(#[trigger] s[k]),
        text::sentence_run(s) < s.len() ==> text::sentence_stop(s[text::sentence_run(s)]),
    decreases s.len(),
{
    if s.len() > 0 && !text::sentence_stop(s[0]) {
        let rest = s.skip(1);
        lemma_sentence_run(rest);
        assert forall|k: int| 0 <= k < text::sentence_run(s) implies !text::sentence_stop(
            #[trigger] s[k],
        ) by {
            if k > 0 {
                assert(rest[k - 1] == s[k]);
            }
        }
        if text::sentence_run(s) < s.len() {
            assert(rest[text::sentence_run(rest)] == s[text::sentence_run(s)]);
        }
    }
}

/// Whether runs are the stretches of a text between sentence ends, in order: run `i` stands from
/// `at[i].0` up to `at[i].1`, and every character outside of them is a sentence end or a line feed.
pub open spec fn are_sentence_runs(
    runs: Seq<Seq<char>>,
    s: Seq<char>,
    at: Seq<(int, int)>,
) -> bool {
    &&& at.len() == runs.len()
    &&& forall|i: int|
        0 <= i < at.len() ==> is_sentence_run(s, (#[trigger] at[i]).0, at[i].1) && runs[i]
            == s.subrange(at[i].0, at[i].1)
    &&& forall|i: int, j: int|
        0 <= i < j < at.len() ==> (#[trigger] at[i]).1 <= (#[trigger] at[j]).0
    &&& forall|k: int|
        0 <= k < s.len() && !text::sentence_stop(#[trigger] s[k]) ==> in_some_run(at, k)
}

/// Whether a place lies in one of the runs.
pub open spec fn in_some_run(at: Seq<(int, int)>, k: int) -> bool {
    exists|i: int| 0 <= i < at.len() && (#[trigger] at[i]).0 <= k < at[i].1
}

proof fn lemma_sentence_runs(s: Seq<char>, n: int) -> (at: Seq<(int, int)>)
    requires
        0 <= n <= s.len(),
        n == 0 || text::sentence_stop(s[n - 1]) || n < s.len() && s[n] == '\n' || n == s.len(),
    ensures
        ({
            let runs = text::sentence_runs(s.skip(n));
            &&& at.len() == runs.len()
            &&& forall|i: int|
                0 <= i < at.len() ==> n <= (#[trigger] at[i]).0 && is_sentence_run(
                    s,
                    at[i].0,
                    at[i].1,
                ) && runs[i] == s.subrange(at[i].0, at[i].1)
            &&& forall|i: int, j: int|
                0 <= i < j < at.len() ==> (#[trigger] at[i]).1 <= (#[trigger] at[j]).0
            &&& forall|k: int|
                n <= k < s.len() && !text::sentence_stop(#[trigger] s[k]) ==> in_some_run(at, k)
        }),
    decreases s.len() - n,
{
    let rest = s.skip(n);
    if n == s.len() {
        Seq::empty()
    } else if text::sentence_stop(rest[0]) {
        assert(rest.skip(1) =~= s.skip(n + 1));
        let at = lemma_sentence_runs(s, n + 1);
        assert forall|k: int| n <= k < s.len() && !text::sentence_stop(#[trigger] s[k]) implies
            in_some_run(at, k) by {
            assert(k != n);
        }
        at
    } else {
        lemma_sentence_run(rest);
        let run = text::sentence_run(rest);
        let len = text::sentence_len(rest);
        assert(0 < run <= len <= rest.len());
        let m = n + len;
        assert(rest.skip(len) =~= s.skip(m));
        assert forall|k: int| n <= k < n + run implies !text::sentence_stop(#[trigger] s[k]) by {
            assert(rest[k - n] == s[k]);
        }
        if run < rest.len() {
            assert(rest[run] == s[n + run]);
        }
        let more = lemma_sentence_runs(s, m);
        let at = seq![(n, m)] + more;
        let runs = text::sentence_runs(rest);
        assert(runs =~= seq![rest.take(len)] + text::sentence_runs(s.skip(m)));
        assert(rest.take(len) =~= s.subrange(n, m));
        assert(is_sentence_run(s, n, m));
        assert forall|i: int| 0 <= i < at.len() implies n <= (#[trigger] at[i]).0
            && is_sentence_run(s, at[i].0, at[i].1) && runs[i] == s.subrange(at[i].0, at[i].1) by {
            if i > 0 {
                assert(at[i] == more[i - 1]);
            }
        }
        assert forall|i: int, j: int| 0 <= i < j < at.len() implies (#[trigger] at[i]).1 <= (
        #[trigger] at[j]).0 by {
            assert(at[j] == more[j - 1]);
            if i > 0 {
                assert(at[i] == more[i - 1]);
            }
        }
        assert forall|k: int| n <= k < s.len() && !text::sentence_stop(#[trigger] s[k]) implies
            in_some_run(at, k) by {
            if k < m {
                assert(at[0] == (n, m));
            } else {
                assert(in_some_run(more, k));
                let i = choose|i: int| 0 <= i < more.len() && (#[trigger] more[i]).0 <= k
                    < more[i].1;
                assert(at[i + 1] == more[i]);
            }
        }
        at
    }
}

/// The sentences of a text are its stretches between sentence ends and line feeds, each with its
/// sentence end: trimmed, those of at least four bytes, in order; no other text is left out.
pub proof fn law_sentences(s: Seq<char>)
    ensures
        exists|at: Seq<(int, int)>| #[trigger]
            are_sentence_runs(text::sentence_runs(s), s, at),
        text::long_sentences(text::sentence_runs(s)) == text::sentence_runs(s).map_values(
            |run: Seq<char>| strings::trim(run),
        ).filter(|run: Seq<char>| strings::byte_len(run) >= 4),
        text::long_sentences(text::sentence_runs(s)).len() > 0 ==> text::sentences(s)
            == text::long_sentences(text::sentence_runs(s)),
        text::long_sentences(text::sentence_runs(s)).len() == 0 ==> text::sentences(s) == (
        if strings::all_white(s) {
            Seq::<Seq<char>>::empty()
        } else {
            seq![strings::trim(s)]
        }),
{
    let at = lemma_sentence_runs(s, 0);
    assert(s.skip(0) =~= s);
    assert(are_sentence_runs(text::sentence_runs(s), s, at));
    lemma_long_sentences(text::sentence_runs(s));
    strings::law_trim(s);
    if text::long_sentences(text::sentence_runs(s)).len() == 0 {
        assert(text::long_sentences(text::sentence_runs(s)) =~= Seq::<Seq<char>>::empty());
    }
}

proof fn lemma_long_sentences(runs: Seq<Seq<char>>)
    ensures
        text::long_sentences(runs) == runs.map_values(
            |run: Seq<char>| strings::trim(run),
        ).filter(|run: Seq<char>| strings::byte_len(run) >= 4),
    decreases runs.len(),
{
    reveal(Seq::filter);
    let trimmed = runs.map_values(|run: Seq<char>| strings::trim(run));
    if runs.len() > 0 {
        let front = runs.drop_last();
        lemma_long_sentences(front);
        assert(trimmed.drop_last() =~= front.map_values(|run: Seq<char>| strings::trim(run)));
    }
}

/// A document with an ordinary name is converted to a PDF file of the same name in its directory,
/// and an upload that is stored under such a name is of the kind of its extension.
pub proof fn law_ordinary_names(base: Seq<char>, ext: Seq<char>, file: paths::PdfFile)
    requires
        base.len() > 0,
        !base.contains('.'),
        !ext.contains('.'),
    ensures
        paths::is_pdf_file(file, base.push('.') + ext) ==> match file {
            paths::PdfFile::Inside(pdf) => pdf@ == base + ".pdf"@,
            _ => false,
        },
        routes::kind_of(base.push('.') + ext) == ext,
        routes::kind_of(base) == "file"@,
{
    let name = base.push('.') + ext;
    let n = base.len() as int;
    assert(name[n] == '.');
    assert(base.contains(base[0]));
    assert(name[0] == base[0]);
    assert forall|j: int| n < j < name.len() implies #[trigger] name[j] != '.' by {
        assert(name[j] == ext[j - n - 1]);
        assert(ext.contains(ext[j - n - 1]));
    }
    law_extension_is_behind_the_last_dot(name, n);
    assert(name.take(n) =~= base);
    assert(name.skip(n + 1) =~= ext);
    assert forall|j: int| 0 < j < base.len() implies #[trigger] base[j] != '.' by {
        assert(base.contains(base[j]));
    }
    law_names_without_extension(base);
    assert(seq!['.'][0] == '.' && seq!['.', '.'][0] == '.');
}

} // verus!
