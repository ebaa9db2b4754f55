//! Reading a study material: which way its file is read, and its text in segments.

use vstd::prelude::*;
use crate::chars;
use crate::models;
use crate::models::MaterialSegment;
use crate::numbers;
use crate::strings;
use crate::strings::Separator;
use crate::text;

verus! {

/// How the text of a material's file is had.
#[derive(Debug, Clone, Copy, PartialEq, Eq, Structural)]
pub enum MaterialRoute {
    /// The file is plain text.
    Text,
    /// The text is extracted from the PDF file.
    Pdf,
    /// The file is converted to PDF first.
    Office,
}

/// Why a material cannot be read.
#[derive(Debug, Clone)]
pub enum MaterialError {
    /// No way is known to read files with this extension.
    Unsupported(String),
    /// The file holds no text.
    NoText,
    /// The text cannot be laid out.
    Unrenderable,
}

impl MaterialError {
    /// The message of the error.
    pub open spec fn text(self) -> Seq<char> {
        match self {
            MaterialError::Unsupported(extension) => "Unsupported material type: "@ + extension@,
            MaterialError::NoText => "OCR not supported in v1 or the PDF contains no extractable text"@,
            MaterialError::Unrenderable => "material cannot be laid out as text"@,
        }
    }

    /// Says why the material cannot be read.
    pub fn message(&self) -> (res: String)
        ensures
            res@ == self.text(),
    {
        match self {
            MaterialError::Unsupported(extension) => {
                let mut res = strings::copy("Unsupported material type: ");
                res.append(extension.as_str());
                res
            },
            MaterialError::NoText => strings::copy(
                "OCR not supported in v1 or the PDF contains no extractable text",
            ),
            MaterialError::Unrenderable => strings::copy("material cannot be laid out as text"),
        }
    }
}

/// The route of an extension in lower case.
pub open spec fn route_of(extension: Seq<char>) -> Option<MaterialRoute> {
    if extension == "txt"@ {
        Some(MaterialRoute::Text)
    } else if extension == "pdf"@ {
        Some(MaterialRoute::Pdf)
    } else if extension == "docx"@ || extension == "pptx"@ || extension == "doc"@ || extension
        == "ppt"@ {
        Some(MaterialRoute::Office)
    } else {
        None
    }
}

/// How a file with an extension is read; the case of ASCII letters does not matter.
pub fn material_route(extension: &str) -> (res: Result<MaterialRoute, MaterialError>)
    ensures
        ({
            let lower = extension@.map_values(|c: char| chars::ascii_lower(c));
            match res {
                Ok(route) => route_of(lower) == Some(route),
                Err(MaterialError::Unsupported(other)) => route_of(lower) is None && other@
                    == lower,
                Err(_) => false,
            }
        }),
{
    let lower = strings::with_ascii_lowered(extension);
    let e = lower.as_str();
    if strings::same(e, "txt") {
        Ok(MaterialRoute::Text)
    } else if strings::same(e, "pdf") {
        Ok(MaterialRoute::Pdf)
    } else if strings::same(e, "docx") || strings::same(e, "pptx") || strings::same(e, "doc")
        || strings::same(e, "ppt") {
        Ok(MaterialRoute::Office)
    } else {
        Err(MaterialError::Unsupported(lower))
    }
}

/// What is noted on a material that was read along a route.
pub fn route_warning(route: MaterialRoute) -> (res: Option<String>)
    ensures
        match res {
            Some(warning) => route == MaterialRoute::Office && warning@
                == "Converted through unoconvert"@,
            None => route != MaterialRoute::Office,
        },
{
    match route {
        MaterialRoute::Office => Some(strings::copy("Converted through unoconvert")),
        _ => None,
    }
}

/// The views of a list of segments.
pub open spec fn segment_views(v: Seq<MaterialSegment>) -> Seq<models::SegmentView> {
    Seq::new(v.len(), |i: int| v[i]@)
}

/// The segment at position `i` with a text.
pub open spec fn segment_at(i: int, prefix: Seq<char>, text: Seq<char>) -> models::SegmentView {
    models::SegmentView {
        id: i as i64,
        material_id: 0,
        ordinal: i as i64,
        label: prefix + " "@ + numbers::digits((i + 1) as nat),
        text,
    }
}

fn make_segment(i: usize, prefix: &str, text: String) -> (res: MaterialSegment)
    requires
        i < usize::MAX,
    ensures
        res@ == segment_at(i as int, prefix@, text@),
{
    let mut label = strings::copy(prefix);
    label.append(" ");
    numbers::push_digits(&mut label, i as u64 + 1);
    MaterialSegment { id: i as i64, material_id: 0, ordinal: i as i64, label, text }
}

/// The segments of a list of lines: the trimmed lines that are not empty, each under its
/// position.
pub open spec fn line_segments(lines: Seq<Seq<char>>, prefix: Seq<char>) -> Seq<
    models::SegmentView,
>
    decreases lines.len(),
{
    if lines.len() == 0 {
        Seq::empty()
    } else {
        let front = line_segments(lines.drop_last(), prefix);
        let line = strings::trim(lines.last());
        if line.len() == 0 {
            front
        } else {
            front.push(segment_at(lines.len() - 1, prefix, line))
        }
    }
}

/// Splits a text into a segment for each line that is not blank.
pub fn split_to_segments(text: &str, prefix: &str) -> (res: Vec<MaterialSegment>)
    ensures
        segment_views(res@) == line_segments(
            strings::split_on(text@, Separator::Char('\n')),
            prefix@,
        ),
{
    let lines = strings::split_by(text, Separator::Char('\n'));
    let ghost all = strings::split_on(text@, Separator::Char('\n'));
    let mut res: Vec<MaterialSegment> = Vec::new();
    assert(segment_views(res@) =~= Seq::<models::SegmentView>::empty());
    for i in 0..lines.len()
        invariant
            all == strings::texts(lines@),
            segment_views(res@) == line_segments(all.take(i as int), prefix@),
    {
        assert(all.take(i + 1).drop_last() =~= all.take(i as int));
        let line = strings::trimmed(lines[i].as_str());
        if !line.as_str().is_empty() {
            let ghost before = segment_views(res@);
            let segment = make_segment(i, prefix, line);
            let ghost added = segment@;
            res.push(segment);
            assert(segment_views(res@) =~= before.push(added));
        }
    }
    assert(all.take(all.len() as int) =~= all);
    res
}

/// The segments of a plain text file, `None` where its text cannot be laid out.
pub fn text_segments(raw: &str) -> (res: Option<Vec<MaterialSegment>>)
    ensures
        match (text::normalized(raw@), res) {
            (Some(plain), Some(segments)) => segment_views(segments@) == line_segments(
                strings::split_on(plain, Separator::Char('\n')),
                "Line"@,
            ),
            (None, None) => true,
            _ => false,
        },
{
    match text::normalize_text(raw) {
        Some(plain) => Some(split_to_segments(plain.as_str(), "Line")),
        None => None,
    }
}

/// The segments of a list of pages, numbered in order.
pub open spec fn page_segments(pages: Seq<Seq<char>>) -> Seq<models::SegmentView> {
    Seq::new(pages.len(), |i: int| segment_at(i, "Page"@, pages[i]))
}

/// The segments of a list of plain pages: those that are not empty, numbered in order.
pub fn segments_of_pages(pages: Vec<String>) -> (res: Result<Vec<MaterialSegment>, MaterialError>)
    ensures
        ({
            let kept = strings::non_empty(strings::texts(pages@));
            match res {
                Ok(segments) => kept.len() > 0 && segment_views(segments@) == page_segments(kept),
                Err(e) => kept.len() == 0 && e == MaterialError::NoText,
            }
        }),
{
    let kept = strings::keep_non_empty(pages);
    let ghost all = strings::texts(kept@);
    assert(kept@.len() == all.len());
    if kept.len() == 0 {
        return Err(MaterialError::NoText);
    }
    let mut res: Vec<MaterialSegment> = Vec::new();
    for i in 0..kept.len()
        invariant
            all == strings::texts(kept@),
            segment_views(res@) == page_segments(all).take(i as int),
    {
        let ghost before = segment_views(res@);
        let segment = make_segment(i, "Page", kept[i].clone());
        let ghost added = segment@;
        res.push(segment);
        assert(segment_views(res@) =~= before.push(added));
        assert(page_segments(all).take(i + 1) =~= page_segments(all).take(i as int).push(
            page_segments(all)[i as int],
        ));
    }
    assert(page_segments(all).take(all.len() as int) =~= page_segments(all));
    Ok(res)
}

/// The plain pages of a text extracted from a PDF file, which form feeds hold apart.
pub open spec fn plain_pages(raw: Seq<char>) -> Option<Seq<Seq<char>>> {
    text::all_normalized(strings::split_on(strings::unix_lines(raw), Separator::Char('\u{c}')))
}

/// The segments of a text extracted from a PDF file: a segment for each page that is not blank.
pub fn extract_pdf_segments(raw: &str) -> (res: Result<Vec<MaterialSegment>, MaterialError>)
    ensures
        match plain_pages(raw@) {
            None => res matches Err(e) && e == MaterialError::Unrenderable,
            Some(pages) => match res {
                Ok(segments) => strings::non_empty(pages).len() > 0 && segment_views(segments@)
                    == page_segments(strings::non_empty(pages)),
                Err(e) => strings::non_empty(pages).len() == 0 && e == MaterialError::NoText,
            },
        },
{
    let unix = strings::with_unix_lines(raw);
    let parts = strings::split_by(unix.as_str(), Separator::Char('\u{c}'));
    match text::normalize_all(&parts) {
        None => Err(MaterialError::Unrenderable),
        Some(pages) => segments_of_pages(pages),
    }
}

/// The texts of a list of segments.
pub open spec fn segment_texts(v: Seq<MaterialSegment>) -> Seq<Seq<char>> {
    Seq::new(v.len(), |i: int| v[i].text@)
}

/// The text of a material: its segments with a blank line between them.
pub fn join_segments(segments: &Vec<MaterialSegment>) -> (res: String)
    ensures
        res@ == strings::join(segment_texts(segments@), "\n\n"@),
{
    let mut parts: Vec<String> = Vec::new();
    for i in 0..segments.len()
        invariant
            strings::texts(parts@) == segment_texts(segments@.take(i as int)),
    {
        let ghost before = strings::texts(parts@);
        parts.push(segments[i].text.clone());
        assert(strings::texts(parts@) =~= before.push(segments@[i as int].text@));
        assert(segment_texts(segments@.take(i + 1)) =~= segment_texts(
            segments@.take(i as int),
        ).push(segments@[i as int].text@));
    }
    assert(segments@.take(segments@.len() as int) =~= segments@);
    strings::join_all(&parts, "\n\n")
}

proof fn lemma_joined_words(ws: Seq<Seq<char>>)
    requires
        strings::all_words(ws),
    ensures
        ({
            let s = strings::join(ws, seq![' ']);
            &&& forall|i: int|
                0 <= i < s.len() ==> #[trigger] s[i] == ' ' || !chars::white_space(s[i])
            &&& ws.len() > 0 ==> s.len() > 0 && !chars::white_space(s[0]) && !chars::white_space(
                s.last(),
            )
            &&& ws.len() == 0 ==> s.len() == 0
        }),
    decreases ws.len(),
{
    let s = strings::join(ws, seq![' ']);
    if ws.len() == 1 {
        let w = ws[0];
        assert(w.len() > 0 && strings::unsplit(w, Separator::Space));
        assert forall|i: int| 0 <= i < s.len() implies #[trigger] s[i] == ' '
            || !chars::white_space(s[i]) by {
            assert(!Separator::Space.at(w[i]));
        }
        assert(!Separator::Space.at(w[0]));
        assert(!Separator::Space.at(w[w.len() - 1]));
    } else if ws.len() > 1 {
        let before = ws.drop_last();
        assert(strings::all_words(before)) by {
            assert forall|k: int| 0 <= k < before.len() implies (#[trigger] before[k]).len() > 0
                && strings::unsplit(before[k], Separator::Space) by {
                assert(before[k] == ws[k]);
            }
        }
        lemma_joined_words(before);
        let front = strings::join(before, seq![' ']);
        let w = ws[ws.len() - 1];
        assert(w.len() > 0 && strings::unsplit(w, Separator::Space));
        assert(s == front + seq![' '] + w);
        assert forall|i: int| 0 <= i < s.len() implies #[trigger] s[i] == ' '
            || !chars::white_space(s[i]) by {
            if i < front.len() {
                assert(s[i] == front[i]);
            } else if i > front.len() {
                assert(s[i] == w[i - front.len() - 1]);
                assert(!Separator::Space.at(w[i - front.len() - 1]));
            }
        }
        assert(s[0] == front[0]);
        assert(s.last() == w[w.len() - 1]);
        assert(!Separator::Space.at(w[w.len() - 1]));
    }
}

/// A plain text is one segment, which holds all of it: plain text has no line breaks.
pub proof fn law_plain_text_is_one_segment(s: Seq<char>, prefix: Seq<char>)
    ensures
        ({
            let plain = text::squeeze(s);
            let segments = line_segments(
                strings::split_on(plain, Separator::Char('\n')),
                prefix,
            );
            if strings::words(s).len() == 0 {
                segments.len() == 0
            } else {
                segments == seq![segment_at(0, prefix, plain)]
            }
        }),
{
    let plain = text::squeeze(s);
    let line_feed = Separator::Char('\n');
    strings::law_words_are_words(s);
    lemma_joined_words(strings::words(s));
    assert(chars::white_space('\n'));
    assert(strings::unsplit(plain, line_feed));
    strings::lemma_split_unsplit(plain, line_feed);
    let lines = seq![plain];
    assert(lines.drop_last() =~= Seq::<Seq<char>>::empty());
    assert(strings::trim(plain) == plain);
    assert(line_segments(lines.drop_last(), prefix) =~= Seq::<models::SegmentView>::empty());
    if strings::words(s).len() > 0 {
        assert(line_segments(lines, prefix) =~= seq![segment_at(0, prefix, plain)]);
    }
}

/// A PDF file's segments are numbered from one, and none of them is empty.
pub proof fn law_page_segments(pages: Seq<Seq<char>>)
    ensures
        ({
            let segments = page_segments(strings::non_empty(pages));
            forall|i: int|
                0 <= i < segments.len() ==> (#[trigger] segments[i]).text.len() > 0
                    && segments[i].label == "Page "@ + numbers::digits((i + 1) as nat)
        }),
{
    let kept = strings::non_empty(pages);
    let keep = |p: Seq<char>| p.len() > 0;
    assert forall|i: int| 0 <= i < kept.len() implies (#[trigger] kept[i]).len() > 0 by {
        assert(kept == pages.filter(keep));
        broadcast use vstd::seq_lib::group_filter_ensures;
        assert(keep(kept[i]));
    }
    reveal_strlit("Page");
    reveal_strlit(" ");
    reveal_strlit("Page ");
    assert("Page"@ + " "@ =~= "Page "@);
}

/// What is read out of a material's file.
#[derive(Debug, Clone)]
pub struct MaterialText {
    pub segments: Vec<MaterialSegment>,
    pub warning: Option<String>,
    pub source_text: String,
}

/// The segments of the text of a material's file that was had along a route, or why there are
/// none.
pub open spec fn segments_along(route: MaterialRoute, raw: Seq<char>) -> Result<
    Seq<models::SegmentView>,
    MaterialError,
> {
    if route == MaterialRoute::Text {
        match text::normalized(raw) {
            Some(plain) => Ok(
                line_segments(strings::split_on(plain, Separator::Char('\n')), "Line"@),
            ),
            None => Err(MaterialError::Unrenderable),
        }
    } else {
        match plain_pages(raw) {
            Some(pages) => if strings::non_empty(pages).len() == 0 {
                Err(MaterialError::NoText)
            } else {
                Ok(page_segments(strings::non_empty(pages)))
            },
            None => Err(MaterialError::Unrenderable),
        }
    }
}

/// Reads the text of a material's file that was had along a route.
pub fn ingest_material(route: MaterialRoute, raw: &str) -> (res: Result<MaterialText, MaterialError>)
    ensures
        match (segments_along(route, raw@), res) {
            (Ok(views), Ok(material)) => {
                &&& segment_views(material.segments@) == views
                &&& material.source_text@ == strings::join(
                    segment_texts(material.segments@),
                    "\n\n"@,
                )
                &&& match material.warning {
                    Some(warning) => route == MaterialRoute::Office && warning@
                        == "Converted through unoconvert"@,
                    None => route != MaterialRoute::Office,
                }
            },
            (Err(a), Err(b)) => a == b,
            _ => false,
        },
{
    let read = if route == MaterialRoute::Text {
        match text_segments(raw) {
            Some(segments) => Ok(segments),
            None => Err(MaterialError::Unrenderable),
        }
    } else {
        extract_pdf_segments(raw)
    };
    match read {
        Ok(segments) => {
            let source_text = join_segments(&segments);
            Ok(MaterialText { segments, warning: route_warning(route), source_text })
        },
        Err(e) => Err(e),
    }
}

} // verus!
