//! The forms and pages of the application: what is stored of an upload, and under which name.

use vstd::prelude::*;
use crate::db::StoreError;
use crate::numbers;
use crate::paths;
use crate::strings;

verus! {

/// Whether a character is left out of stored names.
pub open spec fn illegal(c: char) -> bool {
    c == '/' || c == '?' || c == '<' || c == '>' || c == '\\' || c == ':' || c == '*' || c == '|'
        || c == '"' || (c as u32) <= 0x1f || 0x80 <= (c as u32) <= 0x9f
}

/// Whether a text is made of dots alone.
pub open spec fn all_dots(s: Seq<char>) -> bool {
    forall|i: int| 0 <= i < s.len() ==> #[trigger] s[i] == '.'
}

/// The longest start of a text that has at most `max` bytes.
pub open spec fn first_bytes(s: Seq<char>, max: nat) -> Seq<char>
    decreases s.len(),
{
    if strings::byte_len(s) <= max || s.len() == 0 {
        s
    } else {
        first_bytes(s.drop_last(), max)
    }
}

/// A file name without characters that file systems give a meaning to, and not too long.
pub open spec fn sanitized(s: Seq<char>) -> Seq<char> {
    let kept = s.filter(|c: char| !illegal(c));
    first_bytes(
        if all_dots(kept) {
            Seq::empty()
        } else {
            kept
        },
        255,
    )
}

/// What is left of a file name where the names that Windows reserves are left out too.
pub uninterp spec fn sanitized_for_windows(s: Seq<char>) -> Seq<char>;

/// Whether no character of a name is left out of stored names.
pub open spec fn legal(s: Seq<char>) -> bool {
    forall|i: int| 0 <= i < s.len() ==> !illegal(#[trigger] s[i])
}

/// `sanitize_filename::sanitize_with_options` removes illegal characters from a file name, empties
/// a name of dots, and cuts it to 255 bytes. What it further removes for Windows depends on the
/// name alone and is named, not described.
#[verifier::external_body]
fn sanitize_name(name: &str, windows: bool) -> (res: String)
    ensures
        !windows ==> res@ == sanitized(name@),
        windows ==> res@ == sanitized_for_windows(name@) && legal(res@) && strings::byte_len(res@)
            <= 255,
{
    let options = sanitize_filename::Options { windows, ..sanitize_filename::Options::default() };
    sanitize_filename::sanitize_with_options(name, options)
}

proof fn lemma_first_bytes(s: Seq<char>, max: nat)
    ensures
        strings::byte_len(first_bytes(s, max)) <= max,
        first_bytes(s, max).len() <= s.len(),
        first_bytes(s, max) == s.take(first_bytes(s, max).len() as int),
    decreases s.len(),
{
    if strings::byte_len(s) <= max || s.len() == 0 {
        assert(s =~= s.take(s.len() as int));
        if s.len() == 0 {
            assert(s =~= Seq::<char>::empty());
            assert(strings::byte_len(s) == 0);
        }
    } else {
        lemma_first_bytes(s.drop_last(), max);
        let n = first_bytes(s, max).len() as int;
        assert(s.drop_last().take(n) =~= s.take(n));
    }
}

/// A sanitized name has no characters that are left out of stored names, and is not too long.
pub proof fn law_sanitized(s: Seq<char>)
    ensures
        legal(sanitized(s)),
        strings::byte_len(sanitized(s)) <= 255,
{
    let keep = |c: char| !illegal(c);
    let kept = s.filter(keep);
    broadcast use vstd::seq_lib::group_filter_ensures;
    let whole = if all_dots(kept) {
        Seq::empty()
    } else {
        kept
    };
    lemma_first_bytes(whole, 255);
    assert forall|i: int| 0 <= i < sanitized(s).len() implies !illegal(
        #[trigger] sanitized(s)[i],
    ) by {
        assert(sanitized(s)[i] == whole[i]);
        assert(keep(kept[i]));
    }
}

/// The name under which an uploaded file is stored.
pub open spec fn stored_name(filename: Seq<char>, windows: bool) -> Seq<char> {
    "upload-"@ + (if windows {
        sanitized_for_windows(filename)
    } else {
        sanitized(filename)
    })
}

/// Chooses the name under which an uploaded file is stored. It names a file in the directory it is
/// looked for in, and does not start with a dot.
pub fn upload_name(filename: &str, windows: bool) -> (res: String)
    ensures
        res@ == stored_name(filename@, windows),
        legal(res@),
        res@.len() > 0,
        res@[0] != '.',
{
    let mut res = strings::copy("upload-");
    let safe = sanitize_name(filename, windows);
    res.append(safe.as_str());
    proof {
        law_sanitized(filename@);
        reveal_strlit("upload-");
        assert forall|i: int| 0 <= i < res@.len() implies !illegal(#[trigger] res@[i]) by {
            if i >= 7 {
                assert(res@[i] == safe@[i - 7]);
            }
        }
    }
    res
}

/// What a field of a deck upload asks for.
#[derive(Debug, Clone)]
pub enum DeckField {
    /// Nothing: the field is another one.
    Skip,
    /// Nothing can be stored: the file has no name.
    MissingName,
    /// The file is stored; its own name, and the name under which it is stored.
    Store(String, String),
}

/// What is said where an uploaded file has no name.
pub const MISSING_NAME: &'static str = "missing uploaded filename";

/// What is said where no deck was uploaded.
pub const NO_DECK: &'static str = "expected deck_file upload";

/// What is said where neither a file nor a text was uploaded.
pub const NO_MATERIAL: &'static str = "expected material_file or query_text";

/// The name of a material whose text was pasted.
pub const PASTED_NAME: &'static str = "Pasted query";

/// The kind of a material whose text was pasted.
pub const PASTED_KIND: &'static str = "text";

/// The status of what can be used.
pub const READY: &'static str = "ready";

/// The status of what could not be worked on to its end.
pub const FAILED: &'static str = "failed";

/// Looks at a field of a deck upload.
pub fn deck_field(name: Option<&str>, file_name: Option<&str>, windows: bool) -> (res: DeckField)
    ensures
        match name {
            Some(field) => if field@ != "deck_file"@ {
                res is Skip
            } else {
                match (file_name, res) {
                    (Some(file), DeckField::Store(original, stored)) => original@ == file@
                        && stored@ == stored_name(file@, windows),
                    (None, DeckField::MissingName) => true,
                    _ => false,
                }
            },
            None => res is Skip,
        },
{
    match name {
        Some(field) => {
            if !strings::same(field, "deck_file") {
                DeckField::Skip
            } else {
                match file_name {
                    Some(file) => DeckField::Store(strings::copy(file), upload_name(file, windows)),
                    None => DeckField::MissingName,
                }
            }
        },
        None => DeckField::Skip,
    }
}

/// A file of a material upload.
#[derive(Debug, Clone)]
pub struct UploadedFile {
    pub filename: String,
    pub stored: String,
    pub kind: String,
}

/// A material upload: what its fields have said so far.
#[derive(Debug, Clone)]
pub struct MaterialUpload {
    pub file: Option<UploadedFile>,
    pub query_text: Option<String>,
}

/// Which field of a material upload a field is.
#[derive(Debug, Clone, Copy, PartialEq, Eq, Structural)]
pub enum MaterialField {
    File,
    QueryText,
    Other,
}

/// Looks at the name of a field of a material upload.
pub fn material_field(name: Option<&str>) -> (res: MaterialField)
    ensures
        res == (match name {
            Some(field) => if field@ == "material_file"@ {
                MaterialField::File
            } else if field@ == "query_text"@ {
                MaterialField::QueryText
            } else {
                MaterialField::Other
            },
            None => MaterialField::Other,
        }),
{
    match name {
        Some(field) => {
            if strings::same(field, "material_file") {
                MaterialField::File
            } else if strings::same(field, "query_text") {
                MaterialField::QueryText
            } else {
                MaterialField::Other
            }
        },
        None => MaterialField::Other,
    }
}

/// The kind of a stored file: its extension, or `file` where it has none.
pub open spec fn kind_of(stored: Seq<char>) -> Seq<char> {
    match paths::extension(stored) {
        Some(ext) => ext,
        None => "file"@,
    }
}

/// Whether a file is what an upload under a name makes.
pub open spec fn is_upload(file: UploadedFile, filename: Seq<char>, windows: bool) -> bool {
    &&& file.filename@ == filename
    &&& file.stored@ == stored_name(filename, windows)
    &&& file.kind@ == kind_of(file.stored@)
}

/// What becomes of a material upload.
#[derive(Debug, Clone)]
pub enum UploadOutcome {
    /// The file is to be read.
    File(UploadedFile),
    /// The text is the material.
    Text(String),
    /// There is neither.
    Nothing,
}

impl MaterialUpload {
    /// An upload of which no field is known yet.
    pub fn new() -> (res: MaterialUpload)
        ensures
            res.file is None,
            res.query_text is None,
    {
        MaterialUpload { file: None, query_text: None }
    }

    /// Takes a file in; it takes the place of a file before it. The answer is the name under which
    /// it is stored.
    pub fn take_file(&mut self, filename: &str, windows: bool) -> (res: String)
        ensures
            res@ == stored_name(filename@, windows),
            match final(self).file {
                Some(file) => is_upload(file, filename@, windows),
                None => false,
            },
            final(self).query_text == old(self).query_text,
    {
        let stored = upload_name(filename, windows);
        let kind = match paths::file_extension(stored.as_str()) {
            Some(ext) => ext,
            None => strings::copy("file"),
        };
        let res = stored.clone();
        self.file = Some(UploadedFile { filename: strings::copy(filename), stored, kind });
        res
    }

    /// Takes a text in; it takes the place of a text before it.
    pub fn take_text(&mut self, text: String)
        ensures
            final(self).query_text == Some(text),
            final(self).file == old(self).file,
    {
        self.query_text = Some(text);
    }

    /// What becomes of the upload: a file comes before a text.
    pub fn outcome(self) -> (res: UploadOutcome)
        ensures
            res == (match (self.file, self.query_text) {
                (Some(file), _) => UploadOutcome::File(file),
                (None, Some(text)) => UploadOutcome::Text(text),
                (None, None) => UploadOutcome::Nothing,
            }),
    {
        match self.file {
            Some(file) => UploadOutcome::File(file),
            None => match self.query_text {
                Some(text) => UploadOutcome::Text(text),
                None => UploadOutcome::Nothing,
            },
        }
    }
}

/// Whether a cart action puts the card into the cart.
pub fn is_wanted(action: &str) -> (res: bool)
    ensures
        res == (action@ != "remove"@),
{
    !strings::same(action, "remove")
}

/// Whether a page is to be loaded again: what it shows is still being worked on.
pub fn should_refresh(status: &str) -> (res: bool)
    ensures
        res == (status@ == "pending"@),
{
    strings::same(status, "pending")
}

/// A kind of page that shows one thing.
#[derive(Debug, Clone, Copy, PartialEq, Eq, Structural)]
pub enum PageKind {
    Deck,
    Material,
    Search,
}

/// The path under which a page of a kind is found.
pub open spec fn page_path(kind: PageKind, id: i64) -> Seq<char> {
    (match kind {
        PageKind::Deck => "/decks/"@,
        PageKind::Material => "/materials/"@,
        PageKind::Search => "/searches/"@,
    }) + numbers::decimal(id as int)
}

/// Writes the path under which a page is found.
pub fn path_of(kind: PageKind, id: i64) -> (res: String)
    ensures
        res@ == page_path(kind, id),
{
    let mut res = strings::copy(
        match kind {
            PageKind::Deck => "/decks/",
            PageKind::Material => "/materials/",
            PageKind::Search => "/searches/",
        },
    );
    numbers::push_decimal(&mut res, id);
    res
}

/// What is missing where a page shows nothing.
pub fn missing(kind: PageKind, id: i64) -> (res: StoreError)
    ensures
        res == (match kind {
            PageKind::Deck => StoreError::DeckNotFound(id),
            PageKind::Material => StoreError::MaterialNotFound(id),
            PageKind::Search => StoreError::SearchNotFound(id),
        }),
{
    match kind {
        PageKind::Deck => StoreError::DeckNotFound(id),
        PageKind::Material => StoreError::MaterialNotFound(id),
        PageKind::Search => StoreError::SearchNotFound(id),
    }
}

} // verus!
