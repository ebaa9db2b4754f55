//! Relative paths of archive members: which of them may be written under a directory.

use vstd::prelude::*;
use crate::chars;
use crate::strings;
use crate::strings::Separator;

verus! {

/// Why a path is refused.
#[derive(Debug, Clone, Copy, PartialEq, Eq, Structural)]
pub enum PathError {
    /// The path may lead out of the directory under which it is resolved.
    Unsafe,
    /// The path names nothing.
    Empty,
}

impl PathError {
    /// The message for a refused path.
    pub open spec fn text(self, raw: Seq<char>) -> Seq<char> {
        match self {
            PathError::Unsafe => "unsafe relative path: "@ + raw,
            PathError::Empty => "empty relative path"@,
        }
    }

    /// Says why `raw` is refused.
    pub fn message(&self, raw: &str) -> (res: String)
        ensures
            res@ == self.text(raw@),
    {
        match self {
            PathError::Unsafe => {
                let mut res = strings::copy("unsafe relative path: ");
                res.append(raw);
                res
            },
            PathError::Empty => strings::copy("empty relative path"),
        }
    }
}

/// Whether a path starts with a drive letter.
pub open spec fn names_drive(path: Seq<char>) -> bool {
    path.len() >= 2 && chars::ascii_letter(path[0]) && path[1] == ':'
}

/// Whether a component of a path names a file or directory: it is neither empty nor a dot.
pub open spec fn names_entry(component: Seq<char>) -> bool {
    component.len() > 0 && component != seq!['.']
}

/// The components of a path that name a file or directory.
pub open spec fn entries(components: Seq<Seq<char>>) -> Seq<Seq<char>> {
    components.filter(|c: Seq<char>| names_entry(c))
}

/// The components of a path, with a backslash taken for a slash.
pub open spec fn components(raw: Seq<char>) -> Seq<Seq<char>> {
    strings::split_on(strings::replace_char(raw, '\\', '/'), Separator::Char('/'))
}

/// Whether a path may lead out of the directory under which it is resolved: it starts with a
/// drive letter or at the root, or goes up somewhere.
pub open spec fn leads_out(raw: Seq<char>) -> bool {
    let path = strings::replace_char(raw, '\\', '/');
    ||| names_drive(path)
    ||| path.len() > 0 && path[0] == '/'
    ||| components(raw).contains(seq!['.', '.'])
}

/// The path that `raw` stands for: its entries, joined by slashes.
pub open spec fn safe_path(raw: Seq<char>) -> Result<Seq<char>, PathError> {
    if leads_out(raw) {
        Err(PathError::Unsafe)
    } else if entries(components(raw)).len() == 0 {
        Err(PathError::Empty)
    } else {
        Ok(strings::join(entries(components(raw)), seq!['/']))
    }
}

/// Checks a relative path and gives it in its plain form.
pub fn safe_relative_path(raw: &str) -> (res: Result<String, PathError>)
    ensures
        match res {
            Ok(path) => safe_path(raw@) == Ok::<Seq<char>, PathError>(path@),
            Err(e) => safe_path(raw@) == Err::<Seq<char>, PathError>(e),
        },
{
    let path = strings::with_char_replaced(raw, '\\', '/');
    let chars = strings::to_chars(path.as_str());
    if chars.len() >= 2 && chars[1] == ':' && (('a' <= chars[0] && chars[0] <= 'z') || ('A'
        <= chars[0] && chars[0] <= 'Z')) {
        return Err(PathError::Unsafe);
    }
    if chars.len() > 0 && chars[0] == '/' {
        return Err(PathError::Unsafe);
    }
    let parts = strings::split_by(path.as_str(), Separator::Char('/'));
    let ghost all = components(raw@);
    let ghost keep = |c: Seq<char>| names_entry(c);
    let mut kept: Vec<String> = Vec::new();
    proof {
        reveal_strlit("..");
        reveal_strlit(".");
        reveal_strlit("/");
        assert(".."@ =~= seq!['.', '.']);
        assert("."@ =~= seq!['.']);
        assert("/"@ =~= seq!['/']);
    }
    for i in 0..parts.len()
        invariant
            all == strings::texts(parts@),
            all == components(raw@),
            keep == (|c: Seq<char>| names_entry(c)),
            ".."@ == seq!['.', '.'],
            "."@ == seq!['.'],
            strings::texts(kept@) == all.take(i as int).filter(keep),
            forall|j: int| 0 <= j < i ==> all[j] != seq!['.', '.'],
    {
        assert(all.take(i + 1).drop_last() =~= all.take(i as int));
        reveal(Seq::filter);
        let part = parts[i].as_str();
        assert(part@ == all[i as int]);
        if strings::same(part, "..") {
            return Err(PathError::Unsafe);
        }
        if !part.is_empty() && !strings::same(part, ".") {
            let ghost before = strings::texts(kept@);
            kept.push(parts[i].clone());
            assert(strings::texts(kept@) =~= before.push(all[i as int]));
        }
    }
    assert(all.take(all.len() as int) =~= all);
    assert(kept@.len() == strings::texts(kept@).len());
    if kept.len() == 0 {
        return Err(PathError::Empty);
    }
    Ok(strings::join_all(&kept, "/"))
}

proof fn lemma_entries(parts: Seq<Seq<char>>)
    ensures
        forall|k: int|
            0 <= k < entries(parts).len() ==> names_entry(#[trigger] entries(parts)[k])
                && parts.contains(entries(parts)[k]),
    decreases parts.len(),
{
    reveal(Seq::filter);
    if parts.len() > 0 {
        let front = parts.drop_last();
        lemma_entries(front);
        assert forall|k: int| 0 <= k < entries(parts).len() implies names_entry(
            #[trigger] entries(parts)[k],
        ) && parts.contains(entries(parts)[k]) by {
            if k < entries(front).len() {
                let i = choose|i: int| 0 <= i < front.len() && front[i] == entries(front)[k];
                assert(parts[i] == entries(parts)[k]);
            } else {
                assert(parts[parts.len() - 1] == entries(parts)[k]);
            }
        }
    }
}

/// Splitting what was joined with a separator gives back the parts that were joined, where none
/// of them holds the separator.
pub proof fn law_split_of_join(parts: Seq<Seq<char>>, c: char)
    requires
        parts.len() > 0,
        forall|k: int| 0 <= k < parts.len() ==> strings::unsplit(#[trigger] parts[k], Separator::Char(c)),
    ensures
        strings::split_on(strings::join(parts, seq![c]), Separator::Char(c)) == parts,
    decreases parts.len(),
{
    let sep = Separator::Char(c);
    if parts.len() == 1 {
        strings::lemma_split_unsplit(parts[0], sep);
        assert(seq![parts[0]] =~= parts);
    } else {
        let front = parts.drop_last();
        assert forall|k: int| 0 <= k < front.len() implies strings::unsplit(
            #[trigger] front[k],
            sep,
        ) by {
            assert(front[k] == parts[k]);
        }
        law_split_of_join(front, c);
        let head = strings::join(front, seq![c]);
        assert(head + seq![c] + parts.last() =~= head.push(c) + parts.last());
        strings::lemma_split_concat(head, c, parts.last(), sep);
        strings::lemma_split_unsplit(parts.last(), sep);
        assert(front + seq![parts.last()] =~= parts);
    }
}

proof fn lemma_entries_of_entries(parts: Seq<Seq<char>>)
    requires
        forall|k: int| 0 <= k < parts.len() ==> names_entry(#[trigger] parts[k]),
    ensures
        entries(parts) == parts,
    decreases parts.len(),
{
    reveal(Seq::filter);
    if parts.len() > 0 {
        let front = parts.drop_last();
        assert forall|k: int| 0 <= k < front.len() implies names_entry(#[trigger] front[k]) by {
            assert(front[k] == parts[k]);
        }
        lemma_entries_of_entries(front);
        assert(names_entry(parts[parts.len() - 1]));
        assert(front.push(parts.last()) =~= parts);
    } else {
        assert(entries(parts) =~= parts);
    }
}

proof fn lemma_no_backslash(parts: Seq<Seq<char>>)
    requires
        forall|k: int, i: int|
            0 <= k < parts.len() && 0 <= i < parts[k].len() ==> #[trigger] parts[k][i] != '\\',
    ensures
        forall|i: int|
            0 <= i < strings::join(parts, seq!['/']).len() ==> #[trigger] strings::join(
                parts,
                seq!['/'],
            )[i] != '\\',
    decreases parts.len(),
{
    if parts.len() > 1 {
        let front = parts.drop_last();
        assert forall|k: int, i: int|
            0 <= k < front.len() && 0 <= i < front[k].len() implies #[trigger] front[k][i] != '\\' by {
            assert(front[k] == parts[k]);
            assert(parts[k][i] != '\\');
        }
        lemma_no_backslash(front);
        let head = strings::join(front, seq!['/']);
        let last = parts[parts.len() - 1];
        let whole = strings::join(parts, seq!['/']);
        assert(whole == head + seq!['/'] + last);
        assert forall|i: int| 0 <= i < whole.len() implies #[trigger] whole[i] != '\\' by {
            if i < head.len() {
                assert(whole[i] == head[i]);
            } else if i > head.len() {
                assert(whole[i] == parts[parts.len() - 1][i - head.len() - 1]);
            }
        }
    } else if parts.len() == 1 {
        assert forall|i: int| 0 <= i < parts[0].len() implies #[trigger] parts[0][i] != '\\' by {
        }
    }
}

proof fn lemma_split_without(s: Seq<char>, sep: Separator, c: char)
    requires
        forall|i: int| 0 <= i < s.len() ==> #[trigger] s[i] != c,
    ensures
        forall|k: int, i: int|
            0 <= k < strings::split_on(s, sep).len() && 0 <= i < strings::split_on(s, sep)[k].len()
                ==> #[trigger] strings::split_on(s, sep)[k][i] != c,
    decreases s.len(),
{
    if s.len() > 0 {
        let front = s.drop_last();
        assert forall|i: int| 0 <= i < front.len() implies #[trigger] front[i] != c by {
            assert(front[i] == s[i]);
        }
        lemma_split_without(front, sep, c);
        assert(s[s.len() - 1] != c);
        strings::lemma_split_on_len(front, sep);
        let f = strings::split_on(front, sep);
        let r = strings::split_on(s, sep);
        assert forall|k: int, i: int| 0 <= k < r.len() && 0 <= i < r[k].len() implies #[trigger] r[k][i]
            != c by {
            if k < f.len() - 1 {
                assert(r[k] == f[k]);
                assert(f[k][i] != c);
            } else if !sep.at(s.last()) {
                if i < f.last().len() {
                    assert(f[f.len() - 1][i] != c);
                }
            } else if k == f.len() - 1 {
                assert(r[k] == f[k]);
                assert(f[k][i] != c);
            }
        }
    }
}

/// A path that is accepted stays under the directory in which it is resolved: it starts
/// neither at the root nor with an empty, dot or dot-dot component, goes up nowhere, and its
/// components are the entries of the path that was checked.
pub proof fn law_safe_path_stays_inside(raw: Seq<char>)
    ensures
        safe_path(raw) matches Ok(path) ==> {
            &&& path.len() > 0
            &&& path[0] != '/'
            &&& strings::split_on(path, Separator::Char('/')) == entries(components(raw))
            &&& forall|k: int|
                0 <= k < entries(components(raw)).len() ==> {
                    let entry = #[trigger] entries(components(raw))[k];
                    entry.len() > 0 && entry != seq!['.'] && entry != seq!['.', '.']
                }
            &&& forall|i: int| 0 <= i < path.len() ==> #[trigger] path[i] != '\\'
        },
{
    if let Ok(path) = safe_path(raw) {
        let sep = Separator::Char('/');
        let plain = strings::replace_char(raw, '\\', '/');
        let all = components(raw);
        let kept = entries(all);
        lemma_entries(all);
        strings::law_split_pieces(plain, sep);
        lemma_split_without(plain, sep, '\\');
        assert forall|k: int| 0 <= k < kept.len() implies strings::unsplit(#[trigger] kept[k], sep)
            && kept[k] != seq!['.', '.'] by {
            let i = choose|i: int| 0 <= i < all.len() && all[i] == kept[k];
            assert(strings::unsplit(all[i], sep));
            assert(names_entry(kept[k]));
            assert(all.contains(all[i]));
        }
        law_split_of_join(kept, '/');
        assert forall|k: int, j: int| 0 <= k < kept.len() && 0 <= j < kept[k].len() implies #[trigger] kept[k][j]
            != '\\' by {
            assert(names_entry(kept[k]));
            let i = choose|i: int| 0 <= i < all.len() && all[i] == kept[k];
            assert(all[i][j] != '\\');
        }
        lemma_no_backslash(kept);
        assert(names_entry(kept[0]));
        lemma_join_starts(kept);
        assert(strings::unsplit(kept[0], sep));
        assert(!sep.at(kept[0][0]));
    }
}

proof fn lemma_join_starts(parts: Seq<Seq<char>>)
    requires
        parts.len() > 0,
        parts[0].len() > 0,
    ensures
        strings::join(parts, seq!['/']).len() > 0,
        strings::join(parts, seq!['/'])[0] == parts[0][0],
    decreases parts.len(),
{
    if parts.len() > 1 {
        lemma_join_starts(parts.drop_last());
    }
}

/// Checking a path that passed gives the path itself, unless it now starts with a drive letter.
pub proof fn law_safe_path_is_plain(raw: Seq<char>)
    ensures
        safe_path(raw) matches Ok(path) ==> names_drive(path) || safe_path(path) == Ok::<
            Seq<char>,
            PathError,
        >(path),
{
    law_safe_path_stays_inside(raw);
    if let Ok(path) = safe_path(raw) {
        assert(strings::replace_char(path, '\\', '/') =~= path);
        let kept = entries(components(raw));
        assert(components(path) == kept);
        lemma_entries(components(raw));
        lemma_entries_of_entries(kept);
        assert(!kept.contains(seq!['.', '.']));
    }
}

/// The place of the last dot of a file name, or -1.
pub open spec fn last_dot(name: Seq<char>) -> int
    decreases name.len(),
{
    if name.len() == 0 {
        -1
    } else if name.last() == '.' {
        name.len() - 1
    } else {
        last_dot(name.drop_last())
    }
}

/// Whether a file name has an extension: a dot that does not stand at its start. The name of the
/// directory above has none.
pub open spec fn has_extension(name: Seq<char>) -> bool {
    last_dot(name) > 0 && !(name =~= seq!['.', '.'])
}

/// A file name without its extension.
pub open spec fn stem(name: Seq<char>) -> Seq<char> {
    if has_extension(name) {
        name.take(last_dot(name))
    } else {
        name
    }
}

/// The extension of a file name, if it has one.
pub open spec fn extension(name: Seq<char>) -> Option<Seq<char>> {
    if has_extension(name) {
        Some(name.skip(last_dot(name) + 1))
    } else {
        None
    }
}

proof fn lemma_last_dot(name: Seq<char>)
    ensures
        -1 <= last_dot(name) < name.len(),
        last_dot(name) >= 0 ==> name[last_dot(name)] == '.',
    decreases name.len(),
{
    if name.len() > 0 && name.last() != '.' {
        lemma_last_dot(name.drop_last());
    }
}

/// A file name with an extension is its stem, a dot, and its extension.
pub proof fn law_stem_and_extension(name: Seq<char>)
    ensures
        match extension(name) {
            Some(ext) => name == stem(name) + seq!['.'] + ext && stem(name).len() > 0,
            None => stem(name) == name,
        },
{
    lemma_last_dot(name);
    if has_extension(name) {
        assert(name =~= stem(name) + seq!['.'] + extension(name)->0);
    }
}

/// The place of the dot before the extension, if there is one.
fn find_dot(chars: &Vec<char>) -> (res: Option<usize>)
    ensures
        match res {
            Some(at) => has_extension(chars@) && at == last_dot(chars@) && 0 < at < chars@.len(),
            None => !has_extension(chars@),
        },
{
    if chars.len() == 2 && chars[0] == '.' && chars[1] == '.' {
        assert(chars@ =~= seq!['.', '.']);
        return None;
    }
    let mut i: usize = chars.len();
    assert(chars@.take(chars@.len() as int) =~= chars@);
    while i > 1
        invariant
            i <= chars@.len(),
            !(chars@ =~= seq!['.', '.']),
            last_dot(chars@) == last_dot(chars@.take(i as int)),
        decreases i,
    {
        assert(chars@.take(i as int).drop_last() =~= chars@.take(i - 1));
        if chars[i - 1] == '.' {
            return Some(i - 1);
        }
        i = i - 1;
    }
    proof {
        lemma_last_dot(chars@.take(i as int));
    }
    None
}

/// The extension of a file name.
pub fn file_extension(name: &str) -> (res: Option<String>)
    ensures
        match (extension(name@), res) {
            (Some(ext), Some(text)) => text@ == ext,
            (None, None) => true,
            _ => false,
        },
{
    let chars = strings::to_chars(name);
    match find_dot(&chars) {
        Some(at) => {
            let text = strings::from_range(&chars, at + 1, chars.len());
            assert(text@ =~= name@.skip(at + 1));
            Some(text)
        },
        None => None,
    }
}

/// A file name without its extension.
pub fn file_stem(name: &str) -> (res: String)
    ensures
        res@ == stem(name@),
{
    let chars = strings::to_chars(name);
    match find_dot(&chars) {
        Some(at) => {
            let text = strings::from_range(&chars, 0, at);
            assert(text@ =~= name@.take(at as int));
            text
        },
        None => strings::copy(name),
    }
}

/// Where the PDF file of a document lies, seen from the directory that it is converted in.
#[derive(Debug, Clone)]
pub enum PdfFile {
    /// In the directory, under a name.
    Inside(String),
    /// Beside the directory, under the directory's name with the extension of a PDF file.
    Beside,
    /// Where the directory itself lies.
    Above,
}

/// Whether a name is that of no file.
pub open spec fn names_no_file(name: Seq<char>) -> bool {
    name.len() == 0 || name =~= seq!['.'] || name =~= seq!['.', '.']
}

/// Whether `file` is where the PDF file of a document lies: the extension of the document's name
/// is left off, and one more is replaced. A document without a name is taken for one named
/// `converted`. What is left of the name may be the directory itself or the one above it.
pub open spec fn is_pdf_file(file: PdfFile, name: Seq<char>) -> bool {
    if names_no_file(name) {
        file matches PdfFile::Inside(pdf) && pdf@ == "converted.pdf"@
    } else if stem(name) =~= seq!['.'] {
        file == PdfFile::Beside
    } else if stem(name) =~= seq!['.', '.'] {
        file == PdfFile::Above
    } else {
        file matches PdfFile::Inside(pdf) && pdf@ == stem(stem(name)) + ".pdf"@
    }
}

/// Where the PDF file lies that a document is converted to.
pub fn pdf_name(name: &str) -> (res: PdfFile)
    ensures
        is_pdf_file(res, name@),
{
    proof {
        reveal_strlit(".");
        reveal_strlit("..");
        assert("."@ =~= seq!['.']);
        assert(".."@ =~= seq!['.', '.']);
    }
    if name.is_empty() || strings::same(name, ".") || strings::same(name, "..") {
        return PdfFile::Inside(strings::copy("converted.pdf"));
    }
    let once = file_stem(name);
    if strings::same(once.as_str(), ".") {
        return PdfFile::Beside;
    }
    if strings::same(once.as_str(), "..") {
        return PdfFile::Above;
    }
    let mut res = file_stem(once.as_str());
    res.append(".pdf");
    PdfFile::Inside(res)
}

} // verus!
