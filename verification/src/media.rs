//! The media of an imported deck: which files are kept, and where.

use vstd::prelude::*;
use crate::db;
use crate::db::IdCounter;
use crate::deck::ImportError;
use crate::json;
use crate::models::ImportedMedia;
use crate::paths;
use crate::strings;

verus! {

/// What the record of a media file says.
#[verifier::ext_equal]
pub struct MediaView {
    pub id: i64,
    pub import_id: i64,
    pub media_name: Seq<char>,
    pub extracted_path: Seq<char>,
}

impl View for ImportedMedia {
    type V = MediaView;

    open spec fn view(&self) -> MediaView {
        MediaView {
            id: self.id,
            import_id: self.import_id,
            media_name: self.media_name@,
            extracted_path: self.extracted_path@,
        }
    }
}

/// What the records of media files say.
pub open spec fn media_views(media: Seq<ImportedMedia>) -> Seq<MediaView> {
    Seq::new(media.len(), |i: int| media[i]@)
}

/// Whether the archive holds the file of an entry.
pub open spec fn is_present(present: Seq<bool>, i: int) -> bool {
    0 <= i < present.len() && present[i]
}

/// The record of a media file: an id, its name, and its path under the directory of the media.
pub open spec fn media_record(
    import_id: i64,
    media_dir: Seq<char>,
    media_name: Seq<char>,
    path: Seq<char>,
    id: i64,
) -> MediaView {
    MediaView { id, import_id, media_name, extracted_path: media_dir + "/"@ + path }
}

/// The records of the media files that the archive holds, in order, with ids from `start` on. The
/// entries are gone through one by one, and the first that would be read or written outside its
/// directory stops the import, with the message; where the archive does not hold the file, only
/// the name in the archive is looked at.
pub open spec fn media_of(
    import_id: i64,
    media_dir: Seq<char>,
    entries: Seq<(Seq<char>, Seq<char>)>,
    present: Seq<bool>,
    start: i64,
) -> Result<Seq<MediaView>, Seq<char>>
    decreases entries.len(),
{
    if entries.len() == 0 {
        Ok(Seq::empty())
    } else {
        let (archive_name, media_name) = entries.last();
        match media_of(import_id, media_dir, entries.drop_last(), present, start) {
            Err(message) => Err(message),
            Ok(front) => match paths::safe_path(archive_name) {
                Err(e) => Err(e.text(archive_name)),
                Ok(_) => if !is_present(present, entries.len() - 1) {
                    Ok(front)
                } else {
                    match paths::safe_path(media_name) {
                        Err(e) => Err(e.text(media_name)),
                        Ok(path) => Ok(
                            front.push(
                                media_record(
                                    import_id,
                                    media_dir,
                                    media_name,
                                    path,
                                    db::id_after(start, front.len() as int),
                                ),
                            ),
                        ),
                    }
                },
            },
        }
    }
}

proof fn lemma_media_stops(
    import_id: i64,
    media_dir: Seq<char>,
    entries: Seq<(Seq<char>, Seq<char>)>,
    present: Seq<bool>,
    start: i64,
    n: int,
)
    requires
        0 <= n <= entries.len(),
        media_of(import_id, media_dir, entries.take(n), present, start) is Err,
    ensures
        media_of(import_id, media_dir, entries, present, start) == media_of(
            import_id,
            media_dir,
            entries.take(n),
            present,
            start,
        ),
    decreases entries.len(),
{
    if n == entries.len() {
        assert(entries.take(n) =~= entries);
    } else {
        assert(entries.drop_last().take(n) =~= entries.take(n));
        lemma_media_stops(import_id, media_dir, entries.drop_last(), present, start, n);
    }
}

/// Records the media files of a package that the archive holds, each with an id of its own. Ids
/// are drawn only where no entry stops the import.
pub fn index_media(
    import_id: i64,
    media_dir: &str,
    entries: &Vec<(String, String)>,
    present: &Vec<bool>,
    ids: &mut IdCounter,
) -> (res: Result<Vec<ImportedMedia>, ImportError>)
    ensures
        match (
            media_of(
                import_id,
                media_dir@,
                json::pair_texts(entries@),
                present@,
                old(ids).next,
            ),
            res,
        ) {
            (Ok(views), Ok(media)) => media_views(media@) == views && final(ids).next
                == db::id_after(old(ids).next, views.len() as int),
            (Err(message), Err(ImportError::Media(text))) => text@ == message && *final(ids)
                == *old(ids),
            _ => false,
        },
{
    let ghost all = json::pair_texts(entries@);
    let ghost start = ids.next;
    let first: i64 = ids.next;
    let mut res: Vec<ImportedMedia> = Vec::new();
    assert(media_views(res@) =~= Seq::<MediaView>::empty());
    proof {
        db::lemma_id_after(start, 0);
    }
    for i in 0..entries.len()
        invariant
            all == json::pair_texts(entries@),
            first == start,
            *old(ids) == (IdCounter { next: start }),
            ids.next == db::id_after(start, res@.len() as int),
            media_of(import_id, media_dir@, all.take(i as int), present@, start) == Ok::<
                Seq<MediaView>,
                Seq<char>,
            >(media_views(res@)),
    {
        let ghost upto = all.take(i + 1);
        assert(upto.drop_last() =~= all.take(i as int));
        let archive_name = entries[i].0.as_str();
        let media_name = entries[i].1.as_str();
        assert(upto.last() == (archive_name@, media_name@));
        if let Err(e) = paths::safe_relative_path(archive_name) {
            ids.next = first;
            proof {
                lemma_media_stops(import_id, media_dir@, all, present@, start, i + 1);
            }
            return Err(ImportError::Media(e.message(archive_name)));
        }
        if i < present.len() && present[i] {
            match paths::safe_relative_path(media_name) {
                Err(e) => {
                    ids.next = first;
                    proof {
                        lemma_media_stops(import_id, media_dir@, all, present@, start, i + 1);
                    }
                    return Err(ImportError::Media(e.message(media_name)));
                },
                Ok(path) => {
                    proof {
                        db::lemma_id_after(start, res@.len() as int);
                    }
                    let mut extracted_path = strings::copy(media_dir);
                    extracted_path.append("/");
                    extracted_path.append(path.as_str());
                    let record = ImportedMedia {
                        id: ids.next_id(),
                        import_id,
                        media_name: strings::copy(media_name),
                        extracted_path,
                    };
                    let ghost before = media_views(res@);
                    let ghost view = record@;
                    res.push(record);
                    assert(media_views(res@) =~= before.push(view));
                },
            }
        }
    }
    assert(all.take(all.len() as int) =~= all);
    Ok(res)
}

/// The media of a deck are recorded: where an import goes through, every entry whose file the
/// archive holds has a record of that deck with the name of the file, under the directory of the
/// media.
pub proof fn law_media_are_recorded(
    import_id: i64,
    media_dir: Seq<char>,
    entries: Seq<(Seq<char>, Seq<char>)>,
    present: Seq<bool>,
    start: i64,
    i: int,
)
    requires
        0 <= i < entries.len(),
        is_present(present, i),
    ensures
        media_of(import_id, media_dir, entries, present, start) matches Ok(views) ==> exists|
            k: int,
        |
            0 <= k < views.len() && (#[trigger] views[k]).import_id == import_id
                && views[k].media_name == entries[i].1 && (match paths::safe_path(entries[i].1) {
                Ok(path) => views[k].extracted_path == media_dir + "/"@ + path,
                Err(_) => false,
            }),
    decreases entries.len(),
{
    if let Ok(views) = media_of(import_id, media_dir, entries, present, start) {
        let front = media_of(import_id, media_dir, entries.drop_last(), present, start)->Ok_0;
        if i < entries.len() - 1 {
            law_media_are_recorded(
                import_id,
                media_dir,
                entries.drop_last(),
                present,
                start,
                i,
            );
            assert(entries.drop_last()[i] == entries[i]);
            let k = choose|k: int|
                0 <= k < front.len() && (#[trigger] front[k]).import_id == import_id
                    && front[k].media_name == entries[i].1 && (match paths::safe_path(
                    entries[i].1,
                ) {
                    Ok(path) => front[k].extracted_path == media_dir + "/"@ + path,
                    Err(_) => false,
                });
            assert(views[k] == front[k]);
        } else {
            assert(views[views.len() - 1].media_name == entries[i].1);
        }
    }
}

} // verus!
