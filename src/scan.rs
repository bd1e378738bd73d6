//! Listing the images of one folder level, ordered by name without regard
//! to case.

use vstd::prelude::*;
use vstd::set_lib::{lemma_int_range, lemma_subset_equality, set_int_range};
use crate::text::{
    chars_less, chars_lt, chars_of, decimal, lemma_chars_lt_asymmetric, lemma_chars_lt_total,
    lemma_chars_lt_transitive, lower_of, lowercase, push_decimal,
};

verus! {

/// One image file found by a scan. `tags` and `description` start empty;
/// filling them is left to the caller.
pub struct ImageInfo {
    pub id: String,
    pub path: String,
    pub name: String,
    pub tags: Vec<String>,
    pub description: String,
}

/// An image record as a value: each text as its characters.
pub struct ImageView {
    pub id: Seq<char>,
    pub path: Seq<char>,
    pub name: Seq<char>,
    pub tags: Seq<Seq<char>>,
    pub description: Seq<char>,
}

impl View for ImageInfo {
    type V = ImageView;

    open spec fn view(&self) -> ImageView {
        ImageView {
            id: self.id@,
            path: self.path@,
            name: self.name@,
            tags: self.tags@.map_values(|t: String| t@),
            description: self.description@,
        }
    }
}

/// The records of `s` as values.
pub open spec fn views(s: Seq<ImageInfo>) -> Seq<ImageView> {
    s.map_values(|x: ImageInfo| x@)
}

/// Position of the last `.` in `s`, or -1 where there is none.
pub open spec fn last_dot(s: Seq<char>) -> int
    decreases s.len(),
{
    if s.len() == 0 {
        -1
    } else if s.last() == '.' {
        s.len() - 1
    } else {
        last_dot(s.drop_last())
    }
}

/// The extension of a file name, as `Path::extension` finds it: what follows
/// the last `.`, unless there is no `.` or the only one opens the name.
pub open spec fn extension_of(name: Seq<char>) -> Option<Seq<char>> {
    let p = last_dot(name);
    if p <= 0 {
        None
    } else {
        Some(name.subrange(p + 1, name.len() as int))
    }
}

/// The lower-case extensions of the image formats that a scan keeps.
pub open spec fn is_image_ext(e: Seq<char>) -> bool {
    ||| e == "jpg"@
    ||| e == "jpeg"@
    ||| e == "png"@
    ||| e == "gif"@
    ||| e == "webp"@
    ||| e == "bmp"@
    ||| e == "tiff"@
    ||| e == "tif"@
    ||| e == "svg"@
}

/// The extension of `name`, where it has one.
pub fn extension(name: &str) -> (r: Option<&str>)
    ensures
        r matches Some(e) ==> extension_of(name@) == Some(e@),
        r is None ==> extension_of(name@) is None,
{
    let c = chars_of(name);
    let mut i: usize = c.len();
    assert(c@.subrange(0, i as int) =~= c@);
    while i > 0 && c[i - 1] != '.'
        invariant
            i <= c.len(),
            c@ == name@,
            last_dot(name@) == last_dot(c@.subrange(0, i as int)),
        decreases i,
    {
        assert(c@.subrange(0, i as int).drop_last() =~= c@.subrange(0, i - 1));
        i = i - 1;
    }
    if i == 0 {
        assert(c@.subrange(0, 0).len() == 0);
        None
    } else {
        assert(c@.subrange(0, i as int).last() == '.');
        if i == 1 {
            None
        } else {
            Some(name.substring_char(i, c.len()))
        }
    }
}

/// Whether `lowered`, an extension already in lower case, is one of the
/// image formats that a scan keeps.
pub fn is_image_extension(lowered: &str) -> (r: bool)
    ensures
        r == is_image_ext(lowered@),
{
    let e = String::from_str(lowered);
    e == String::from_str("jpg") || e == String::from_str("jpeg") || e == String::from_str("png")
        || e == String::from_str("gif") || e == String::from_str("webp") || e == String::from_str(
        "bmp",
    ) || e == String::from_str("tiff") || e == String::from_str("tif") || e == String::from_str(
        "svg",
    )
}


/// Whether the item with key `ka` at position `pa` goes before the one with
/// key `kb` at position `pb`: by key, and by position between equal keys.
pub open spec fn key_before(ka: Seq<char>, pa: int, kb: Seq<char>, pb: int) -> bool {
    chars_lt(ka, kb) || (ka == kb && pa < pb)
}

/// `r` is `imgs` rearranged by the permutation `p` (`r[i]` is `imgs[p[i]]`),
/// so that the keys ascend and items of equal key keep their order.
pub open spec fn orders_by(
    r: Seq<ImageView>,
    keys: Seq<Seq<char>>,
    imgs: Seq<ImageView>,
    p: Seq<int>,
) -> bool {
    &&& r.len() == imgs.len()
    &&& p.len() == imgs.len()
    &&& forall|i: int|
        0 <= i < p.len() ==> 0 <= #[trigger] p[i] < imgs.len() && r[i] == imgs[p[i]]
    &&& forall|i: int, j: int|
        #![trigger p[i], p[j]]
        0 <= i < j < p.len() ==> key_before(keys[p[i]], p[i], keys[p[j]], p[j])
}

/// `r` is the stable sort of `imgs` by `keys`.
pub open spec fn is_stable_sort(r: Seq<ImageView>, keys: Seq<Seq<char>>, imgs: Seq<ImageView>) -> bool {
    exists|p: Seq<int>| orders_by(r, keys, imgs, p)
}

/// The keys of keyed images, as character sequences.
pub open spec fn keys_of(items: Seq<(Vec<char>, ImageInfo)>) -> Seq<Seq<char>> {
    items.map_values(|e: (Vec<char>, ImageInfo)| e.0@)
}

/// The images of keyed images, as values.
pub open spec fn images_of(items: Seq<(Vec<char>, ImageInfo)>) -> Seq<ImageView> {
    items.map_values(|e: (Vec<char>, ImageInfo)| e.1@)
}

/// The images of `items` sorted by their keys, stably: of two images with
/// equal keys, the one that came first stays first.
pub fn order_images(items: Vec<(Vec<char>, ImageInfo)>) -> (r: Vec<ImageInfo>)
    ensures
        is_stable_sort(views(r@), keys_of(items@), images_of(items@)),
{
    let ghost orig = items@;
    let ghost keys = keys_of(items@);
    let ghost imgs = images_of(items@);
    let ghost n = items.len() as int;
    let mut rest = items;
    let mut rk: Vec<Vec<char>> = Vec::new();
    let mut ri: Vec<ImageInfo> = Vec::new();
    let ghost mut p: Seq<int> = Seq::empty();
    while rest.len() > 0
        invariant
            n == orig.len(),
            keys == keys_of(orig),
            imgs == images_of(orig),
            rest@ == orig.subrange(0, rest.len() as int),
            rk.len() == p.len(),
            ri.len() == p.len(),
            p.len() == n - rest.len(),
            forall|i: int|
                0 <= i < p.len() ==> rest.len() <= #[trigger] p[i] < n && ri@[i]@ == imgs[p[i]]
                    && rk@[i]@ == keys[p[i]],
            forall|i: int, j: int|
                #![trigger p[i], p[j]]
                0 <= i < j < p.len() ==> key_before(keys[p[i]], p[i], keys[p[j]], p[j]),
        decreases rest.len(),
    {
        let ghost k = rest.len() - 1;
        let (key, image) = rest.pop().unwrap();
        assert(rest@ =~= orig.subrange(0, k));
        assert(key@ == keys[k] && image@ == imgs[k]);
        let mut pos: usize = 0;
        while pos < rk.len() && chars_less(&rk[pos], &key)
            invariant
                pos <= rk.len(),
                forall|i: int| 0 <= i < pos ==> chars_lt(#[trigger] rk@[i]@, key@),
            decreases rk.len() - pos,
        {
            pos = pos + 1;
        }
        proof {
            if pos < rk.len() {
                lemma_chars_lt_total(rk@[pos as int]@, key@);
                assert forall|i: int| pos <= i < p.len() implies key_before(
                    key@,
                    k,
                    keys[#[trigger] p[i]],
                    p[i],
                ) by {
                    if i > pos {
                        assert(key_before(keys[p[pos as int]], p[pos as int], keys[p[i]], p[i]));
                        if chars_lt(key@, keys[p[pos as int]]) && chars_lt(
                            keys[p[pos as int]],
                            keys[p[i]],
                        ) {
                            lemma_chars_lt_transitive(key@, keys[p[pos as int]], keys[p[i]]);
                        }
                    }
                }
            }
        }
        rk.insert(pos, key);
        ri.insert(pos, image);
        proof {
            let old_p = p;
            p = p.insert(pos as int, k);
            assert forall|i: int, j: int|
                #![trigger p[i], p[j]]
                0 <= i < j < p.len() implies key_before(keys[p[i]], p[i], keys[p[j]], p[j]) by {
                if i < pos && j > pos {
                    assert(key_before(keys[old_p[i]], old_p[i], keys[k], k));
                } else if i < pos && j == pos {
                    assert(chars_lt(rk@[i]@, key@));
                } else if i > pos {
                    assert(key_before(keys[old_p[i - 1]], old_p[i - 1], keys[old_p[j - 1]], old_p[j - 1]));
                }
            }
        }
    }
    proof {
        assert(orders_by(views(ri@), keys, imgs, p));
    }
    ri
}


/// One entry of a folder listing, as read from the file system.
pub struct RawEntry {
    /// The full path of the entry.
    pub path: String,
    /// Its base name.
    pub name: String,
    /// Whether it is a regular file.
    pub is_file: bool,
}

/// What a folder path names.
pub enum PathKind {
    Missing,
    NotDirectory,
    Directory,
}

pub enum ScanError {
    NotFound,
    NotADirectory,
    /// The folder could not be listed; the message says why.
    Io(String),
}

/// The sentence that reports a scan error.
pub open spec fn scan_error_text(e: ScanError) -> Seq<char> {
    match e {
        ScanError::NotFound => "Folder does not exist"@,
        ScanError::NotADirectory => "Path is not a directory"@,
        ScanError::Io(m) => "Failed to read directory: "@ + m@,
    }
}

impl ScanError {
    /// The error as a sentence for the user.
    pub fn message(&self) -> (r: String)
        ensures
            r@ == scan_error_text(*self),
    {
        match self {
            ScanError::NotFound => String::from_str("Folder does not exist"),
            ScanError::NotADirectory => String::from_str("Path is not a directory"),
            ScanError::Io(m) => {
                let mut r = String::from_str("Failed to read directory: ");
                r.append(m.as_str());
                r
            },
        }
    }
}

/// Whether a scan keeps this entry of a listing (`None` stands for an entry
/// that could not be read).
pub open spec fn is_image_entry(e: Option<RawEntry>) -> bool {
    match e {
        Some(x) => x.is_file && match extension_of(x.name@) {
            Some(ext) => is_image_ext(lower_of(ext)),
            None => false,
        },
        None => false,
    }
}

/// The record made for entry `e` at position `i` of the listing.
pub open spec fn record_of(e: RawEntry, i: int) -> ImageView {
    ImageView {
        id: "img_"@ + decimal(i as nat),
        path: e.path@,
        name: e.name@,
        tags: Seq::empty(),
        description: Seq::empty(),
    }
}

/// The records of the entries a scan keeps, in listing order.
pub open spec fn kept_records(l: Seq<Option<RawEntry>>) -> Seq<ImageView>
    decreases l.len(),
{
    if l.len() == 0 {
        Seq::empty()
    } else {
        let prev = kept_records(l.drop_last());
        if is_image_entry(l.last()) {
            prev.push(record_of(l.last()->0, l.len() - 1))
        } else {
            prev
        }
    }
}

proof fn lemma_kept_records_blank(l: Seq<Option<RawEntry>>)
    ensures
        forall|i: int|
            0 <= i < kept_records(l).len() ==> (#[trigger] kept_records(l)[i]).tags.len() == 0
                && kept_records(l)[i].description.len() == 0,
    decreases l.len(),
{
    if l.len() > 0 {
        let prev = kept_records(l.drop_last());
        lemma_kept_records_blank(l.drop_last());
        if is_image_entry(l.last()) {
            let rec = record_of(l.last()->0, l.len() - 1);
            assert(kept_records(l) == prev.push(rec));
            assert forall|i: int| 0 <= i < kept_records(l).len() implies (
            #[trigger] kept_records(l)[i]).tags.len() == 0 && kept_records(l)[i].description.len()
                == 0 by {
                if i < prev.len() {
                    assert(kept_records(l)[i] == prev[i]);
                }
            }
        }
    }
}

/// The key that orders records: the name in lower case.
pub open spec fn name_keys(r: Seq<ImageView>) -> Seq<Seq<char>> {
    r.map_values(|x: ImageView| lower_of(x.name))
}

/// The records of the image files of a listing, ordered by name without
/// regard to case. Each id is `img_` and the entry's position in the
/// listing; tags and description are empty.
pub fn images_from_listing(listing: &Vec<Option<RawEntry>>) -> (r: Vec<ImageInfo>)
    ensures
        is_stable_sort(views(r@), name_keys(kept_records(listing@)), kept_records(listing@)),
        forall|i: int|
            0 <= i < r.len() ==> (#[trigger] r@[i]).tags.len() == 0 && r@[i].description@.len()
                == 0,
{
    let mut keyed: Vec<(Vec<char>, ImageInfo)> = Vec::new();
    for i in 0..listing.len()
        invariant
            keys_of(keyed@) =~= name_keys(kept_records(listing@.subrange(0, i as int))),
            images_of(keyed@) =~= kept_records(listing@.subrange(0, i as int)),
            forall|j: int|
                0 <= j < keyed.len() ==> (#[trigger] keyed@[j]).1.tags.len() == 0
                    && keyed@[j].1.description@.len() == 0,
    {
        assert(listing@.subrange(0, i + 1).drop_last() =~= listing@.subrange(0, i as int));
        if let Some(e) = &listing[i] {
            if e.is_file {
                if let Some(ext) = extension(e.name.as_str()) {
                    let lowered = lowercase(ext);
                    if is_image_extension(lowered.as_str()) {
                        let mut id = String::from_str("img_");
                        push_decimal(&mut id, i);
                        let info = ImageInfo {
                            id,
                            path: e.path.clone(),
                            name: e.name.clone(),
                            tags: Vec::new(),
                            description: String::new(),
                        };
                        let key_text = lowercase(e.name.as_str());
                        let key = chars_of(key_text.as_str());
                        assert(info@.tags =~= Seq::<Seq<char>>::empty());
                        let ghost old_keyed = keyed@;
                        keyed.push((key, info));
                        proof {
                            let sub = listing@.subrange(0, i + 1);
                            assert(sub.last() == listing@[i as int]);
                            assert(is_image_entry(sub.last()));
                            assert(info@ == record_of(sub.last()->0, i as int));
                            assert(keys_of(keyed@) =~= keys_of(old_keyed).push(key@));
                            assert(images_of(keyed@) =~= images_of(old_keyed).push(info@));
                        }
                    }
                }
            }
        }
    }
    assert(listing@.subrange(0, listing.len() as int) =~= listing@);
    let r = order_images(keyed);
    proof {
        let kept = kept_records(listing@);
        let p = choose|p: Seq<int>| orders_by(views(r@), name_keys(kept), kept, p);
        assert forall|i: int| 0 <= i < r.len() implies (#[trigger] r@[i]).tags.len() == 0
            && r@[i].description@.len() == 0 by {
            lemma_kept_records_blank(listing@);
            assert(views(r@)[i] == kept[p[i]]);
        }
    }
    r
}

/// A scan of a folder: `kind` is what its path names, and `listing` what
/// listing it gave (read only where it is a folder).
pub fn scan_folder(kind: PathKind, listing: Result<Vec<Option<RawEntry>>, String>) -> (r: Result<
    Vec<ImageInfo>,
    ScanError,
>)
    ensures
        kind is Missing ==> r matches Err(ScanError::NotFound),
        kind is NotDirectory ==> r matches Err(ScanError::NotADirectory),
        kind is Directory ==> match listing {
            Err(m) => r matches Err(ScanError::Io(e)) && e@ == m@,
            Ok(l) => r matches Ok(v) && is_stable_sort(
                views(v@),
                name_keys(kept_records(l@)),
                kept_records(l@),
            ) && forall|i: int|
                0 <= i < v.len() ==> (#[trigger] v@[i]).tags.len() == 0
                    && v@[i].description@.len() == 0,
        },
{
    match kind {
        PathKind::Missing => Err(ScanError::NotFound),
        PathKind::NotDirectory => Err(ScanError::NotADirectory),
        PathKind::Directory => match listing {
            Err(m) => Err(ScanError::Io(m)),
            Ok(l) => Ok(images_from_listing(&l)),
        },
    }
}


/// Whether `x` is the record of an image file of the listing `l`.
pub open spec fn is_listed_image(l: Seq<Option<RawEntry>>, x: ImageView) -> bool {
    exists|j: int| 0 <= j < l.len() && is_image_entry(l[j]) && x == record_of(l[j]->0, j)
}

proof fn lemma_kept_records_members(l: Seq<Option<RawEntry>>)
    ensures
        forall|m: int|
            0 <= m < kept_records(l).len() ==> is_listed_image(l, #[trigger] kept_records(l)[m]),
        forall|j: int|
            0 <= j < l.len() && is_image_entry(#[trigger] l[j]) ==> exists|m: int|
                0 <= m < kept_records(l).len() && kept_records(l)[m] == record_of(l[j]->0, j),
    decreases l.len(),
{
    if l.len() > 0 {
        let init = l.drop_last();
        let prev = kept_records(init);
        lemma_kept_records_members(init);
        let kept = kept_records(l);
        assert forall|m: int| 0 <= m < kept.len() implies is_listed_image(l, #[trigger] kept[m]) by {
            if m < prev.len() {
                assert(is_listed_image(init, prev[m]));
                let j = choose|j: int|
                    0 <= j < init.len() && is_image_entry(init[j]) && prev[m] == record_of(
                        init[j]->0,
                        j,
                    );
                assert(l[j] == init[j]);
                assert(kept[m] == prev[m]);
                assert(0 <= j < l.len() && is_image_entry(l[j]) && kept[m] == record_of(l[j]->0, j));
            } else {
                let j = l.len() - 1;
                assert(l[j] == l.last());
                assert(is_image_entry(l.last()));
                assert(0 <= j < l.len() && is_image_entry(l[j]) && kept[m] == record_of(l[j]->0, j));
            }
        }
        assert forall|j: int| 0 <= j < l.len() && is_image_entry(#[trigger] l[j]) implies exists|
            m: int,
        | 0 <= m < kept.len() && kept[m] == record_of(l[j]->0, j) by {
            if j < l.len() - 1 {
                assert(init[j] == l[j]);
                let m = choose|m: int|
                    0 <= m < prev.len() && prev[m] == record_of(init[j]->0, j);
                assert(kept[m] == prev[m]);
            } else {
                assert(kept[prev.len() as int] == record_of(l[j]->0, j));
            }
        }
    }
}

/// A scan's result holds the record of every image file of the listing and
/// nothing else, ordered by name without regard to case.
pub proof fn lemma_scan_keeps_exactly_images(l: Seq<Option<RawEntry>>, r: Seq<ImageView>)
    requires
        is_stable_sort(r, name_keys(kept_records(l)), kept_records(l)),
    ensures
        forall|i: int| 0 <= i < r.len() ==> is_listed_image(l, #[trigger] r[i]),
        forall|j: int|
            0 <= j < l.len() && is_image_entry(#[trigger] l[j]) ==> exists|i: int|
                0 <= i < r.len() && r[i] == record_of(l[j]->0, j),
        forall|i: int, k: int|
            0 <= i < k < r.len() ==> !chars_lt(lower_of(#[trigger] r[k].name), lower_of(#[trigger] r[i].name)),
{
    let kept = kept_records(l);
    let keys = name_keys(kept);
    let p = choose|p: Seq<int>| orders_by(r, keys, kept, p);
    let n = kept.len() as int;
    lemma_kept_records_members(l);
    assert forall|i: int, k: int| 0 <= i < k < r.len() implies !chars_lt(
        lower_of(#[trigger] r[k].name),
        lower_of(#[trigger] r[i].name),
    ) by {
        assert(key_before(keys[p[i]], p[i], keys[p[k]], p[k]));
        lemma_chars_lt_asymmetric(keys[p[i]], keys[p[k]]);
        lemma_chars_lt_asymmetric(keys[p[k]], keys[p[i]]);
    }
    assert forall|i: int| 0 <= i < r.len() implies is_listed_image(l, #[trigger] r[i]) by {
        assert(r[i] == kept[p[i]]);
        let m = p[i];
        assert(0 <= m < kept.len());
        let j = choose|j: int|
            0 <= j < l.len() && is_image_entry(l[j]) && (#[trigger] kept_records(l)[m]) == record_of(
                l[j]->0,
                j,
            );
        assert(0 <= j < l.len() && is_image_entry(l[j]) && r[i] == record_of(l[j]->0, j));
    }
    assert(p.no_duplicates()) by {
        assert forall|i: int, k: int| 0 <= i < p.len() && 0 <= k < p.len() && i != k implies p[i]
            != p[k] by {
            if i < k {
                assert(key_before(keys[p[i]], p[i], keys[p[k]], p[k]));
                lemma_chars_lt_asymmetric(keys[p[i]], keys[p[k]]);
            } else {
                assert(key_before(keys[p[k]], p[k], keys[p[i]], p[i]));
                lemma_chars_lt_asymmetric(keys[p[k]], keys[p[i]]);
            }
        }
    }
    p.unique_seq_to_set();
    lemma_int_range(0, n);
    assert(p.to_set().subset_of(set_int_range(0, n)));
    lemma_subset_equality(p.to_set(), set_int_range(0, n));
    assert forall|j: int| 0 <= j < l.len() && is_image_entry(#[trigger] l[j]) implies exists|i: int|
        0 <= i < r.len() && r[i] == record_of(l[j]->0, j) by {
        let m = choose|m: int| 0 <= m < kept.len() && kept[m] == record_of(l[j]->0, j);
        assert(set_int_range(0, n).contains(m));
        assert(p.to_set().contains(m));
        let i = choose|i: int| 0 <= i < p.len() && p[i] == m;
        assert(r[i] == kept[m]);
    }
}

} // verus!
