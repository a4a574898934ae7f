//! The catalog store: image records, the search-text index keyed by
//! image identity, and the registered sync folders, with every
//! operation specified as a transition on a mathematical model.

use vstd::prelude::*;

use crate::models::{
    folder_views, image_views, opt_view, sync_file_views, FolderModel, Image, ImageModel,
    SyncFile, SyncFileModel, SyncFolder, VaultError,
};
use crate::order::{sort_dedup, strictly_sorted};
use crate::query::{entry_matches, matches_query, matches_some_token, normalize_query, query_tokens};
use crate::text::{
    contains_token, is_white, lemma_concat_to_set, lemma_tokens_sep, lemma_tokens_single,
    token_set, tokenize, tokens, trim_spec, trim_str, views,
};
use std::collections::HashMap;

verus! {

/// The mathematical state of a catalog: the image records in storage
/// order, the search-text field per identity, the registered sync
/// folders, and the next free identity of each table.
#[verifier::ext_equal]
pub struct CatalogModel {
    pub images: Seq<ImageModel>,
    pub search: Map<i64, Seq<char>>,
    pub folders: Seq<FolderModel>,
    pub next_id: i64,
    pub next_folder_id: i64,
}

/// Well-formedness: identities are unique, positive, and below the
/// next free one; registered folder paths are unique.
pub open spec fn wf(m: CatalogModel) -> bool {
    &&& forall|i: int, j: int|
        0 <= i < j < m.images.len() ==> m.images[i].id != m.images[j].id
    &&& forall|i: int| 0 <= i < m.images.len() ==> 1 <= #[trigger] m.images[i].id < m.next_id
    &&& m.next_id >= 1
    &&& forall|i: int, j: int|
        0 <= i < j < m.folders.len() ==> m.folders[i].path != m.folders[j].path
    &&& forall|i: int|
        0 <= i < m.folders.len() ==> 1 <= #[trigger] m.folders[i].id < m.next_folder_id
    &&& m.next_folder_id >= 1
}

/// The empty catalog.
pub open spec fn empty_model() -> CatalogModel {
    CatalogModel {
        images: Seq::empty(),
        search: Map::empty(),
        folders: Seq::empty(),
        next_id: 1,
        next_folder_id: 1,
    }
}

/// Whether some image record carries this identity.
pub open spec fn has_image(m: CatalogModel, id: i64) -> bool {
    exists|i: int| 0 <= i < m.images.len() && m.images[i].id == id
}

/// The position of the record with this identity (meaningful only
/// where [`has_image`] holds; under well-formedness it is unique).
pub open spec fn image_index(m: CatalogModel, id: i64) -> int {
    choose|i: int| 0 <= i < m.images.len() && m.images[i].id == id
}

/// Whether some image record carries this display filename.
pub open spec fn has_filename_m(m: CatalogModel, filename: Seq<char>) -> bool {
    exists|i: int| 0 <= i < m.images.len() && m.images[i].filename == filename
}

/// Creating an image record: the record is appended under the next
/// free identity, and the search-text field of that identity is set to
/// the extracted text, or to the empty string where extraction failed
/// — extraction failure never blocks cataloging.
pub open spec fn add_image_m(
    m: CatalogModel,
    filename: Seq<char>,
    path: Seq<char>,
    added_at: Seq<char>,
    ocr_text: Option<Seq<char>>,
) -> CatalogModel {
    CatalogModel {
        images: m.images.push(
            ImageModel { id: m.next_id, filename: filename, path: path, added_at: added_at },
        ),
        search: m.search.insert(
            m.next_id,
            match ocr_text {
                Some(t) => t,
                None => Seq::empty(),
            },
        ),
        next_id: (m.next_id + 1) as i64,
        ..m
    }
}

/// Deleting an image record: the record and the search-text entry of
/// its identity go together.
pub open spec fn delete_image_m(m: CatalogModel, id: i64) -> CatalogModel {
    CatalogModel {
        images: m.images.remove(image_index(m, id)),
        search: m.search.remove(id),
        ..m
    }
}

/// Restoring a record from storage: it keeps its identity, its entry
/// is put back as stored, and the next free identity moves past it.
pub open spec fn restore_m(
    m: CatalogModel,
    img: ImageModel,
    text: Option<Seq<char>>,
) -> CatalogModel {
    CatalogModel {
        images: m.images.push(img),
        search: match text {
            Some(t) => m.search.insert(img.id, t),
            None => m.search,
        },
        next_id: if img.id + 1 > m.next_id {
            (img.id + 1) as i64
        } else {
            m.next_id
        },
        ..m
    }
}

/// The search-text field stored for this identity; an absent entry
/// reads as the empty string.
pub open spec fn stored_text(m: CatalogModel, id: i64) -> Seq<char> {
    if m.search.dom().contains(id) {
        m.search[id]
    } else {
        Seq::empty()
    }
}

/// Appending a tag to a search-text field: set directly where the
/// field is empty, else separated by a single space.
pub open spec fn add_tag_text(cur: Seq<char>, trimmed: Seq<char>) -> Seq<char> {
    if cur.len() == 0 {
        trimmed
    } else {
        cur + seq![' '] + trimmed
    }
}

/// Adding a tag: a no-op where the tag trims to the empty string or
/// already occurs as a whitespace-delimited token of the stored field;
/// otherwise the trimmed tag is appended to the field (which an absent
/// entry reads as empty) and the field is stored under the identity —
/// whether or not an image record carries it.
pub open spec fn add_tag_m(m: CatalogModel, id: i64, tag: Seq<char>) -> CatalogModel {
    let trimmed = trim_spec(tag);
    if trimmed.len() == 0 {
        m
    } else {
        let cur = stored_text(m, id);
        if tokens(cur).contains(trimmed) {
            m
        } else {
            CatalogModel { search: m.search.insert(id, add_tag_text(cur, trimmed)), ..m }
        }
    }
}

/// Adding the same single-token tag twice is the same as adding it
/// once: the second call finds the token present and changes nothing.
pub proof fn lemma_add_tag_idempotent(m: CatalogModel, id: i64, tag: Seq<char>)
    requires
        forall|k: int| 0 <= k < trim_spec(tag).len() ==> !is_white(trim_spec(tag)[k]),
    ensures
        add_tag_m(add_tag_m(m, id, tag), id, tag) == add_tag_m(m, id, tag),
{
    let t = trim_spec(tag);
    if t.len() > 0 {
        let cur = stored_text(m, id);
        if !tokens(cur).contains(t) {
            let text1 = add_tag_text(cur, t);
            let m1 = add_tag_m(m, id, tag);
            assert(stored_text(m1, id) == text1);
            if cur.len() == 0 {
                lemma_tokens_single(t);
                assert(tokens(text1)[0] == t);
            } else {
                lemma_tokens_sep(cur, ' ', t);
                lemma_tokens_single(t);
                assert(tokens(text1) == tokens(cur) + seq![t]);
                assert(tokens(text1)[tokens(cur).len() as int] == t);
            }
            assert(tokens(stored_text(m1, id)).contains(t));
        }
    }
}

/// Whatever the tag — even one that splits into several tokens —
/// adding it twice leaves the same tag set as adding it once.
pub proof fn lemma_add_tag_token_set(m: CatalogModel, id: i64, tag: Seq<char>)
    ensures
        token_set(stored_text(add_tag_m(add_tag_m(m, id, tag), id, tag), id)) == token_set(
            stored_text(add_tag_m(m, id, tag), id),
        ),
{
    let t = trim_spec(tag);
    if t.len() == 0 {
        return ;
    }
    let cur = stored_text(m, id);
    let m1 = add_tag_m(m, id, tag);
    let cur1 = stored_text(m1, id);
    if !tokens(cur1).contains(t) {
        if tokens(cur).contains(t) {
            assert(cur1 == cur);
            assert(false);
        }
        assert(cur1 == add_tag_text(cur, t));
        assert(cur1.len() > 0);
        let text2 = add_tag_text(cur1, t);
        assert(text2 == cur1 + seq![' '] + t);
        assert(stored_text(add_tag_m(m1, id, tag), id) == text2);
        lemma_tokens_sep(cur1, ' ', t);
        lemma_concat_to_set(tokens(cur1), tokens(t));
        if cur.len() == 0 {
            assert(cur1 == t);
        } else {
            lemma_tokens_sep(cur, ' ', t);
            lemma_concat_to_set(tokens(cur), tokens(t));
        }
        assert(token_set(text2) =~= token_set(cur1));
    }
}

/// Removing a tag: the entry is deleted only where its entire stored
/// field equals the trimmed tag exactly — removing one tag out of
/// several stored together is deliberately a no-op, a documented sharp
/// edge of storing tags in one free-text field.
pub open spec fn remove_tag_m(m: CatalogModel, id: i64, tag: Seq<char>) -> CatalogModel {
    let trimmed = trim_spec(tag);
    if trimmed.len() == 0 {
        m
    } else if m.search.dom().contains(id) && m.search[id] == trimmed {
        CatalogModel { search: m.search.remove(id), ..m }
    } else {
        m
    }
}

/// Overwriting the search text after a fresh extraction: only an
/// existing entry is updated; the write discards any tags that shared
/// the field.
pub open spec fn set_text_m(m: CatalogModel, id: i64, text: Seq<char>) -> CatalogModel {
    if m.search.dom().contains(id) {
        CatalogModel { search: m.search.insert(id, text), ..m }
    } else {
        m
    }
}

/// One reconciliation step: a file whose name some record already
/// carries is skipped entirely; any other file is cataloged, with the
/// text its extraction produced.  The check is by filename, not by
/// path or content.
pub open spec fn sync_one_m(m: CatalogModel, f: SyncFileModel) -> CatalogModel {
    if has_filename_m(m, f.filename) {
        m
    } else {
        add_image_m(m, f.filename, f.path, f.added_at, f.ocr_text)
    }
}

/// A reconciliation pass over one directory listing, in order.
pub open spec fn sync_m(m: CatalogModel, fs: Seq<SyncFileModel>) -> CatalogModel
    decreases fs.len(),
{
    if fs.len() == 0 {
        m
    } else {
        sync_m(sync_one_m(m, fs[0]), fs.drop_first())
    }
}

/// A pass processes a listing front to back: one more file at the end
/// is one more step after the rest.
pub proof fn lemma_sync_snoc(m: CatalogModel, fs: Seq<SyncFileModel>, f: SyncFileModel)
    ensures
        sync_m(m, fs.push(f)) == sync_one_m(sync_m(m, fs), f),
    decreases fs.len(),
{
    reveal_with_fuel(sync_m, 3);
    if fs.len() == 0 {
        assert(fs.push(f)[0] == f);
        assert(fs.push(f).drop_first() =~= Seq::<SyncFileModel>::empty());
    } else {
        assert(fs.push(f)[0] == fs[0]);
        assert(fs.push(f).drop_first() =~= fs.drop_first().push(f));
        lemma_sync_snoc(sync_one_m(m, fs[0]), fs.drop_first(), f);
    }
}

/// A pass only appends records: what was cataloged stays, in place,
/// and the registered folders are never touched.
pub proof fn lemma_sync_extends(m: CatalogModel, fs: Seq<SyncFileModel>)
    ensures
        m.images.is_prefix_of(sync_m(m, fs).images),
        forall|n: Seq<char>| has_filename_m(m, n) ==> has_filename_m(sync_m(m, fs), n),
        sync_m(m, fs).folders == m.folders,
        sync_m(m, fs).next_folder_id == m.next_folder_id,
    decreases fs.len(),
{
    if fs.len() == 0 {
        assert(m.images.is_prefix_of(m.images)) by {
            assert(m.images =~= m.images.subrange(0, m.images.len() as int));
        }
    } else {
        let m1 = sync_one_m(m, fs[0]);
        lemma_sync_extends(m1, fs.drop_first());
        assert(m.images.is_prefix_of(m1.images)) by {
            if !has_filename_m(m, fs[0].filename) {
                assert(m.images =~= m1.images.subrange(0, m.images.len() as int));
            } else {
                assert(m.images =~= m.images.subrange(0, m.images.len() as int));
            }
        }
        assert forall|n: Seq<char>| has_filename_m(m, n) implies has_filename_m(m1, n) by {
            if has_filename_m(m, n) {
                let w = choose|i: int| 0 <= i < m.images.len() && m.images[i].filename == n;
                assert(m1.images[w].filename == n);
            }
        }
        let rest = sync_m(m1, fs.drop_first());
        assert(m.images.is_prefix_of(rest.images)) by {
            assert(m.images =~= rest.images.subrange(0, m.images.len() as int));
        }
    }
}

/// The next identity grows by at most one per file of the pass.
pub proof fn lemma_sync_next_id(m: CatalogModel, fs: Seq<SyncFileModel>)
    requires
        m.next_id + fs.len() <= i64::MAX,
    ensures
        m.next_id <= sync_m(m, fs).next_id <= m.next_id + fs.len(),
    decreases fs.len(),
{
    if fs.len() > 0 {
        lemma_sync_next_id(sync_one_m(m, fs[0]), fs.drop_first());
    }
}

/// After a pass, every file of the listing has its name in the
/// catalog.
pub proof fn lemma_sync_covers(m: CatalogModel, fs: Seq<SyncFileModel>)
    ensures
        forall|k: int|
            0 <= k < fs.len() ==> has_filename_m(sync_m(m, fs), #[trigger] fs[k].filename),
    decreases fs.len(),
{
    if fs.len() > 0 {
        let m1 = sync_one_m(m, fs[0]);
        assert(has_filename_m(m1, fs[0].filename)) by {
            if !has_filename_m(m, fs[0].filename) {
                let imgs = add_image_m(m, fs[0].filename, fs[0].path, fs[0].added_at,
                    fs[0].ocr_text).images;
                assert(imgs[imgs.len() - 1].filename == fs[0].filename);
            }
        }
        lemma_sync_covers(m1, fs.drop_first());
        lemma_sync_extends(m1, fs.drop_first());
        assert forall|k: int| 0 <= k < fs.len() implies has_filename_m(
            sync_m(m, fs),
            #[trigger] fs[k].filename,
        ) by {
            if k == 0 {
                assert(has_filename_m(sync_m(m1, fs.drop_first()), fs[0].filename));
            } else {
                assert(fs.drop_first()[k - 1] == fs[k]);
            }
        }
    }
}

/// A pass over a listing whose names are all cataloged already changes
/// nothing.
pub proof fn lemma_sync_noop(m: CatalogModel, fs: Seq<SyncFileModel>)
    requires
        forall|k: int| 0 <= k < fs.len() ==> has_filename_m(m, #[trigger] fs[k].filename),
    ensures
        sync_m(m, fs) == m,
    decreases fs.len(),
{
    if fs.len() > 0 {
        assert(has_filename_m(m, fs[0].filename));
        assert forall|k: int| 0 <= k < fs.drop_first().len() implies has_filename_m(
            m,
            #[trigger] fs.drop_first()[k].filename,
        ) by {
            assert(fs.drop_first()[k] == fs[k + 1]);
        }
        lemma_sync_noop(m, fs.drop_first());
    }
}

/// Reconciliation is idempotent: running a pass twice over one
/// unchanged listing is the same as running it once — the second pass
/// creates no records and reports no conflict.
pub proof fn lemma_sync_idempotent(m: CatalogModel, fs: Seq<SyncFileModel>)
    ensures
        sync_m(sync_m(m, fs), fs) == sync_m(m, fs),
{
    lemma_sync_covers(m, fs);
    lemma_sync_noop(sync_m(m, fs), fs);
}

/// The views of the listings of several folders.
pub open spec fn listing_views(ls: Seq<Vec<SyncFile>>) -> Seq<Seq<SyncFileModel>> {
    ls.map_values(|v: Vec<SyncFile>| sync_file_views(v@))
}

/// The total number of files over several listings.
pub open spec fn total_len(ls: Seq<Seq<SyncFileModel>>) -> int
    decreases ls.len(),
{
    if ls.len() == 0 {
        0
    } else {
        ls[0].len() + total_len(ls.drop_first())
    }
}

pub proof fn lemma_total_len_nonneg(ls: Seq<Seq<SyncFileModel>>)
    ensures
        total_len(ls) >= 0,
    decreases ls.len(),
{
    if ls.len() > 0 {
        lemma_total_len_nonneg(ls.drop_first());
    }
}

/// The folder-sync pass: one reconciliation pass per listing, in
/// order.
pub open spec fn sync_all_m(m: CatalogModel, ls: Seq<Seq<SyncFileModel>>) -> CatalogModel
    decreases ls.len(),
{
    if ls.len() == 0 {
        m
    } else {
        sync_all_m(sync_m(m, ls[0]), ls.drop_first())
    }
}

/// Whether a folder with this path is registered.
pub open spec fn has_folder_path(m: CatalogModel, path: Seq<char>) -> bool {
    exists|i: int| 0 <= i < m.folders.len() && m.folders[i].path == path
}

/// Registering a sync folder under the next free folder identity.
pub open spec fn add_folder_m(m: CatalogModel, path: Seq<char>, move_images: bool) -> CatalogModel {
    CatalogModel {
        folders: m.folders.push(
            FolderModel { id: m.next_folder_id, path: path, move_images: move_images },
        ),
        next_folder_id: (m.next_folder_id + 1) as i64,
        ..m
    }
}

/// Whether an image is selected by a normalized query: it has a
/// search-index entry, and that entry's text satisfies every query
/// token.  An image with no index entry is never returned, even if the
/// query names its filename.
pub open spec fn entry_selected(m: CatalogModel, img: ImageModel, qts: Seq<Seq<char>>) -> bool {
    m.search.dom().contains(img.id) && entry_matches(m.search[img.id], qts)
}

/// The selection predicate of a query, as one value.
pub open spec fn search_pred(m: CatalogModel, qts: Seq<Seq<char>>) -> spec_fn(ImageModel) -> bool {
    |img: ImageModel| entry_selected(m, img, qts)
}

/// What a search returns: the selected images in storage order, their
/// metadata only.  A query whose normalization leaves no token matches
/// nothing — the pinned-down reading of the empty expression.
pub open spec fn search_results(m: CatalogModel, qts: Seq<Seq<char>>) -> Seq<ImageModel> {
    if qts.len() == 0 {
        Seq::empty()
    } else {
        m.images.filter(search_pred(m, qts))
    }
}

/// Prefix search, both ways: an image whose indexed text has a token
/// the query token is a prefix of is returned by a one-token search,
/// and an image whose text has no such token is not.
pub proof fn lemma_prefix_search(m: CatalogModel, i: int, q: Seq<char>)
    requires
        0 <= i < m.images.len(),
    ensures
        m.search.dom().contains(m.images[i].id) && matches_some_token(
            m.search[m.images[i].id],
            q,
        ) ==> search_results(m, seq![q]).contains(m.images[i]),
        !(m.search.dom().contains(m.images[i].id) && matches_some_token(
            m.search[m.images[i].id],
            q,
        )) ==> !search_results(m, seq![q]).contains(m.images[i]),
{
    let img = m.images[i];
    let qts = seq![q];
    let pred = search_pred(m, qts);
    broadcast use vstd::seq_lib::group_filter_ensures;
    if m.search.dom().contains(img.id) && matches_some_token(m.search[img.id], q) {
        assert forall|k: int| 0 <= k < qts.len() implies matches_some_token(
            m.search[img.id],
            #[trigger] qts[k],
        ) by {
            assert(qts[k] == q);
        }
        assert(pred(img));
        assert(search_results(m, qts).contains(img));
    } else {
        assert(!pred(img)) by {
            assert(qts[0] == q);
        }
        if search_results(m, qts).contains(img) {
            let w = choose|w: int|
                0 <= w < search_results(m, qts).len() && search_results(m, qts)[w] == img;
            assert(pred(search_results(m, qts)[w]));
            assert(false);
        }
    }
}

/// The search-text map of a `HashMap` of owned strings.
pub open spec fn text_map(m: Map<i64, String>) -> Map<i64, Seq<char>> {
    Map::new(|k: i64| m.dom().contains(k), |k: i64| m[k]@)
}

/// The catalog store.  One instance stands for the single shared
/// connection of the design: the surrounding application serializes
/// access to it and persists its state.
pub struct Catalog {
    images: Vec<Image>,
    search: HashMap<i64, String>,
    folders: Vec<SyncFolder>,
    next_id: i64,
    next_folder_id: i64,
}

impl View for Catalog {
    type V = CatalogModel;

    closed spec fn view(&self) -> CatalogModel {
        CatalogModel {
            images: image_views(self.images@),
            search: text_map(self.search@),
            folders: folder_views(self.folders@),
            next_id: self.next_id,
            next_folder_id: self.next_folder_id,
        }
    }
}

impl Catalog {
    /// Whether this catalog is well-formed.  Every operation preserves
    /// it.
    pub open spec fn inv(self) -> bool {
        wf(self@)
    }

    /// A catalog with no records.
    pub fn new() -> (r: Catalog)
        ensures
            r.inv(),
            r@ == empty_model(),
    {
        let r = Catalog {
            images: Vec::new(),
            search: HashMap::new(),
            folders: Vec::new(),
            next_id: 1,
            next_folder_id: 1,
        };
        proof {
            assert(image_views(r.images@) =~= Seq::<ImageModel>::empty());
            assert(text_map(r.search@) =~= Map::<i64, Seq<char>>::empty());
            assert(folder_views(r.folders@) =~= Seq::<FolderModel>::empty());
            assert(r@ =~= empty_model());
        }
        r
    }

    /// Creates a new image record under the next free identity and
    /// sets its initial search text: the extracted text, or the empty
    /// string where extraction failed.  Returns the new identity.
    pub fn add_image(
        &mut self,
        filename: String,
        path: String,
        added_at: String,
        ocr_text: Option<String>,
    ) -> (id: i64)
        requires
            old(self).inv(),
            old(self)@.next_id < i64::MAX,
        ensures
            final(self).inv(),
            id == old(self)@.next_id,
            final(self)@ == add_image_m(old(self)@, filename@, path@, added_at@, opt_view(ocr_text)),
    {
        let id = self.next_id;
        let text = match ocr_text {
            Some(t) => t,
            None => String::new(),
        };
        let ghost pre = self@;
        let ghost text_view = text@;
        let record = Image { id, filename, path, added_at };
        self.images.push(record);
        self.search.insert(id, text);
        self.next_id = id + 1;
        proof {
            let target = add_image_m(pre, record@.filename, record@.path, record@.added_at,
                Some(text_view));
            assert(image_views(self.images@) =~= pre.images.push(record@));
            assert(text_map(self.search@) =~= pre.search.insert(id, text_view));
            assert(self@ =~= target);
            let post = self@;
            assert forall|i: int| 0 <= i < post.images.len() implies 1 <= #[trigger] post.images[i].id
                < post.next_id by {
                if i < pre.images.len() {
                    assert(post.images[i] == pre.images[i]);
                }
            }
            assert forall|i: int, j: int| 0 <= i < j < post.images.len() implies post.images[i].id
                != post.images[j].id by {
                if j < pre.images.len() {
                    assert(pre.images[i].id != pre.images[j].id);
                } else {
                    assert(post.images[j].id == pre.next_id);
                    assert(post.images[i].id == pre.images[i].id);
                }
            }
        }
        id
    }

    /// Restores a record read back from persistent storage, under its
    /// stored identity, together with its search-text entry if it has
    /// one.  Fails with a storage-constraint error where the identity
    /// is invalid or already taken.
    pub fn restore_image(&mut self, image: Image, search_text: Option<String>) -> (r: Result<
        (),
        VaultError,
    >)
        requires
            old(self).inv(),
        ensures
            final(self).inv(),
            match r {
                Ok(_) => 1 <= image@.id < i64::MAX && !has_image(old(self)@, image@.id)
                    && final(self)@ == restore_m(old(self)@, image@, opt_view(search_text)),
                Err(e) => (image@.id < 1 || image@.id == i64::MAX || has_image(
                    old(self)@,
                    image@.id,
                )) && e == VaultError::Storage && final(self)@ == old(self)@,
            },
    {
        let ghost pre = self@;
        if image.id < 1 || image.id == i64::MAX {
            return Err(VaultError::Storage);
        }
        let taken = match self.image_path(image.id) {
            Ok(_) => true,
            Err(_) => false,
        };
        if taken {
            return Err(VaultError::Storage);
        }
        let ghost img_view = image@;
        let id = image.id;
        self.images.push(image);
        match search_text {
            Some(t) => {
                let ghost tv = t@;
                self.search.insert(id, t);
                proof {
                    assert(text_map(self.search@) =~= pre.search.insert(id, tv));
                }
            },
            None => {},
        }
        if id >= self.next_id {
            self.next_id = id + 1;
        }
        proof {
            assert(image_views(self.images@) =~= pre.images.push(img_view));
            assert(self@ =~= restore_m(pre, img_view, opt_view(search_text)));
            let post = self@;
            assert forall|a: int, b: int| 0 <= a < b < post.images.len() implies post.images[a].id
                != post.images[b].id by {
                if b < pre.images.len() {
                    assert(pre.images[a].id != pre.images[b].id);
                } else {
                    assert(post.images[b].id == img_view.id);
                    assert(post.images[a] == pre.images[a]);
                }
            }
            assert forall|a: int| 0 <= a < post.images.len() implies 1 <= #[trigger] post.images[a].id
                < post.next_id by {
                if a < pre.images.len() {
                    assert(post.images[a] == pre.images[a]);
                }
            }
        }
        Ok(())
    }

    /// All image records, in storage order.
    pub fn get_images(&self) -> (r: Vec<Image>)
        ensures
            image_views(r@) == self@.images,
    {
        let mut r: Vec<Image> = Vec::new();
        let mut i: usize = 0;
        while i < self.images.len()
            invariant
                0 <= i <= self.images.len(),
                image_views(r@) == self@.images.take(i as int),
            decreases self.images.len() - i,
        {
            let img = self.images[i].duplicate();
            proof {
                assert(image_views(r@.push(img)) =~= image_views(r@).push(img@));
                assert(self@.images.take(i as int).push(self@.images[i as int]) =~= self@.images.take(
                    i as int + 1,
                ));
                assert(img@ == self@.images[i as int]);
            }
            r.push(img);
            i += 1;
        }
        proof {
            assert(self@.images.take(self.images@.len() as int) =~= self@.images);
        }
        r
    }

    /// Whether some record carries this display filename — the
    /// uniqueness check of the reconciliation passes.
    pub fn has_filename(&self, filename: &str) -> (r: bool)
        ensures
            r == has_filename_m(self@, filename@),
    {
        let needle = String::from_str(filename);
        let mut i: usize = 0;
        while i < self.images.len()
            invariant
                0 <= i <= self.images.len(),
                needle@ == filename@,
                forall|k: int| 0 <= k < i ==> self@.images[k].filename != filename@,
            decreases self.images.len() - i,
        {
            proof {
                assert(self@.images[i as int].filename == self.images@[i as int].filename@);
            }
            if self.images[i].filename == needle {
                return true;
            }
            i += 1;
        }
        false
    }

    /// The storage path of the record with this identity, or
    /// `NotFound` where the identity is unknown.
    pub fn image_path(&self, image_id: i64) -> (r: Result<String, VaultError>)
        requires
            self.inv(),
        ensures
            match r {
                Ok(path) => has_image(self@, image_id) && path@ == self@.images[image_index(
                    self@,
                    image_id,
                )].path,
                Err(e) => !has_image(self@, image_id) && e == VaultError::NotFound,
            },
    {
        let mut i: usize = 0;
        while i < self.images.len()
            invariant
                0 <= i <= self.images.len(),
                self.inv(),
                forall|k: int| 0 <= k < i ==> self@.images[k].id != image_id,
            decreases self.images.len() - i,
        {
            proof {
                assert(self@.images[i as int].id == self.images@[i as int]@.id);
            }
            if self.images[i].id == image_id {
                proof {
                    assert(self@.images[i as int].id == image_id);
                    let w = image_index(self@, image_id);
                    assert(self@.images[w].id == image_id);
                    if w != i as int {
                        assert(self@.images[w].id != self@.images[i as int].id);
                    }
                }
                return Ok(self.images[i].path.clone());
            }
            i += 1;
        }
        Err(VaultError::NotFound)
    }

    /// Deletes the record with this identity together with its
    /// search-text entry and returns the path of the backing file for
    /// the caller to remove; fails with `NotFound` where the identity
    /// is unknown.  A file-removal failure after this call is the
    /// caller's to surface: the record is then already gone while the
    /// file remains, an accepted inconsistency window.
    pub fn delete_image(&mut self, image_id: i64) -> (r: Result<String, VaultError>)
        requires
            old(self).inv(),
        ensures
            final(self).inv(),
            match r {
                Ok(path) => has_image(old(self)@, image_id) && path@ == old(self)@.images[
                    image_index(old(self)@, image_id)].path && final(self)@ == delete_image_m(
                    old(self)@,
                    image_id,
                ),
                Err(e) => !has_image(old(self)@, image_id) && e == VaultError::NotFound
                    && final(self)@ == old(self)@,
            },
    {
        let ghost pre = self@;
        let mut i: usize = 0;
        while i < self.images.len()
            invariant
                0 <= i <= self.images.len(),
                forall|k: int| 0 <= k < i ==> pre.images[k].id != image_id,
                self@ == pre,
                pre == old(self)@,
                wf(pre),
            decreases self.images.len() - i,
        {
            proof {
                assert(pre.images[i as int] == self.images@[i as int]@);
            }
            if self.images[i].id == image_id {
                let ghost vec_pre = self.images@;
                proof {
                    assert(pre.images[i as int].id == image_id);
                    let w = image_index(pre, image_id);
                    assert(pre.images[w].id == image_id);
                    if w != i as int {
                        assert(pre.images[w].id != pre.images[i as int].id);
                    }
                }
                let record = self.images.remove(i);
                proof {
                    assert(record == vec_pre[i as int]);
                    assert(record@ == pre.images[i as int]);
                }
                let path = record.path;
                self.search.remove(&image_id);
                proof {
                    assert(image_views(self.images@) =~= pre.images.remove(i as int));
                    assert(text_map(self.search@) =~= pre.search.remove(image_id));
                    assert(self@ =~= delete_image_m(pre, image_id));
                    let post = self@;
                    assert forall|a: int, b: int| 0 <= a < b < post.images.len() implies post.images[a].id
                        != post.images[b].id by {
                        let a0 = if a < i as int { a } else { a + 1 };
                        let b0 = if b < i as int { b } else { b + 1 };
                        assert(post.images[a] == pre.images[a0]);
                        assert(post.images[b] == pre.images[b0]);
                    }
                    assert forall|a: int| 0 <= a < post.images.len() implies 1 <= #[trigger] post.images[a].id
                        < post.next_id by {
                        let a0 = if a < i as int { a } else { a + 1 };
                        assert(post.images[a] == pre.images[a0]);
                    }
                }
                return Ok(path);
            }
            i += 1;
        }
        Err(VaultError::NotFound)
    }

    /// Adds a tag to the search-text field of this identity, as
    /// [`add_tag_m`] says: trimmed, idempotent per token, a no-op for
    /// whitespace-only tags.
    pub fn add_tag(&mut self, image_id: i64, new_tag: &str)
        requires
            old(self).inv(),
        ensures
            final(self).inv(),
            final(self)@ == add_tag_m(old(self)@, image_id, new_tag@),
    {
        let ghost pre = self@;
        let trimmed = trim_str(new_tag);
        if trimmed.unicode_len() == 0 {
            return ;
        }
        let cur: String = match self.search.get(&image_id) {
            Some(t) => t.clone(),
            None => String::new(),
        };
        proof {
            assert(cur@ == stored_text(pre, image_id));
        }
        if contains_token(cur.as_str(), trimmed) {
            return ;
        }
        let new_text: String = if cur.unicode_len() == 0 {
            trimmed.to_owned()
        } else {
            let mut s = cur;
            s.append(" ");
            s.append(trimmed);
            s
        };
        proof {
            reveal_strlit(" ");
            assert(" "@ =~= seq![' ']);
            assert(new_text@ == add_tag_text(stored_text(pre, image_id), trimmed@));
        }
        self.search.insert(image_id, new_text);
        proof {
            assert(text_map(self.search@) =~= pre.search.insert(image_id, new_text@));
            assert(self@ =~= add_tag_m(pre, image_id, new_tag@));
        }
    }

    /// The raw search-text field of this identity, if it has one.
    pub fn search_text_of(&self, image_id: i64) -> (r: Option<String>)
        ensures
            match r {
                Some(t) => self@.search.dom().contains(image_id) && t@ == self@.search[image_id],
                None => !self@.search.dom().contains(image_id),
            },
    {
        match self.search.get(&image_id) {
            Some(t) => Some(t.clone()),
            None => None,
        }
    }

    /// The tags of this identity: the whitespace-delimited tokens of
    /// its stored search text, sorted ascending and deduplicated; an
    /// absent entry yields the empty sequence.
    pub fn get_tags(&self, image_id: i64) -> (r: Vec<String>)
        ensures
            strictly_sorted(views(r@)),
            views(r@).to_set() == token_set(stored_text(self@, image_id)),
    {
        let toks: Vec<String> = match self.search.get(&image_id) {
            Some(t) => tokenize(t.as_str()),
            None => Vec::new(),
        };
        proof {
            if !text_map(self.search@).dom().contains(image_id) {
                assert(views(toks@) =~= Seq::<Seq<char>>::empty());
                assert(tokens(stored_text(self@, image_id)) == Seq::<Seq<char>>::empty());
            }
            assert(views(toks@) == tokens(stored_text(self@, image_id)));
        }
        sort_dedup(toks)
    }

    /// Removes a tag as [`remove_tag_m`] says: the entry goes only
    /// where its whole stored field equals the trimmed tag exactly.
    pub fn remove_tag(&mut self, image_id: i64, tag: &str)
        requires
            old(self).inv(),
        ensures
            final(self).inv(),
            final(self)@ == remove_tag_m(old(self)@, image_id, tag@),
    {
        let ghost pre = self@;
        let trimmed = trim_str(tag);
        if trimmed.unicode_len() == 0 {
            return ;
        }
        let needle = trimmed.to_owned();
        let matches = match self.search.get(&image_id) {
            Some(t) => *t == needle,
            None => false,
        };
        if matches {
            self.search.remove(&image_id);
            proof {
                assert(text_map(self.search@) =~= pre.search.remove(image_id));
                assert(self@ =~= remove_tag_m(pre, image_id, tag@));
            }
        }
    }

    /// A reconciliation pass over one directory listing, exactly
    /// [`sync_m`]: files whose names are already cataloged are skipped
    /// entirely; the rest are cataloged in listing order, each with
    /// the text its extraction produced (or none, where extraction
    /// failed).  Safe to re-run any number of times.
    pub fn sync_from_files(&mut self, files: Vec<SyncFile>)
        requires
            old(self).inv(),
            old(self)@.next_id + files@.len() <= i64::MAX,
        ensures
            final(self).inv(),
            final(self)@ == sync_m(old(self)@, sync_file_views(files@)),
    {
        let ghost pre = self@;
        let ghost fviews = sync_file_views(files@);
        let mut i: usize = 0;
        proof {
            assert(fviews.take(0) =~= Seq::<SyncFileModel>::empty());
        }
        while i < files.len()
            invariant
                0 <= i <= files.len(),
                self.inv(),
                pre == old(self)@,
                fviews == sync_file_views(files@),
                self@ == sync_m(pre, fviews.take(i as int)),
                self@.next_id + (files@.len() - i) <= i64::MAX,
            decreases files.len() - i,
        {
            let f = &files[i];
            proof {
                assert(fviews[i as int] == files@[i as int]@);
                assert(fviews.take(i as int + 1) =~= fviews.take(i as int).push(f@));
                lemma_sync_snoc(pre, fviews.take(i as int), f@);
            }
            if !self.has_filename(f.filename.as_str()) {
                let ocr: Option<String> = match &f.ocr_text {
                    Some(t) => Some(t.clone()),
                    None => None,
                };
                proof {
                    assert(opt_view(ocr) == f@.ocr_text);
                }
                self.add_image(f.filename.clone(), f.path.clone(), f.added_at.clone(), ocr);
            }
            i += 1;
        }
        proof {
            assert(fviews.take(files@.len() as int) =~= fviews);
        }
    }

    /// Registers a directory for the folder-sync pass; its path is
    /// unique among registrations, and a second registration of the
    /// same path fails with a storage-constraint error.
    pub fn add_sync_folder(&mut self, path: String, move_images: bool) -> (r: Result<
        (),
        VaultError,
    >)
        requires
            old(self).inv(),
            old(self)@.next_folder_id < i64::MAX,
        ensures
            final(self).inv(),
            match r {
                Ok(_) => !has_folder_path(old(self)@, path@) && final(self)@ == add_folder_m(
                    old(self)@,
                    path@,
                    move_images,
                ),
                Err(e) => has_folder_path(old(self)@, path@) && e == VaultError::Storage
                    && final(self)@ == old(self)@,
            },
    {
        let ghost pre = self@;
        let mut i: usize = 0;
        while i < self.folders.len()
            invariant
                0 <= i <= self.folders.len(),
                self@ == pre,
                pre == old(self)@,
                wf(pre),
                forall|k: int| 0 <= k < i ==> pre.folders[k].path != path@,
            decreases self.folders.len() - i,
        {
            proof {
                assert(pre.folders[i as int] == self.folders@[i as int]@);
            }
            if self.folders[i].path == path {
                return Err(VaultError::Storage);
            }
            i += 1;
        }
        let id = self.next_folder_id;
        let record = SyncFolder { id, path, move_images };
        self.folders.push(record);
        self.next_folder_id = id + 1;
        proof {
            assert(folder_views(self.folders@) =~= pre.folders.push(record@));
            assert(self@ =~= add_folder_m(pre, record@.path, move_images));
            let post = self@;
            assert forall|a: int| 0 <= a < post.folders.len() implies 1 <= #[trigger] post.folders[a].id
                < post.next_folder_id by {
                if a < pre.folders.len() {
                    assert(post.folders[a] == pre.folders[a]);
                }
            }
            assert forall|a: int, b: int| 0 <= a < b < post.folders.len() implies post.folders[a].path
                != post.folders[b].path by {
                if b < pre.folders.len() {
                    assert(pre.folders[a].path != pre.folders[b].path);
                } else {
                    assert(post.folders[b].path == record@.path);
                    assert(post.folders[a] == pre.folders[a]);
                }
            }
        }
        Ok(())
    }

    /// All registered sync folders, in registration order.
    pub fn get_sync_folders(&self) -> (r: Vec<SyncFolder>)
        ensures
            folder_views(r@) == self@.folders,
    {
        let mut r: Vec<SyncFolder> = Vec::new();
        let mut i: usize = 0;
        while i < self.folders.len()
            invariant
                0 <= i <= self.folders.len(),
                folder_views(r@) == self@.folders.take(i as int),
            decreases self.folders.len() - i,
        {
            let f = self.folders[i].duplicate();
            proof {
                assert(folder_views(r@.push(f)) =~= folder_views(r@).push(f@));
                assert(self@.folders.take(i as int).push(self@.folders[i as int])
                    =~= self@.folders.take(i as int + 1));
                assert(f@ == self@.folders[i as int]);
            }
            r.push(f);
            i += 1;
        }
        proof {
            assert(self@.folders.take(self.folders@.len() as int) =~= self@.folders);
        }
        r
    }

    /// The folder-sync pass: one reconciliation pass per registered
    /// folder, in registration order, each over the listing the caller
    /// enumerated for that folder.  An enumeration failure is the
    /// caller's to surface before calling; extraction failures are
    /// per-file and non-fatal, as in every pass.
    pub fn run_folder_sync(&mut self, mut listings: Vec<Vec<SyncFile>>)
        requires
            old(self).inv(),
            old(self)@.next_id + total_len(listing_views(listings@)) <= i64::MAX,
        ensures
            final(self).inv(),
            final(self)@ == sync_all_m(old(self)@, listing_views(listings@)),
    {
        let ghost pre = self@;
        let ghost all = listing_views(listings@);
        proof {
            assert(listing_views(listings@) == all);
        }
        while listings.len() > 0
            invariant
                self.inv(),
                sync_all_m(pre, all) == sync_all_m(self@, listing_views(listings@)),
                self@.next_id + total_len(listing_views(listings@)) <= i64::MAX,
            decreases listings.len(),
        {
            let ghost rem = listing_views(listings@);
            let l = listings.remove(0);
            proof {
                assert(rem[0] == sync_file_views(l@));
                assert(listing_views(listings@) =~= rem.drop_first());
                lemma_total_len_nonneg(rem.drop_first());
                lemma_sync_next_id(self@, rem[0]);
            }
            self.sync_from_files(l);
        }
        proof {
            assert(listing_views(listings@) =~= Seq::<Seq<SyncFileModel>>::empty());
        }
    }

    /// The images selected by already-normalized query tokens, in
    /// storage order: exactly [`search_results`].
    pub fn search_with_tokens(&self, qtokens: &Vec<String>) -> (r: Vec<Image>)
        ensures
            image_views(r@) == search_results(self@, views(qtokens@)),
    {
        let mut r: Vec<Image> = Vec::new();
        if qtokens.len() == 0 {
            proof {
                assert(image_views(r@) =~= Seq::<ImageModel>::empty());
            }
            return r;
        }
        let ghost m = self@;
        let ghost qts = views(qtokens@);
        let ghost pred = search_pred(m, qts);
        let mut i: usize = 0;
        proof {
            reveal(Seq::filter);
            assert(m.images.take(0) =~= Seq::<ImageModel>::empty());
            assert(image_views(r@) =~= m.images.take(0).filter(pred));
        }
        while i < self.images.len()
            invariant
                0 <= i <= self.images.len(),
                m == self@,
                qts == views(qtokens@),
                qts.len() > 0,
                pred == search_pred(m, qts),
                image_views(r@) == m.images.take(i as int).filter(pred),
            decreases self.images.len() - i,
        {
            let img = &self.images[i];
            proof {
                reveal(Seq::filter);
                assert(m.images[i as int] == self.images@[i as int]@);
                let t1 = m.images.take(i as int + 1);
                assert(t1.drop_last() =~= m.images.take(i as int));
                assert(t1.last() == m.images[i as int]);
            }
            let selected = match self.search.get(&img.id) {
                Some(t) => matches_query(t.as_str(), qtokens),
                None => false,
            };
            proof {
                assert(selected == entry_selected(m, m.images[i as int], qts));
            }
            if selected {
                let dup = img.duplicate();
                proof {
                    assert(image_views(r@.push(dup)) =~= image_views(r@).push(dup@));
                }
                r.push(dup);
            }
            i += 1;
        }
        proof {
            assert(m.images.take(self.images@.len() as int) =~= m.images);
        }
        r
    }

    /// Searches the catalog with a raw query: the query is normalized
    /// as [`query_tokens`] says, and the images whose indexed text
    /// satisfies every surviving token are returned in storage order,
    /// metadata only.  A query that normalizes to nothing matches
    /// nothing.
    pub fn search_images(&self, tag: &str) -> (r: Vec<Image>)
        ensures
            image_views(r@) == search_results(self@, query_tokens(tag@)),
    {
        let qts = normalize_query(tag);
        self.search_with_tokens(&qts)
    }

    /// Overwrites the search text of this identity with freshly
    /// extracted text, as [`set_text_m`] says; an absent entry stays
    /// absent.
    pub fn set_search_text(&mut self, image_id: i64, text: String)
        requires
            old(self).inv(),
        ensures
            final(self).inv(),
            final(self)@ == set_text_m(old(self)@, image_id, text@),
    {
        let ghost pre = self@;
        if self.search.contains_key(&image_id) {
            self.search.insert(image_id, text);
            proof {
                assert(text_map(self.search@) =~= pre.search.insert(image_id, text@));
                assert(self@ =~= set_text_m(pre, image_id, text@));
            }
        }
    }
}

} // verus!
