//! The records the catalog holds, and their mathematical views.

use vstd::prelude::*;

verus! {

/// A cataloged image: identity, display filename, absolute storage
/// path, and the creation timestamp assigned at insert.
pub struct Image {
    pub id: i64,
    pub filename: String,
    pub path: String,
    pub added_at: String,
}

/// The mathematical view of an [`Image`].
#[verifier::ext_equal]
pub struct ImageModel {
    pub id: i64,
    pub filename: Seq<char>,
    pub path: Seq<char>,
    pub added_at: Seq<char>,
}

impl View for Image {
    type V = ImageModel;

    open spec fn view(&self) -> ImageModel {
        ImageModel {
            id: self.id,
            filename: self.filename@,
            path: self.path@,
            added_at: self.added_at@,
        }
    }
}

impl Image {
    /// A fresh copy of the record.
    pub fn duplicate(&self) -> (r: Image)
        ensures
            r == *self,
    {
        Image {
            id: self.id,
            filename: self.filename.clone(),
            path: self.path.clone(),
            added_at: self.added_at.clone(),
        }
    }
}

/// The views of a sequence of image records.
pub open spec fn image_views(v: Seq<Image>) -> Seq<ImageModel> {
    v.map_values(|i: Image| i@)
}

/// A registered sync folder: a directory whose direct entries are
/// reconciled into the catalog, and whether matched files are moved
/// rather than copied into managed storage.
pub struct SyncFolder {
    pub id: i64,
    pub path: String,
    pub move_images: bool,
}

/// The mathematical view of a [`SyncFolder`].
#[verifier::ext_equal]
pub struct FolderModel {
    pub id: i64,
    pub path: Seq<char>,
    pub move_images: bool,
}

impl View for SyncFolder {
    type V = FolderModel;

    open spec fn view(&self) -> FolderModel {
        FolderModel { id: self.id, path: self.path@, move_images: self.move_images }
    }
}

impl SyncFolder {
    /// A fresh copy of the record.
    pub fn duplicate(&self) -> (r: SyncFolder)
        ensures
            r == *self,
    {
        SyncFolder { id: self.id, path: self.path.clone(), move_images: self.move_images }
    }
}

/// The views of a sequence of sync-folder records.
pub open spec fn folder_views(v: Seq<SyncFolder>) -> Seq<FolderModel> {
    v.map_values(|f: SyncFolder| f@)
}

/// One file found on disk during a reconciliation pass: its name, its
/// full path, the timestamp to record if it is inserted, and the text
/// the extractor produced for it (`None` where extraction failed).
pub struct SyncFile {
    pub filename: String,
    pub path: String,
    pub added_at: String,
    pub ocr_text: Option<String>,
}

/// The mathematical view of a [`SyncFile`].
#[verifier::ext_equal]
pub struct SyncFileModel {
    pub filename: Seq<char>,
    pub path: Seq<char>,
    pub added_at: Seq<char>,
    pub ocr_text: Option<Seq<char>>,
}

impl View for SyncFile {
    type V = SyncFileModel;

    open spec fn view(&self) -> SyncFileModel {
        SyncFileModel {
            filename: self.filename@,
            path: self.path@,
            added_at: self.added_at@,
            ocr_text: match self.ocr_text {
                Some(t) => Some(t@),
                None => None,
            },
        }
    }
}

/// The views of a sequence of sync files.
pub open spec fn sync_file_views(v: Seq<SyncFile>) -> Seq<SyncFileModel> {
    v.map_values(|f: SyncFile| f@)
}

/// The view of an optional owned string.
pub open spec fn opt_view(o: Option<String>) -> Option<Seq<char>> {
    match o {
        Some(t) => Some(t@),
        None => None,
    }
}

/// What can go wrong inside the catalog itself.  Failures of the
/// filesystem, the extractor or the network belong to the surrounding
/// application and never arise here.
#[derive(Debug, PartialEq, Eq, Structural, Clone, Copy)]
pub enum VaultError {
    /// A referenced identity is absent from the catalog.
    NotFound,
    /// A storage constraint was violated (a duplicate sync-folder
    /// path).
    Storage,
}

impl VaultError {
    /// A flat message for the shell, which receives errors as plain
    /// strings.
    pub fn message(&self) -> (r: &'static str)
        ensures
            *self is NotFound ==> r@ == "not found"@,
            *self is Storage ==> r@ == "storage constraint violated"@,
    {
        match self {
            VaultError::NotFound => "not found",
            VaultError::Storage => "storage constraint violated",
        }
    }
}

} // verus!
