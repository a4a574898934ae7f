use imagevault::catalog::Catalog;
use imagevault::models::{Image, VaultError};

fn sample_catalog() -> (Catalog, i64) {
    let mut c = Catalog::new();
    let id = c.add_image(
        String::from("photo.png"),
        String::from("/data/ImageVault/Images/photo.png"),
        String::from("2024-01-01 00:00:00"),
        Some(String::from("cat dog")),
    );
    (c, id)
}

#[test]
fn add_image_assigns_sequential_identities() {
    let mut c = Catalog::new();
    let a = c.add_image(
        String::from("a.png"),
        String::from("/imgs/a.png"),
        String::from("t1"),
        None,
    );
    let b = c.add_image(
        String::from("b.png"),
        String::from("/imgs/b.png"),
        String::from("t2"),
        Some(String::from("words")),
    );
    assert_eq!(a, 1);
    assert_eq!(b, 2);
    let images = c.get_images();
    assert_eq!(images.len(), 2);
    assert_eq!(images[0].id, 1);
    assert_eq!(images[0].filename, "a.png");
    assert_eq!(images[0].path, "/imgs/a.png");
    assert_eq!(images[0].added_at, "t1");
    assert_eq!(images[1].id, 2);
}

#[test]
fn ocr_failure_stores_empty_search_text() {
    let mut c = Catalog::new();
    let id = c.add_image(
        String::from("a.png"),
        String::from("/imgs/a.png"),
        String::from("t1"),
        None,
    );
    assert_eq!(c.get_tags(id), Vec::<String>::new());
}

#[test]
fn tag_add_is_idempotent() {
    let (mut c, id) = sample_catalog();
    c.add_tag(id, "sunset");
    let once = c.get_tags(id);
    c.add_tag(id, "sunset");
    let twice = c.get_tags(id);
    assert_eq!(once, twice);
    assert_eq!(once, vec!["cat", "dog", "sunset"]);
}

#[test]
fn tag_is_trimmed_and_case_preserved() {
    let mut c = Catalog::new();
    c.add_tag(5, "  Foo  ");
    assert_eq!(c.get_tags(5), vec!["Foo"]);
}

#[test]
fn whitespace_only_tag_is_a_no_op() {
    let (mut c, id) = sample_catalog();
    c.add_tag(id, "   \t\n ");
    assert_eq!(c.get_tags(id), vec!["cat", "dog"]);
}

#[test]
fn multi_word_tag_keeps_token_set_stable() {
    let mut c = Catalog::new();
    c.add_tag(7, "a b");
    let once = c.get_tags(7);
    c.add_tag(7, "a b");
    let twice = c.get_tags(7);
    assert_eq!(once, vec!["a", "b"]);
    assert_eq!(once, twice);
}

#[test]
fn tags_come_back_sorted_and_deduplicated() {
    let mut c = Catalog::new();
    c.add_tag(5, "sunset");
    c.add_tag(5, "beach");
    assert_eq!(c.get_tags(5), vec!["beach", "sunset"]);
}

#[test]
fn search_matches_by_token_prefix() {
    let (c, id) = sample_catalog();
    let hits = c.search_images("ca");
    assert_eq!(hits.len(), 1);
    assert_eq!(hits[0].id, id);
    assert!(c.search_images("xyz").is_empty());
}

#[test]
fn search_requires_every_token_to_match() {
    let (c, _) = sample_catalog();
    assert_eq!(c.search_images("ca do").len(), 1);
    assert!(c.search_images("ca bird").is_empty());
}

#[test]
fn search_strips_punctuation_from_query() {
    let (c, _) = sample_catalog();
    assert_eq!(c.search_images("c.a!t").len(), 1);
}

#[test]
fn empty_or_stripped_query_matches_nothing() {
    let (c, _) = sample_catalog();
    assert!(c.search_images("").is_empty());
    assert!(c.search_images("   ").is_empty());
    assert!(c.search_images("!!!").is_empty());
}

#[test]
fn image_without_index_entry_is_never_found() {
    let mut c = Catalog::new();
    let id = c.add_image(
        String::from("lonely.png"),
        String::from("/imgs/lonely.png"),
        String::from("t"),
        Some(String::from("findme")),
    );
    // Deleting removes the index entry together with the record; a
    // record restored without an entry stays unfindable even by a
    // query that would match its filename.
    let path = c.delete_image(id).unwrap();
    assert_eq!(path, "/imgs/lonely.png");
    c.restore_image(
        Image {
            id,
            filename: String::from("lonely.png"),
            path: String::from("/imgs/lonely.png"),
            added_at: String::from("t"),
        },
        None,
    )
    .unwrap();
    assert!(c.search_images("lonely").is_empty());
    assert!(c.search_images("findme").is_empty());
}

#[test]
fn remove_tag_deletes_only_exact_field() {
    let mut c = Catalog::new();
    c.add_tag(5, "cat");
    c.remove_tag(5, "cat");
    assert_eq!(c.get_tags(5), Vec::<String>::new());

    let (mut c2, id) = sample_catalog();
    c2.remove_tag(id, "cat");
    // The field holds "cat dog", not exactly "cat": deliberately a
    // no-op.
    assert_eq!(c2.get_tags(id), vec!["cat", "dog"]);
}

#[test]
fn remove_tag_trims_and_ignores_whitespace_tag() {
    let mut c = Catalog::new();
    c.add_tag(5, "cat");
    c.remove_tag(5, "   ");
    assert_eq!(c.get_tags(5), vec!["cat"]);
    c.remove_tag(5, "  cat  ");
    assert_eq!(c.get_tags(5), Vec::<String>::new());
}

#[test]
fn delete_missing_identity_is_not_found() {
    let mut c = Catalog::new();
    assert_eq!(c.delete_image(999), Err(VaultError::NotFound));
}

#[test]
fn delete_removes_record_and_returns_path() {
    let (mut c, id) = sample_catalog();
    let path = c.delete_image(id).unwrap();
    assert_eq!(path, "/data/ImageVault/Images/photo.png");
    assert!(c.get_images().is_empty());
    assert_eq!(c.get_tags(id), Vec::<String>::new());
    assert_eq!(c.delete_image(id), Err(VaultError::NotFound));
}

#[test]
fn image_path_reports_unknown_identity() {
    let (c, id) = sample_catalog();
    assert_eq!(c.image_path(id).unwrap(), "/data/ImageVault/Images/photo.png");
    assert_eq!(c.image_path(42), Err(VaultError::NotFound));
}

#[test]
fn set_search_text_overwrites_and_discards_tags() {
    let (mut c, id) = sample_catalog();
    c.add_tag(id, "keepsake");
    c.set_search_text(id, String::from("fresh words"));
    assert_eq!(c.get_tags(id), vec!["fresh", "words"]);
}

#[test]
fn set_search_text_without_entry_is_a_no_op() {
    let mut c = Catalog::new();
    c.set_search_text(42, String::from("ghost"));
    assert_eq!(c.get_tags(42), Vec::<String>::new());
    assert!(c.search_images("ghost").is_empty());
}

fn listing() -> Vec<imagevault::models::SyncFile> {
    vec![
        imagevault::models::SyncFile {
            filename: String::from("a.png"),
            path: String::from("/imgs/a.png"),
            added_at: String::from("t1"),
            ocr_text: Some(String::from("alpha text")),
        },
        imagevault::models::SyncFile {
            filename: String::from("b.jpg"),
            path: String::from("/imgs/b.jpg"),
            added_at: String::from("t2"),
            ocr_text: None,
        },
    ]
}

#[test]
fn first_sync_creates_then_second_creates_nothing() {
    let mut c = Catalog::new();
    c.sync_from_files(listing());
    assert_eq!(c.get_images().len(), 2);
    assert_eq!(c.get_tags(1), vec!["alpha", "text"]);
    assert_eq!(c.get_tags(2), Vec::<String>::new());
    c.sync_from_files(listing());
    assert_eq!(c.get_images().len(), 2);
}

#[test]
fn sync_skips_by_filename_not_path() {
    let mut c = Catalog::new();
    c.sync_from_files(listing());
    let mut other = listing();
    other[0].path = String::from("/elsewhere/a.png");
    c.sync_from_files(other);
    assert_eq!(c.get_images().len(), 2);
    assert_eq!(c.get_images()[0].path, "/imgs/a.png");
}

#[test]
fn sync_folder_registration_rejects_duplicate_path() {
    let mut c = Catalog::new();
    assert_eq!(c.add_sync_folder(String::from("/watched"), false), Ok(()));
    assert_eq!(
        c.add_sync_folder(String::from("/watched"), true),
        Err(VaultError::Storage)
    );
    let folders = c.get_sync_folders();
    assert_eq!(folders.len(), 1);
    assert_eq!(folders[0].id, 1);
    assert_eq!(folders[0].path, "/watched");
    assert!(!folders[0].move_images);
}

#[test]
fn folder_sync_runs_one_pass_per_listing() {
    let mut c = Catalog::new();
    let second = vec![imagevault::models::SyncFile {
        filename: String::from("c.gif"),
        path: String::from("/other/c.gif"),
        added_at: String::from("t3"),
        ocr_text: Some(String::from("gamma")),
    }];
    c.run_folder_sync(vec![listing(), second]);
    assert_eq!(c.get_images().len(), 3);
    c.run_folder_sync(vec![listing()]);
    assert_eq!(c.get_images().len(), 3);
}

#[test]
fn restore_keeps_identity_and_rejects_duplicates() {
    let mut c = Catalog::new();
    let img = Image {
        id: 7,
        filename: String::from("old.png"),
        path: String::from("/imgs/old.png"),
        added_at: String::from("t"),
    };
    assert_eq!(c.restore_image(img, Some(String::from("stored text"))), Ok(()));
    assert_eq!(c.get_images()[0].id, 7);
    assert_eq!(c.get_tags(7), vec!["stored", "text"]);
    // The next fresh identity moves past the restored one.
    let next = c.add_image(
        String::from("new.png"),
        String::from("/imgs/new.png"),
        String::from("t"),
        None,
    );
    assert_eq!(next, 8);
    let dup = Image {
        id: 7,
        filename: String::from("again.png"),
        path: String::from("/imgs/again.png"),
        added_at: String::from("t"),
    };
    assert_eq!(c.restore_image(dup, None), Err(VaultError::Storage));
    let bad = Image {
        id: 0,
        filename: String::from("zero.png"),
        path: String::from("/imgs/zero.png"),
        added_at: String::from("t"),
    };
    assert_eq!(c.restore_image(bad, None), Err(VaultError::Storage));
}

#[test]
fn error_messages_are_flat_strings() {
    assert_eq!(VaultError::NotFound.message(), "not found");
    assert_eq!(VaultError::Storage.message(), "storage constraint violated");
}
