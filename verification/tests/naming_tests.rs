use imagevault::blob::decode_blob_payload;
use imagevault::config::ResourceConfig;
use imagevault::models::VaultError;
use imagevault::names::{
    get_image_path, get_storage_path, is_image_filename, numbered_filename, sanitize_url_filename,
    split_stem_ext, timestamped_filename, u64_to_string,
};
use imagevault::query::{fts_expression, sanitize_fts_token};

#[test]
fn sanitize_keeps_word_characters_only() {
    assert_eq!(sanitize_fts_token("c.a!t"), "cat");
    assert_eq!(sanitize_fts_token("under_score-dash"), "under_score-dash");
    assert_eq!(sanitize_fts_token("héllo"), "héllo");
    assert_eq!(sanitize_fts_token("!!!"), "");
    assert_eq!(sanitize_fts_token(""), "");
}

#[test]
fn fts_expression_appends_wildcards_and_joins() {
    assert_eq!(fts_expression("  cat   dog!  "), "cat* dog*");
    assert_eq!(fts_expression("one"), "one*");
    assert_eq!(fts_expression(""), "");
    assert_eq!(fts_expression(" !! ?? "), "");
}

#[test]
fn decode_blob_payload_takes_base64_after_last_comma() {
    assert_eq!(
        decode_blob_payload("data:image/png;base64,aGVsbG8=").unwrap(),
        b"hello".to_vec()
    );
    assert_eq!(decode_blob_payload("aGk=").unwrap(), b"hi".to_vec());
    assert!(decode_blob_payload("data:image/png;base64,@@@").is_none());
}

#[test]
fn decimal_rendering_is_exact() {
    assert_eq!(u64_to_string(0), "0");
    assert_eq!(u64_to_string(7), "7");
    assert_eq!(u64_to_string(1700000000), "1700000000");
    assert_eq!(u64_to_string(u64::MAX), "18446744073709551615");
}

#[test]
fn numbered_filename_places_counter_before_extension() {
    assert_eq!(numbered_filename("image", "png", 2), "image (2).png");
    assert_eq!(numbered_filename("image", "", 3), "image (3)");
}

#[test]
fn timestamped_filename_is_prefix_stamp_extension() {
    assert_eq!(
        timestamped_filename("pasted", 1700000000, "png"),
        "pasted_1700000000.png"
    );
    assert_eq!(timestamped_filename("fetched", 5, "jpg"), "fetched_5.jpg");
}

#[test]
fn image_extensions_are_matched_case_sensitively() {
    assert!(is_image_filename("a.png"));
    assert!(is_image_filename("archive.tar.jpeg"));
    assert!(is_image_filename("b.webp"));
    assert!(is_image_filename("c.gif"));
    assert!(!is_image_filename("a.txt"));
    assert!(!is_image_filename("a.PNG"));
    assert!(!is_image_filename("png"));
    assert!(!is_image_filename(".png"));
}

#[test]
fn stem_and_extension_split_at_last_dot() {
    assert_eq!(split_stem_ext("archive.tar.gz"), (String::from("archive.tar"), String::from("gz")));
    assert_eq!(split_stem_ext("noext"), (String::from("noext"), String::new()));
    assert_eq!(split_stem_ext(".hidden"), (String::from(".hidden"), String::new()));
    assert_eq!(split_stem_ext("photo.png"), (String::from("photo"), String::from("png")));
}

#[test]
fn url_filenames_are_cut_and_cleaned() {
    assert_eq!(
        sanitize_url_filename("https://example.com/images/photo.png?size=2").unwrap(),
        "photo.png"
    );
    assert_eq!(
        sanitize_url_filename("https://example.com/we:ird|name#frag").unwrap(),
        "we_ird_name"
    );
    assert!(sanitize_url_filename("https://example.com/").is_none());
    assert!(sanitize_url_filename("https://example.com/.hidden").is_none());
    assert!(sanitize_url_filename("https://example.com/%20?x=1").map_or(true, |s| s == "%20"));
}

#[test]
fn storage_paths_hang_off_the_data_directory() {
    assert_eq!(get_storage_path("/home/u/.local/share"), "/home/u/.local/share/ImageVault");
    assert_eq!(
        get_image_path("/home/u/.local/share"),
        "/home/u/.local/share/ImageVault/Images"
    );
}

#[test]
fn tesseract_path_needs_a_resource_dir() {
    let mut cfg = ResourceConfig::new();
    assert_eq!(cfg.get_tesseract_path(), Err(VaultError::NotFound));
    cfg.set_resource_dir(Some(String::from("/opt/app/resources")));
    assert_eq!(
        cfg.get_tesseract_path().unwrap(),
        "/opt/app/resources/tesseract/tesseract.exe"
    );
    cfg.set_resource_dir(None);
    assert_eq!(cfg.get_tesseract_path(), Err(VaultError::NotFound));
}
