use oxide_seeker::bytes::{to_signed, to_unsigned};
use oxide_seeker::chunks::chunks;
use oxide_seeker::config::{Config, IndexerConfig};
use oxide_seeker::error::AppError;
use oxide_seeker::float32::Float32;
use oxide_seeker::paths::{extension, file_name, file_stem, join, parent};
use oxide_seeker::storage::database::{
    blob_to_vector, get_or_init_license_row, ocr_progress, placeholders, upsert_file,
    vector_to_blob, FileRecord, FileWrite, LicenseRow,
};
use oxide_seeker::storage::thumbnail::{
    decode_image_bytes, fits, legacy_path, relative_path, ThumbnailStore, THUMB_SIZE,
};

fn f(x: f32) -> Float32 {
    Float32 { bits: x.to_bits() }
}

#[test]
fn db_bitcast_roundtrip_preserves_high_bit() {
    let h: u64 = 0xFFFF_0000_DEAD_BEEF;
    assert_eq!((h as i64) as u64, h);
    assert_eq!(to_signed(h), h as i64);
    assert_eq!(to_unsigned(to_signed(h)), h);
    assert_eq!(to_unsigned(-1), u64::MAX);
    assert_eq!(to_signed(5), 5);
}

#[test]
fn vector_blob_roundtrip() {
    let v: Vec<Float32> = vec![0.25f32, -1.5, 3.0e-7, 0.0, f32::MAX].into_iter().map(f).collect();
    let blob = vector_to_blob(&v);
    assert_eq!(blob.len(), v.len() * 4);
    assert_eq!(blob_to_vector(&blob), v);
    assert_eq!(&blob[..4], &0.25f32.to_le_bytes());
}

#[test]
fn blob_to_vector_ignores_trailing_bytes() {
    let mut blob = vector_to_blob(&vec![f(1.0f32), f(2.0)]);
    blob.push(0xFF);
    assert_eq!(blob_to_vector(&blob), vec![f(1.0), f(2.0)]);
}

#[test]
fn statements_number_their_placeholders() {
    assert_eq!(placeholders(0), "");
    assert_eq!(placeholders(1), "?1");
    assert_eq!(placeholders(11), "?1, ?2, ?3, ?4, ?5, ?6, ?7, ?8, ?9, ?10, ?11");
}

#[test]
fn chunks_cut_lists() {
    assert_eq!(chunks(0, 5), vec![]);
    assert_eq!(chunks(5, 5), vec![(0, 5)]);
    assert_eq!(chunks(12, 5), vec![(0, 5), (5, 10), (10, 12)]);
}

fn row(modified_at: Option<i64>) -> FileRecord {
    FileRecord {
        id: 8,
        path: "a.pdf".to_string(),
        filename: "a.pdf".to_string(),
        file_type: "pdf".to_string(),
        file_size: None,
        modified_at,
        page_count: 0,
        is_excluded: 1,
        indexed_at: None,
        created_at: 0,
        crash_attempts: 3,
        exclusion_reason: Some("poison".to_string()),
        content_sha1: None,
    }
}

#[test]
fn edited_files_leave_the_blacklist() {
    assert!(matches!(upsert_file(None, Some(5)), FileWrite::Insert));
    match upsert_file(Some(&row(Some(10))), Some(11)) {
        FileWrite::Update { id, crash_attempts, is_excluded, exclusion_reason } => {
            assert_eq!((id, crash_attempts, is_excluded, exclusion_reason), (8, 0, 0, None));
        }
        other => panic!("{:?}", other),
    }
    for (stored, found) in [(Some(10), Some(10)), (None, Some(11)), (Some(10), None)] {
        match upsert_file(Some(&row(stored)), found) {
            FileWrite::Update { crash_attempts, is_excluded, exclusion_reason, .. } => {
                assert_eq!((crash_attempts, is_excluded), (3, 1));
                assert_eq!(exclusion_reason, Some("poison".to_string()));
            }
            other => panic!("{:?}", other),
        }
    }
}

#[test]
fn pages_left_to_read_are_never_negative() {
    assert_eq!(ocr_progress(1, 1), (1, 0));
    assert_eq!(ocr_progress(3, 10), (3, 7));
    assert_eq!(ocr_progress(5, 2), (5, 0));
}

fn license_row(fingerprint: &str, started: i64) -> LicenseRow {
    LicenseRow {
        id: 1,
        install_fingerprint: fingerprint.to_string(),
        install_started_at: started,
        license_key: Some("k".to_string()),
        last_status: "valid".to_string(),
        last_message: None,
        expires_at: None,
        customer: None,
        validated_at: None,
        updated_at: 3,
    }
}

#[test]
fn license_rows_are_filled_in() {
    let fresh = get_or_init_license_row(None, "m".to_string(), 100);
    assert_eq!((fresh.id, fresh.install_started_at, fresh.updated_at), (1, 100, 100));
    assert_eq!((fresh.install_fingerprint.as_str(), fresh.last_status.as_str()), ("m", "trial"));
    let bare = get_or_init_license_row(Some(license_row("", 0)), "m".to_string(), 100);
    assert_eq!((bare.install_fingerprint.as_str(), bare.install_started_at), ("m", 100));
    assert_eq!(bare.updated_at, 100);
    let kept = get_or_init_license_row(Some(license_row("old", 50)), "m".to_string(), 100);
    assert_eq!((kept.install_fingerprint.as_str(), kept.install_started_at), ("old", 50));
    assert_eq!((kept.updated_at, kept.license_key), (3, Some("k".to_string())));
}

#[test]
fn thumbnails_are_named_after_file_and_page() {
    assert_eq!(relative_path(42, 1), "42_1.webp");
    assert_eq!(legacy_path(42, 1), "42_1.jpg");
    assert_eq!(relative_path(-3, 0), "-3_0.webp");
    let store = ThumbnailStore::new("data/thumbnails".to_string());
    assert_eq!(store.abs_path("42_1.webp"), "data/thumbnails/42_1.webp");
    assert_eq!(store.abs_path("/abs.webp"), "/abs.webp");
    assert!(fits(256, 1, THUMB_SIZE));
    assert!(!fits(257, 1, THUMB_SIZE));
}

#[test]
fn image_bytes_are_decoded() {
    let img = image::RgbImage::from_pixel(2, 1, image::Rgb([9, 8, 7]));
    let mut out = std::io::Cursor::new(Vec::new());
    image::DynamicImage::ImageRgb8(img).write_to(&mut out, image::ImageFormat::Bmp).unwrap();
    let decoded = decode_image_bytes(&out.into_inner()).unwrap();
    assert_eq!((decoded.width, decoded.height), (2, 1));
    assert_eq!(decoded.data, vec![9, 8, 7, 255, 9, 8, 7, 255]);
    assert!(matches!(decode_image_bytes(b"nope"), Err(AppError::Image(_))));
}

#[test]
fn names_and_extensions_follow_the_standard_library() {
    for p in [
        "design.PDF", "a/b.c/d", "a/b/", "a/b/.", ".pdf", "..pdf", "a.", "a/..", "/", "", ".",
        "./x.ai", "/root.tar.gz", "dir.d/file", "a//b.pdf//",
    ] {
        let path = std::path::Path::new(p);
        let name = path.file_name().map(|s| s.to_str().unwrap().to_string());
        let ext = path.extension().map(|s| s.to_str().unwrap().to_string());
        let stem = path.file_stem().map(|s| s.to_str().unwrap().to_string());
        assert_eq!(file_name(p), name, "{}", p);
        assert_eq!(extension(p).map(|v| v.into_iter().collect::<String>()), ext, "{}", p);
        assert_eq!(file_stem(p), stem, "{}", p);
    }
    assert_eq!(file_name("C:\\jobs\\a.pdf"), Some("a.pdf".to_string()));
}

#[test]
fn joins_and_parents_follow_the_standard_library() {
    for (a, b) in [
        ("data", "x"), ("data/", "x"), ("", "x"), ("data", "/x"), ("a/b", "c/d"), ("", ""), ("a", ""),
    ] {
        assert_eq!(join(a, b), std::path::Path::new(a).join(b).to_str().unwrap());
    }
    for p in [
        "a/b", "a", "/a", "a/b/", "/", "", "/x/y.z", "a/.", "a/./", "a/./b", "./a", ".", "/.", "..",
        "a/..", "././a", "a//b", "a/b/./.", "//",
    ] {
        let expected = std::path::Path::new(p).parent().map(|s| s.to_str().unwrap().to_string());
        assert_eq!(parent(p), expected, "{}", p);
    }
}

#[test]
fn drives_are_part_of_a_path() {
    assert_eq!(join("data", "C:/x"), "C:/x");
    assert_eq!(join("D:/data", "C:x"), "C:x");
    assert_eq!(join("D:/data", "/x"), "D:/x");
    assert_eq!(join("D:", "x"), "D:x");
    assert_eq!(join("D:\\", "x"), "D:\\x");
    assert_eq!(join("D:\\jobs", "x"), "D:\\jobs/x");
    assert_eq!(parent("C:\\x").as_deref(), Some("C:\\"));
    assert_eq!(parent("C:x").as_deref(), Some("C:"));
    assert_eq!(parent("C:/a/b.exe").as_deref(), Some("C:/a"));
    assert_eq!(parent("C:/"), None);
    assert_eq!(file_name("C:a.pdf").as_deref(), Some("a.pdf"));
    assert_eq!(file_name("C:"), None);
}

#[test]
fn settings_are_checked_and_have_defaults() {
    let mut c = Config::default_for(16);
    assert_eq!(c.indexer.worker_threads, 8);
    assert_eq!(Config::default_for(1).indexer.worker_threads, 2);
    assert_eq!(f32::from_bits(c.search.similarity_threshold.bits), 0.30);
    assert_eq!(f32::from_bits(c.search.weight_vector.bits), 0.70);
    assert_eq!(f32::from_bits(c.search.weight_phash.bits), 0.10);
    assert_eq!(f32::from_bits(c.search.weight_text.bits), 0.20);
    assert_eq!(f32::from_bits(c.indexer.render_dpi.bits), 150.0);
    assert_eq!(c.db_path(), "data/index.db");
    assert_eq!(c.vector_index_path(), "data/vectors.usearch");
    assert_eq!(c.thumbnails_dir(), "data/thumbnails");
    assert!(c.validate().is_ok());
    assert_eq!(c.indexer.effective_max_scan_depth(), IndexerConfig::default_max_scan_depth());
    c.indexer.max_scan_depth = 100;
    assert_eq!(c.indexer.effective_max_scan_depth(), 32);
    c.indexer.watcher_settle_secs = 0;
    assert_eq!(c.indexer.settle_secs(), 1);
    c.indexer.batch_size = 0;
    match c.validate() {
        Err(AppError::Config(msg)) => assert_eq!(msg, "indexer.batch_size must be >= 1"),
        other => panic!("{:?}", other),
    }
    c.indexer.worker_threads = 0;
    match c.validate() {
        Err(AppError::Config(msg)) => assert_eq!(msg, "indexer.worker_threads must be >= 1"),
        other => panic!("{:?}", other),
    }
}

#[test]
fn default_settings_use_half_of_the_processors() {
    let c = Config::default();
    assert_eq!(c.indexer.worker_threads, (num_cpus::get() / 2).max(2));
}
