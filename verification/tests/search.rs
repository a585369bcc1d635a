use oxide_seeker::embedder::phash::{
    compute_phash, hamming_distance, hash_from_bytes, HASH_BYTES, MAX_HASH,
};
use oxide_seeker::embedder::pixels::{crop, PixelImage};
use oxide_seeker::float32::Float32;
use oxide_seeker::search::phash_index::find_candidates;
use oxide_seeker::search::phash_store::{PhashCandidate, PhashStore};
use oxide_seeker::search::query::{
    check_header, needs_downscale, prepare_query, MAX_QUERY_PIXELS, QUERY_LONG_EDGE_PX,
};
use oxide_seeker::search::ranker::{
    aggregate, assemble, file_ids, join_text_only, page_ids, rank, region_ids, show_time,
    PageAggregate, PageEntry, RankedPage, VectorHit,
};
use oxide_seeker::search::vector_index::{OnDisk, SearchWindow, VectorIndex, VectorMatch};
use oxide_seeker::search::{
    build_fts_query, center_crop, check_vectors, merge_matches, needs_rebuild, plan_search,
    query_text, query_views, text_lookup, OcrOutcome, Rebuild, SearchTiming, StoredVector,
};
use oxide_seeker::storage::database::{FileRecord, PageRecord, RegionHit};
use oxide_seeker::error::AppError;
use std::collections::HashMap;

fn f(x: f32) -> Float32 {
    Float32 { bits: x.to_bits() }
}

fn g(x: Float32) -> f32 {
    f32::from_bits(x.bits)
}

fn image_from(w: u32, h: u32, pixel: impl Fn(u32, u32) -> [u8; 3]) -> PixelImage {
    let mut data = Vec::new();
    for y in 0..h {
        for x in 0..w {
            let p = pixel(x, y);
            data.extend_from_slice(&[p[0], p[1], p[2], 255]);
        }
    }
    PixelImage { width: w, height: h, data }
}

fn solid(w: u32, h: u32) -> PixelImage {
    image_from(w, h, |_, _| [200, 100, 50])
}

#[test]
fn same_image_zero_distance() {
    let img = image_from(64, 64, |_, _| [128, 64, 32]);
    assert_eq!(hamming_distance(compute_phash(&img), compute_phash(&img)), 0);
}

#[test]
fn gradient_images_nonzero_distance() {
    let a = image_from(64, 64, |x, _| [(x * 4) as u8, 0, 0]);
    let b = image_from(64, 64, |_, y| [0, (y * 4) as u8, 0]);
    assert!(hamming_distance(compute_phash(&a), compute_phash(&b)) > 0);
}

#[test]
fn identical_hash_zero_distance() {
    let img = image_from(64, 64, |_, _| [100u8, 150, 200]);
    let h = compute_phash(&img);
    assert_eq!(hamming_distance(h, h), 0);
}

#[test]
fn hashes_are_read_lowest_byte_first() {
    assert_eq!(hash_from_bytes(&vec![1, 2]), 0x0201);
    assert_eq!(hash_from_bytes(&vec![]), 0);
    assert_eq!(hash_from_bytes(&vec![1, 2, 3, 4, 5, 6, 7, 0xff, 9]), 0xff07_0605_0403_0201);
}

#[test]
fn hash_is_that_of_the_image_crate() {
    // The hash of the same pixels, computed with the outside crates directly.
    let img = image_from(48, 32, |x, y| [(x * 5) as u8, (y * 7) as u8, (x + y) as u8]);
    let buffer = image::RgbaImage::from_raw(48, 32, img.data.clone()).unwrap();
    let hasher = image_hasher::HasherConfig::new()
        .hash_alg(image_hasher::HashAlg::DoubleGradient)
        .hash_size(8, 8)
        .to_hasher();
    let hash = hasher.hash_image(&image::DynamicImage::ImageRgba8(buffer));
    let mut buf = [0u8; 8];
    for (i, b) in hash.as_bytes().iter().take(8).enumerate() {
        buf[i] = *b;
    }
    assert_eq!(hash.as_bytes().len(), HASH_BYTES);
    assert!(compute_phash(&img) <= MAX_HASH);
    assert_eq!(compute_phash(&img), u64::from_le_bytes(buf));
    assert!(compute_phash(&img) != 0);
}

#[test]
fn distances_count_bits() {
    assert_eq!(hamming_distance(0, u64::MAX), 64);
    assert_eq!(hamming_distance(0b1010, 0b0110), 2);
    assert_eq!(hamming_distance(3, 5), hamming_distance(5, 3));
}

#[test]
fn crops_take_rows_and_stop_at_the_border() {
    let img = image_from(4, 3, |x, y| [x as u8, y as u8, 0]);
    let c = crop(&img, 2, 1, 10, 1);
    assert_eq!((c.width, c.height), (2, 1));
    assert_eq!(c.data, vec![2, 1, 0, 255, 3, 1, 0, 255]);
    let nothing = crop(&img, 9, 9, 5, 5);
    assert_eq!((nothing.width, nothing.height, nothing.data.len()), (0, 0, 0));
}

#[test]
fn center_crop_full_returns_clone() {
    let img = solid(100, 80);
    let c = center_crop(&img, 1000);
    assert_eq!((c.width, c.height), (img.width, img.height));
    assert_eq!(c.data, img.data);
}

#[test]
fn center_crop_seven_tenths() {
    let img = solid(100, 80);
    let c = center_crop(&img, 700);
    assert_eq!((c.width, c.height), (70, 56));
}

#[test]
fn center_crop_rounds_like_single_precision() {
    for w in 1u32..2000 {
        let expected = ((w as f32 * 0.7f32).round() as u32).max(1);
        let img = image_from(w, 1, |_, _| [0, 0, 0]);
        assert_eq!(center_crop(&img, 700).width, expected);
    }
}

#[test]
fn views_of_a_query() {
    let img = solid(100, 80);
    assert_eq!(query_views(&img, false).len(), 1);
    let both = query_views(&img, true);
    assert_eq!(both.len(), 2);
    assert_eq!(both[0].data, img.data);
    assert_eq!((both[1].width, both[1].height), (70, 56));
}

#[test]
fn merge_matches_keeps_best_distance_per_id() {
    let a = VectorMatch { vector_id: 1, distance: f(0.5) };
    let b = VectorMatch { vector_id: 1, distance: f(0.2) };
    let c = VectorMatch { vector_id: 2, distance: f(0.4) };
    let merged = merge_matches(&vec![a, b, c]);
    let by_id: HashMap<u64, f32> = merged.into_iter().map(|m| (m.vector_id, g(m.distance))).collect();
    assert!((by_id[&1] - 0.2).abs() < 1e-6);
    assert!((by_id[&2] - 0.4).abs() < 1e-6);
}

#[test]
fn merging_does_not_repeat_ids() {
    let m = |id: u64, d: f32| VectorMatch { vector_id: id, distance: f(d) };
    let merged = merge_matches(&vec![m(3, 0.9), m(4, 0.1), m(3, 0.9), m(4, 0.3)]);
    assert_eq!(merged, vec![m(3, 0.9), m(4, 0.1)]);
}

#[test]
fn fts_query_filters_short_segments_and_escapes() {
    let q = build_fts_query("VUK1457-115T 金田 ab \"x\" 峨眉钰泉");
    let q = q.expect("has usable segments");
    assert!(q.contains("\"VUK1457-115T\""));
    assert!(q.contains("\"峨眉钰泉\""));
    assert!(!q.contains("\"ab\""), "2-char segment must be dropped: {}", q);
    assert!(q.contains(" OR "));
}

#[test]
fn fts_query_empty_for_pure_graphics() {
    assert!(build_fts_query("ab x  ").is_none());
    assert!(build_fts_query("").is_none());
}

#[test]
fn fts_query_is_longest_first_and_doubles_quotes() {
    assert_eq!(
        build_fts_query("abc  d\"ef\u{3000}longest abd").unwrap(),
        "\"longest\" OR \"d\"\"ef\" OR \"abc\" OR \"abd\""
    );
}

#[test]
fn fts_query_keeps_sixteen_words() {
    let text = (0..40).map(|i| format!("word{:02}", i)).collect::<Vec<_>>().join(" ");
    let q = build_fts_query(&text).unwrap();
    assert_eq!(q.matches(" OR ").count(), 15);
    assert!(q.starts_with("\"word00\" OR \"word01\""));
}

#[test]
fn short_texts_are_not_looked_up() {
    assert_eq!(text_lookup("  abc  "), None);
    assert_eq!(text_lookup(" abcd "), Some("\"abcd\"".to_string()));
    assert_eq!(text_lookup("ab cd"), None);
}

#[test]
fn a_search_goes_on_without_text() {
    assert_eq!(query_text(OcrOutcome::Disabled), "");
    assert_eq!(query_text(OcrOutcome::Failed), "");
    assert_eq!(query_text(OcrOutcome::Text("tea".to_string())), "tea");
}

#[test]
fn oversized_query_is_rejected_by_pixel_guard() {
    let pixels = 10_000u64 * 10_000;
    assert!(pixels > MAX_QUERY_PIXELS);
    assert!((3840u64 * 2160) < MAX_QUERY_PIXELS);
    assert!(check_header(Ok((3840, 2160))).is_ok());
    match check_header(Ok((10_000, 10_000))) {
        Err(AppError::InvalidRequest(msg)) => assert_eq!(
            msg,
            "Query image is too large (10000×10000 ≈ 100 MP; limit 60 MP). Please downscale before uploading."
        ),
        other => panic!("{:?}", other),
    }
    match check_header(Err("no".to_string())) {
        Err(AppError::InvalidRequest(msg)) => assert_eq!(msg, "Cannot read image header: no"),
        other => panic!("{:?}", other),
    }
}

#[test]
fn query_downscale_threshold_is_sane() {
    assert!(QUERY_LONG_EDGE_PX > 1280);
    assert!(!needs_downscale(1600, 1600));
    assert!(needs_downscale(1, 1601));
}

fn png(w: u32, h: u32) -> Vec<u8> {
    let img = image::RgbImage::from_fn(w, h, |x, y| image::Rgb([x as u8, y as u8, 7]));
    let mut out = std::io::Cursor::new(Vec::new());
    image::DynamicImage::ImageRgb8(img).write_to(&mut out, image::ImageFormat::Png).unwrap();
    out.into_inner()
}

#[test]
fn small_queries_are_decoded_as_they_are() {
    let img = prepare_query(&png(3, 2)).unwrap();
    assert_eq!((img.width, img.height), (3, 2));
    assert_eq!(&img.data[..8], &[0, 0, 7, 255, 1, 0, 7, 255]);
    assert_eq!(&img.data[20..], &[2, 1, 7, 255]);
}

#[test]
fn large_queries_are_scaled_to_the_long_edge() {
    let img = prepare_query(&png(3200, 10)).unwrap();
    assert_eq!((img.width, img.height), (1600, 5));
    let tall = prepare_query(&png(1, 1601)).unwrap();
    assert_eq!((tall.width, tall.height), (1, 1600));
}

#[test]
fn deep_colours_are_scaled_before_they_are_reduced() {
    let deep: Vec<u16> = (0..3200u32 * 2).map(|i| (i * 40503 % 65536) as u16).collect();
    let buffer = image::ImageBuffer::<image::Luma<u16>, Vec<u16>>::from_raw(3200, 2, deep).unwrap();
    let stored = image::DynamicImage::ImageLuma16(buffer);
    let mut out = std::io::Cursor::new(Vec::new());
    stored.write_to(&mut out, image::ImageFormat::Png).unwrap();
    let want = stored.resize(1600, 1600, image::imageops::FilterType::Triangle).to_rgba8();
    let img = prepare_query(out.get_ref()).unwrap();
    assert_eq!((img.width, img.height), (1600, 1));
    assert_eq!(img.data, want.into_raw());
}

#[test]
fn what_is_no_image_is_refused() {
    match prepare_query(b"not an image") {
        Err(AppError::InvalidRequest(msg)) => assert!(msg.starts_with("Cannot read image header: ")),
        other => panic!("{:?}", other),
    }
    let whole = png(40, 40);
    match prepare_query(&whole[..60]) {
        Err(AppError::InvalidRequest(msg)) => assert!(
            msg.starts_with("Image decode failed: ") || msg.starts_with("Cannot read image header: ")
        ),
        other => panic!("{:?}", other),
    }
}

#[test]
fn plans_fetch_twenty_five_regions_for_a_page() {
    let p = plan_search(None, 20, true);
    assert_eq!((p.top_k, p.search_k, p.query_vectors), (20, 500, 2));
    let q = plan_search(Some(30), 20, false);
    assert_eq!((q.top_k, q.search_k, q.query_vectors), (30, 750, 1));
    assert!(check_vectors(&p, 2).is_ok());
    match check_vectors(&p, 1) {
        Err(AppError::Other(msg)) => assert_eq!(msg, "Expected 2 query vectors, got 1"),
        other => panic!("{:?}", other),
    }
}

#[test]
fn timing_takes_waiting_for_text_apart() {
    let t = SearchTiming::measured(400, 450, 3, 13, 37, 20);
    assert_eq!((t.encode_ms, t.ocr_ms, t.ann_ms, t.phash_ms, t.rank_ms), (400, 50, 13, 40, 20));
    assert_eq!(SearchTiming::measured(400, 10, 0, 0, 0, 0).ocr_ms, 0);
    assert_eq!(SearchTiming::default().encode_ms, 0);
}

#[test]
fn finds_exact_and_near_matches_sorted() {
    let mut store = PhashStore::new();
    store.replace_all(vec![
        (1, 0b0000),
        (2, 0b0001),
        (3, 0b0111),
        (4, u64::MAX),
    ]);
    let hits = store.find_candidates(0b0000, 4);
    let ids: Vec<i64> = hits.iter().map(|c| c.region_id).collect();
    assert_eq!(ids, vec![1, 2, 3]);
    assert_eq!(hits[0].distance, 0);
    assert_eq!(hits[2].distance, 3);
}

#[test]
fn add_and_remove_roundtrip() {
    let mut store = PhashStore::new();
    store.add_batch(&vec![(10, 0xAA), (11, 0xBB), (12, 0xCC)]);
    assert_eq!(store.len(), 3);
    store.remove(&vec![11]);
    assert_eq!(store.len(), 2);
    let hits = store.find_candidates(0xBB, 0);
    assert!(hits.is_empty(), "removed entry must not match");
}

#[test]
fn candidates_are_capped_at_the_nearest() {
    let mut store = PhashStore::default();
    assert!(store.is_empty());
    let mut entries: Vec<(i64, u64)> = (0..3000).map(|i| (i, 1)).collect();
    entries.push((9999, 0));
    store.replace_all(entries);
    let hits = store.find_candidates(0, 12);
    assert_eq!(hits.len(), 2000);
    assert_eq!(hits[0], PhashCandidate { region_id: 9999, distance: 0 });
    assert_eq!(hits[1].region_id, 0);
    assert_eq!(hits[1999].region_id, 1998);
}

#[test]
fn candidate_pages_are_nearest_first() {
    let hits = find_candidates(&vec![(1, 0b111), (2, 0b1), (3, u64::MAX)], 0, 12);
    let pairs: Vec<(i64, u32)> = hits.iter().map(|c| (c.page_id, c.distance)).collect();
    assert_eq!(pairs, vec![(2, 1), (1, 3)]);
    let many: Vec<(i64, u64)> = (0..6000).map(|i| (i, 0)).collect();
    assert_eq!(find_candidates(&many, 0, 0).len(), 5000);
}

#[test]
fn aggregate_takes_max_vector_min_phash() {
    let mut agg = PageAggregate::default();
    agg.update_vector(f(0.6));
    agg.update_vector(f(0.8));
    agg.update_vector(f(0.7));
    assert_eq!(agg.vector_sim, Some(f(0.8)));

    agg.update_phash(20);
    agg.update_phash(8);
    agg.update_phash(15);
    assert_eq!(agg.phash_dist, Some(8));
}

fn hit(region_id: i64, page_id: i64, file_id: i64, page_num: i64) -> RegionHit {
    RegionHit { region_id, page_id, file_id, page_num }
}

fn page_row(id: i64, file_id: i64, page_num: i64, thumb: Option<&str>) -> PageRecord {
    PageRecord {
        id,
        file_id,
        page_num,
        width_px: None,
        height_px: None,
        thumb_path: thumb.map(|t| t.to_string()),
    }
}

fn file_row(id: i64, path: &str, modified_at: Option<i64>) -> FileRecord {
    FileRecord {
        id,
        path: path.to_string(),
        filename: path.to_string(),
        file_type: "pdf".to_string(),
        file_size: Some(5),
        modified_at,
        page_count: 7,
        is_excluded: 0,
        indexed_at: Some(1),
        created_at: 0,
        crash_attempts: 0,
        exclusion_reason: None,
        content_sha1: None,
    }
}

#[test]
fn regions_of_both_channels_are_asked_for_once() {
    let v = vec![
        VectorHit { vector_id: 9, similarity: f(0.5) },
        VectorHit { vector_id: 2, similarity: f(0.5) },
    ];
    let h = vec![
        PhashCandidate { region_id: 2, distance: 1 },
        PhashCandidate { region_id: 5, distance: 1 },
    ];
    assert_eq!(region_ids(&v, &h), vec![2, 5, 9]);
    assert_eq!(region_ids(&vec![], &vec![]), Vec::<i64>::new());
}

#[test]
fn channels_are_merged_by_page() {
    let vectors = vec![
        VectorHit { vector_id: 1, similarity: f(0.4) },
        VectorHit { vector_id: 2, similarity: f(0.9) },
        VectorHit { vector_id: 3, similarity: f(0.1) },
        VectorHit { vector_id: 77, similarity: f(1.0) },
    ];
    let hashes = vec![
        PhashCandidate { region_id: 2, distance: 9 },
        PhashCandidate { region_id: 1, distance: 4 },
        PhashCandidate { region_id: 3, distance: 2 },
    ];
    let texts = vec![(100, f(0.7)), (300, f(1.0)), (400, f(0.2))];
    let hits = vec![hit(1, 100, 10, 1), hit(2, 100, 10, 1), hit(3, 200, 20, 3)];
    let agg = aggregate(&vectors, &hashes, &texts, &hits, f(0.30));
    assert_eq!(agg.text_only, vec![(300, f(1.0)), (400, f(0.2))]);
    let rows = vec![page_row(300, 30, 2, None)];
    let table = join_text_only(agg, &rows);
    let entries = table.entries();
    assert_eq!(
        entries,
        vec![
            PageEntry {
                page_id: 100,
                file_id: 10,
                page_num: 1,
                agg: PageAggregate {
                    vector_sim: Some(f(0.9)),
                    phash_dist: Some(4),
                    text_score: Some(f(0.7)),
                },
            },
            PageEntry {
                page_id: 200,
                file_id: 20,
                page_num: 3,
                agg: PageAggregate { vector_sim: None, phash_dist: Some(2), text_score: None },
            },
            PageEntry {
                page_id: 300,
                file_id: 30,
                page_num: 2,
                agg: PageAggregate { vector_sim: None, phash_dist: None, text_score: Some(f(1.0)) },
            },
        ]
    );
    let ranked = rank(&entries, &vec![f(0.5), f(f32::NAN), f(0.8)], 2);
    let order: Vec<i64> = ranked.iter().map(|r| r.page.page_id).collect();
    assert_eq!(order, vec![200, 300]);
    assert_eq!(page_ids(&ranked), vec![200, 300]);
    assert_eq!(file_ids(&ranked), vec![20, 30]);
}

#[test]
fn equal_scores_keep_their_order_and_zero_beats_negative_zero() {
    let e = |id: i64| PageEntry { page_id: id, file_id: 1, page_num: 1, agg: PageAggregate::default() };
    let ranked = rank(&vec![e(1), e(2), e(3)], &vec![f(-0.0), f(0.0), f(0.0)], 10);
    let order: Vec<i64> = ranked.iter().map(|r| r.page.page_id).collect();
    assert_eq!(order, vec![2, 3, 1]);
    assert_eq!(file_ids(&ranked), vec![1]);
}

#[test]
fn results_describe_pages_and_files() {
    let page = |page_id: i64, file_id: i64, sim: Option<f32>| RankedPage {
        score: f(0.75),
        page: PageEntry {
            page_id,
            file_id,
            page_num: 4,
            agg: PageAggregate {
                vector_sim: sim.map(f),
                phash_dist: Some(3),
                text_score: None,
            },
        },
    };
    let ranked = vec![page(1, 10, Some(0.5)), page(2, 99, None), page(3, 20, None)];
    let pages = vec![page_row(1, 10, 4, Some("10_4.webp"))];
    let files = vec![file_row(10, "a.pdf", Some(0)), file_row(20, "b.pdf", Some(i64::MAX))];
    let r = assemble(&ranked, &pages, &files);
    assert_eq!(r.len(), 2);
    assert_eq!(r[0].file_path, "a.pdf");
    assert_eq!(r[0].page_num, 4);
    assert_eq!(g(r[0].similarity), 0.5);
    assert_eq!(g(r[0].score), 0.75);
    assert_eq!(r[0].phash_distance, Some(3));
    assert_eq!(r[0].thumbnail_url, Some("/thumbnails/10_4.webp".to_string()));
    assert_eq!(r[0].modified_at, Some("1970-01-01T00:00:00+00:00".to_string()));
    assert_eq!((r[0].file_size, r[0].page_count), (Some(5), 7));
    assert_eq!(g(r[1].similarity), 0.0);
    assert_eq!(r[1].thumbnail_url, None);
    assert_eq!(r[1].modified_at, Some(String::new()));
    assert_eq!(show_time(None, None), None);
}

fn m(id: u64) -> VectorMatch {
    VectorMatch { vector_id: id, distance: f(0.1) }
}

#[test]
fn deleted_ids_are_not_found() {
    let mut index = VectorIndex::open("data/vectors.usearch", OnDisk::Missing { meta: None });
    assert_eq!(index.plan_search(1000, 10), Some(SearchWindow { fetch_k: 10, ef: 256 }));
    assert!(index.is_empty());
    index.add_batch(&vec![1, 2, 3, 4, 5, 3]);
    index.remove(&vec![2, 4, 2]);
    assert_eq!(index.len(), 3);
    assert!(!index.is_empty());
    assert_eq!(index.plan_search(1000, 500), Some(SearchWindow { fetch_k: 502, ef: 502 }));
    assert_eq!(index.plan_search(1, 500), Some(SearchWindow { fetch_k: 1, ef: 256 }));
    assert_eq!(index.plan_search(1000, 0), None);
    assert_eq!(index.plan_search(0, 5), None);
    let found = index.search(&vec![m(4), m(1), m(2), m(3), m(5)], 2);
    assert_eq!(found, vec![m(1), m(3)]);
    assert!(index.is_ready());
}

#[test]
fn only_vectors_in_the_graph_are_counted() {
    let mut index = VectorIndex::open("v", OnDisk::Missing { meta: None });
    index.add(1);
    index.remove(&vec![99]);
    assert_eq!(index.len(), 1);
    index.remove(&vec![1]);
    assert!(index.is_empty());
}

#[test]
fn a_vector_that_is_added_again_is_found() {
    let mut index = VectorIndex::open("v", OnDisk::Missing { meta: None });
    index.add_batch(&vec![1, 2]);
    index.remove(&vec![2, 1]);
    index.add(2);
    assert_eq!(index.search(&vec![m(1), m(2)], 5), vec![m(2)]);
    assert_eq!(index.len(), 1);
    let bytes = index.write_meta().unwrap();
    assert_eq!(bytes[8..], [1, 0, 0, 0, 0, 0, 0, 0, 1, 0, 0, 0, 0, 0, 0, 0]);
}

#[test]
fn ids_are_not_handed_out_again_by_an_index_without_vectors() {
    let mut index = VectorIndex::open("data/vectors.usearch", OnDisk::Missing { meta: None });
    assert_eq!((index.next_id(), index.next_id()), (1, 2));
    let bytes = index.write_meta().unwrap();
    let mut again = VectorIndex::open("data/vectors.usearch", OnDisk::Missing { meta: Some(bytes) });
    assert_eq!(again.next_id(), 3);
}

#[test]
fn overfetching_stops_at_thrice_the_number_wanted() {
    let mut index = VectorIndex::open("vectors", OnDisk::Missing { meta: None });
    index.remove(&(0..100).collect());
    assert_eq!(index.plan_search(1000, 10), Some(SearchWindow { fetch_k: 30, ef: 256 }));
    assert_eq!(index.plan_search(1000, usize::MAX), Some(SearchWindow { fetch_k: 1000, ef: 1000 }));
}

#[test]
fn books_survive_being_saved() {
    let mut index = VectorIndex::open("data/vectors.usearch", OnDisk::Missing { meta: None });
    assert_eq!(index.next_id(), 1);
    assert_eq!(index.next_id(), 2);
    index.remove(&vec![1, 7]);
    let bytes = index.write_meta().unwrap();
    assert!(bytes.len() > 16);
    let found = OnDisk::Loaded { ids: vec![1, 2, 7], meta: Some(bytes) };
    let mut again = VectorIndex::open("data/vectors.usearch", found);
    assert_eq!(again.len(), 1);
    assert_eq!(again.next_id(), 3);
    assert_eq!(again.search(&vec![m(1), m(2), m(7)], 9), vec![m(2)]);
    let mut bad = VectorIndex::open("x", OnDisk::Loaded { ids: vec![], meta: Some(vec![1, 2, 3]) });
    assert_eq!(bad.next_id(), 1);
    assert_eq!(VectorIndex::open("x", OnDisk::Corrupt).next_id(), 1);
    assert_eq!(VectorIndex::open("x", OnDisk::Loaded { ids: vec![], meta: None }).next_id(), 1);
}

#[test]
fn saved_books_have_eight_bytes_for_each_number() {
    let mut index = VectorIndex::open("v", OnDisk::Missing { meta: None });
    index.next_id();
    index.remove(&vec![0x0102, u64::MAX, 0x0102]);
    let bytes = index.write_meta().unwrap();
    let mut want = vec![2, 0, 0, 0, 0, 0, 0, 0];
    want.extend([2, 0, 0, 0, 0, 0, 0, 0]);
    want.extend([2, 1, 0, 0, 0, 0, 0, 0]);
    want.extend([255; 8]);
    assert_eq!(bytes, want);

    // What follows does not matter; what is missing does.
    want.push(7);
    let held = |meta: Vec<u8>| {
        let ids = vec![1, 2, 0x0102, u64::MAX, 3];
        VectorIndex::open("v", OnDisk::Loaded { ids, meta: Some(meta) }).len()
    };
    assert_eq!(held(want.clone()), 3);
    assert_eq!(held(want[..31].to_vec()), 5);
    assert_eq!(held(vec![255u8; 40]), 5);
}

#[test]
fn files_of_the_index_lie_beside_its_path() {
    let index = VectorIndex::open("data/vectors.usearch", OnDisk::Missing { meta: None });
    assert_eq!(index.graph_path(), "data/vectors.hnsw.graph");
    assert_eq!(index.data_path(), "data/vectors.hnsw.data");
    assert_eq!(index.meta_path(), "data/vectors.meta.bin");
    assert_eq!(index.tmp_graph_path(), "data/vectors.new.hnsw.graph");
    assert_eq!(index.tmp_data_path(), "data/vectors.new.hnsw.data");
    assert_eq!(index.basename(), "vectors");
    assert_eq!(index.tmp_basename(), "vectors.new");
    assert!(index.check_dump("vectors.new").is_ok());
    match index.check_dump("vectors-1") {
        Err(AppError::VectorIndex(msg)) => {
            assert_eq!(msg, "file_dump generated unexpected basename: vectors-1")
        }
        other => panic!("{:?}", other),
    }
    assert_eq!(VectorIndex::open("v", OnDisk::Missing { meta: None }).graph_path(), "./v.hnsw.graph");
}

#[test]
fn an_index_that_lags_is_rebuilt() {
    assert!(needs_rebuild(10, 4));
    assert!(!needs_rebuild(10, 5));
    assert!(!needs_rebuild(0, 0));
    assert!(needs_rebuild(1, 0));
}

#[test]
fn vectors_that_are_not_finite_are_left_out() {
    let mut rebuild = Rebuild::new();
    let row = |id: i64, v: Vec<f32>| StoredVector {
        row_id: id,
        vector: v.into_iter().map(f).collect(),
    };
    let batch = vec![
        row(3, vec![1.0, -2.0]),
        row(4, vec![f32::NAN, 0.0]),
        row(5, vec![f32::INFINITY]),
        row(9, vec![]),
    ];
    let insert = rebuild.on_batch(&batch).unwrap();
    let ids: Vec<u64> = insert.iter().map(|(id, _)| *id).collect();
    assert_eq!(ids, vec![3, 9]);
    assert_eq!(insert[0].1, vec![f(1.0), f(-2.0)]);
    assert_eq!(rebuild.after_id, 9);
    assert!(rebuild.on_batch(&vec![]).is_none());
    assert_eq!(rebuild.after_id, 9);
}

#[test]
fn single_precision_numbers_compare_like_numbers() {
    let values = [
        f32::NEG_INFINITY, -1.5, -f32::MIN_POSITIVE, -0.0, 0.0, 1e-40, 0.3, 1.0, f32::MAX,
        f32::INFINITY, f32::NAN,
    ];
    for a in values {
        assert_eq!(f(a).is_finite(), a.is_finite());
        assert_eq!(f(a).is_nan(), a.is_nan());
        for b in values {
            assert_eq!(f(a).lt(f(b)), a < b);
            assert_eq!(f(a).le(f(b)), a <= b);
            assert_eq!(f(a).total_key() < f(b).total_key(), a.total_cmp(&b).is_lt());
        }
    }
}
