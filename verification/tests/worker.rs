use oxide_seeker::embedder::clip::ClipEmbedder;
use oxide_seeker::embedder::phash::compute_phash;
use oxide_seeker::embedder::pixels::PixelImage;
use oxide_seeker::embedder::vision::{
    embedding_key, sanitize, session_threads, split_rows, VisionEmbedder,
};
use oxide_seeker::error::AppError;
use oxide_seeker::float32::Float32;
use oxide_seeker::indexer::pdf_processor::{bgra_to_rgba, page_index, ProcessedFile};
use oxide_seeker::indexer::subprocess::{
    expect_index, expect_text, read_frame, write_frame, ProcessRequest, ProcessResponse, RegionBBox,
    RegionKind, WorkerRequest, WorkerResponse,
};
use oxide_seeker::worker_proc::{
    assemble_pages, expand_pages, handle_one, plan_regions, tile_span, RenderedPage, WorkerAction,
    WorkerPhase, WorkerState,
};

fn f(x: f32) -> Float32 {
    Float32 { bits: x.to_bits() }
}

fn picture(w: u32, h: u32) -> PixelImage {
    let mut data = Vec::new();
    for y in 0..h {
        for x in 0..w {
            data.extend_from_slice(&[(x * 3) as u8, (y * 5) as u8, (x ^ y) as u8, 255]);
        }
    }
    PixelImage { width: w, height: h, data }
}

#[test]
fn test_bgra_to_rgba_conversion() {
    let bytes = vec![10u8, 20, 30, 255];
    let rgba = bgra_to_rgba(&bytes, 1, 1);
    assert_eq!(rgba.data, [30, 20, 10, 255]);
    let two = bgra_to_rgba(&[1, 2, 3, 4, 5, 6, 7, 8, 99], 2, 1);
    assert_eq!(two.data, vec![3, 2, 1, 4, 7, 6, 5, 8]);
}

#[test]
fn frames_carry_their_length() {
    let frame = write_frame(&vec![9, 8, 7]).unwrap();
    assert_eq!(frame, vec![3, 0, 0, 0, 9, 8, 7]);
    assert_eq!(read_frame(&frame[..4].to_vec()).unwrap(), Some(3));
    let long = write_frame(&vec![0; 70_000]).unwrap();
    assert_eq!(&long[..4], &70_000u32.to_le_bytes());
    assert_eq!(read_frame(&vec![]).unwrap(), None);
    match read_frame(&vec![1, 0]) {
        Err(AppError::Other(msg)) => assert_eq!(msg, "subprocess frame cut short"),
        other => panic!("{:?}", other),
    }
}

#[test]
fn answers_have_to_match_requests() {
    let index = || WorkerResponse::Index(ProcessResponse::Error { msg: "m".to_string() });
    let text = || WorkerResponse::OcrPage { text: "t".to_string() };
    assert!(matches!(expect_index(Some(index())), Ok(ProcessResponse::Error { .. })));
    assert_eq!(expect_text(Some(text())).unwrap(), "t");
    for r in [expect_index(Some(text())).err(), expect_text(Some(index())).err()] {
        match r {
            Some(AppError::Other(msg)) => assert_eq!(msg, "worker returned mismatched response type"),
            other => panic!("{:?}", other),
        }
    }
    for r in [expect_index(None).err(), expect_text(None).err()] {
        match r {
            Some(AppError::Other(msg)) => {
                assert_eq!(msg, "worker subprocess closed pipe without responding")
            }
            other => panic!("{:?}", other),
        }
    }
}

#[test]
fn kinds_of_regions_have_names() {
    assert_eq!(RegionKind::Full.as_sql(), "full");
    assert_eq!(RegionKind::Tile.as_sql(), "tile");
}

#[test]
fn tiles_are_cut_like_single_precision_does() {
    for len in 1u32..3000 {
        for pos in 0u32..3 {
            let norm = pos as f32 * 0.25;
            let start = (norm * len as f32).floor() as u32;
            let end = ((norm + 0.5).min(1.0) * len as f32).round() as u32;
            let size = end.saturating_sub(start).max(1);
            assert_eq!(tile_span(len, pos), (start, size));
        }
    }
}

#[test]
fn small_regions_lie_within_a_tile() {
    let len = 101u32;
    for a in 0..len {
        for size in 1..=len / 4 {
            if a + size <= len {
                assert!((0..3).any(|p| {
                    let (s, n) = tile_span(len, p);
                    s <= a && a + size <= s + n
                }));
            }
        }
    }
}

#[test]
fn pages_have_one_region_or_ten() {
    let all = plan_regions(640, 480, true);
    assert_eq!(all.len(), 10);
    assert_eq!((all[0].kind, all[0].index), (RegionKind::Full, 0));
    assert_eq!(all[0].bbox, RegionBBox { x: 0, y: 0, w: 4, h: 4 });
    assert_eq!((all[6].kind, all[6].index), (RegionKind::Tile, 5));
    assert_eq!(all[6].bbox, RegionBBox { x: 2, y: 1, w: 2, h: 2 });
    assert_eq!(plan_regions(640, 480, false).len(), 1);
    assert_eq!(plan_regions(0, 480, true).len(), 1);
}

#[test]
fn vectors_return_to_their_pages() {
    let page = |num: i32, w: u32, h: u32| RenderedPage {
        page_num: num,
        width_px: w,
        height_px: h,
        image: picture(w, h),
    };
    let pages = vec![page(1, 20, 12), page(2, 0, 0), page(3, 8, 8)];
    let batch = expand_pages(&pages, true);
    assert_eq!((batch.crops.len(), batch.metas.len(), batch.phashes.len()), (21, 21, 21));
    assert_eq!(batch.crops[0].data, pages[0].image.data);
    assert_eq!((batch.crops[1].width, batch.crops[1].height), (10, 6));
    assert_eq!(batch.phashes[13], compute_phash(&batch.crops[13]));
    let thumbs: Vec<String> = (1..4).map(|i| format!("7_{}.webp", i)).collect();
    let vectors: Vec<Vec<Float32>> = (0..21).map(|i| vec![f(i as f32)]).collect();
    let out = assemble_pages(&pages, &thumbs, &batch, &vectors, true).unwrap();
    let counts: Vec<usize> = out.iter().map(|p| p.regions.len()).collect();
    assert_eq!(counts, vec![10, 1, 10]);
    assert_eq!(out[2].page_num, 3);
    assert_eq!(out[2].thumb_relative_path, "7_3.webp");
    assert_eq!(out[2].regions[0].vector, vec![f(11.0)]);
    assert_eq!(out[2].regions[9].phash, batch.phashes[20]);
    match assemble_pages(&pages, &thumbs, &batch, &vectors[1..].to_vec(), true) {
        Err(AppError::Other(msg)) => {
            assert_eq!(msg, "Encoder batch size mismatch: expected 21, got 20")
        }
        other => panic!("{:?}", other),
    }
}

#[test]
fn outcomes_become_answers() {
    assert!(matches!(handle_one(Ok(Some(vec![]))), ProcessResponse::Indexed { .. }));
    match handle_one(Ok(None)) {
        ProcessResponse::Excluded { reason } => {
            assert_eq!(reason, "imposition rule (XMP egExtFL:files)")
        }
        other => panic!("{:?}", other),
    }
    match handle_one(Err("bad".to_string())) {
        ProcessResponse::Error { msg } => assert_eq!(msg, "bad"),
        other => panic!("{:?}", other),
    }
}

fn index_request() -> WorkerRequest {
    WorkerRequest::Index(ProcessRequest { file_path: "a.pdf".to_string(), file_id: 1 })
}

fn ocr_request() -> WorkerRequest {
    WorkerRequest::OcrPage { file_path: "a.pdf".to_string(), page_num: 1 }
}

#[test]
fn a_worker_loads_once_and_answers_each_request() {
    let mut w = WorkerState::new();
    assert!(matches!(w.on_request(&index_request(), 1000), WorkerAction::LoadVision));
    assert_eq!(w.watchdog.deadline, 1600);
    assert!(!w.watchdog.expired(1600));
    assert!(w.watchdog.expired(1601));
    match w.on_vision_loaded(Err("no dll".to_string())) {
        WorkerAction::Respond(WorkerResponse::Index(ProcessResponse::Error { msg })) => {
            assert_eq!(msg, "vision session init failed: no dll")
        }
        other => panic!("{:?}", other),
    }
    assert!(!w.watchdog.expired(u64::MAX));
    assert!(matches!(w.on_request(&index_request(), 0), WorkerAction::LoadVision));
    assert!(matches!(w.on_vision_loaded(Ok(())), WorkerAction::RunIndex));
    assert!(matches!(w.on_processed(Ok(None)), WorkerResponse::Index(ProcessResponse::Excluded { .. })));
    assert_eq!(w.phase, WorkerPhase::Idle);
    assert!(matches!(w.on_request(&index_request(), 5), WorkerAction::RunIndex));
    assert!(matches!(w.on_processed(Err("x".to_string())), WorkerResponse::Index(_)));

    assert!(matches!(w.on_request(&ocr_request(), 1000), WorkerAction::LoadOcr));
    assert_eq!(w.watchdog.deadline, 1120);
    match w.on_ocr_loaded(false) {
        WorkerAction::Respond(WorkerResponse::OcrPage { text }) => assert_eq!(text, ""),
        other => panic!("{:?}", other),
    }
    assert!(matches!(w.on_request(&ocr_request(), 1000), WorkerAction::LoadOcr));
    assert!(matches!(w.on_ocr_loaded(true), WorkerAction::RunOcr));
    match w.on_read(Some("tea".to_string())) {
        WorkerResponse::OcrPage { text } => assert_eq!(text, "tea"),
        other => panic!("{:?}", other),
    }
    assert!(matches!(w.on_request(&ocr_request(), 1000), WorkerAction::RunOcr));
    match w.on_read(None) {
        WorkerResponse::OcrPage { text } => assert_eq!(text, ""),
        other => panic!("{:?}", other),
    }
}

#[test]
fn models_have_to_be_there() {
    match VisionEmbedder::load("m.onnx".to_string(), false, Ok(())) {
        Err(AppError::Config(msg)) => assert_eq!(
            msg,
            "Vision model not found at m.onnx. Export with: python scripts/export_dinov2.py then copy models/dinov2_vits14.onnx → m.onnx"
        ),
        other => panic!("{:?}", other),
    }
    assert!(matches!(
        VisionEmbedder::load("m.onnx".to_string(), true, Err("dll".to_string())),
        Err(AppError::Model(_))
    ));
    assert_eq!(VisionEmbedder::load("m.onnx".to_string(), true, Ok(())).unwrap().model_path(), "m.onnx");
    assert!(matches!(ClipEmbedder::load("c".to_string(), false, Ok(())), Err(AppError::Config(_))));
    assert!(ClipEmbedder::load("c".to_string(), true, Ok(())).is_ok());
    assert_eq!((session_threads(0, 16), session_threads(3, 16)), (16, 3));
}

#[test]
fn the_embedding_is_picked_by_name() {
    let names = |v: &[&str]| v.iter().map(|s| s.to_string()).collect::<Vec<String>>();
    assert_eq!(embedding_key(&names(&["x", "image_embeds", "embedding"])).unwrap(), 2);
    assert_eq!(embedding_key(&names(&["x", "image_embeds"])).unwrap(), 1);
    assert_eq!(embedding_key(&names(&["x", "y"])).unwrap(), 0);
    assert!(matches!(embedding_key(&vec![]), Err(AppError::Model(_))));
}

#[test]
fn batches_are_split_into_vectors() {
    let data: Vec<Float32> = (0..6).map(|i| f(i as f32)).collect();
    let rows = split_rows(&data, 3).unwrap();
    assert_eq!(rows, vec![vec![f(0.0), f(1.0)], vec![f(2.0), f(3.0)], vec![f(4.0), f(5.0)]]);
    match split_rows(&data, 4) {
        Err(AppError::Model(msg)) => {
            assert_eq!(msg, "Batch output not divisible by batch size: total=6, n=4")
        }
        other => panic!("{:?}", other),
    }
}

#[test]
fn spoilt_vectors_become_zeros() {
    assert_eq!(sanitize(vec![f(1.0), f(-0.5)]), vec![f(1.0), f(-0.5)]);
    assert_eq!(sanitize(vec![f(1.0), f(f32::NAN)]), vec![f(0.0), f(0.0)]);
    assert_eq!(sanitize(vec![f(f32::NEG_INFINITY)]), vec![f(0.0)]);
}

#[test]
fn pages_are_counted_from_one() {
    assert_eq!((page_index(1), page_index(0), page_index(-5), page_index(12)), (0, 0, 0, 11));
    assert_eq!(page_index(65_537), 0);
    let out = ProcessedFile::excluded("r".to_string());
    assert!(out.excluded && out.pages.is_empty() && out.page_count == 0);
    assert_eq!(out.exclusion_reason, Some("r".to_string()));
    let ok = ProcessedFile::rendered(vec![], 3);
    assert!(!ok.excluded && ok.page_count == 3 && ok.exclusion_reason.is_none());
}
