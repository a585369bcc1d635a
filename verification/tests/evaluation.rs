use oxide_seeker::embedder::pixels::PixelImage;
use oxide_seeker::error::AppError;
use oxide_seeker::evaluate::{
    bucket_name, jpeg_roundtrip, latency, mean, percentile, rank_of, sample_pages,
    score_percentile, take_sample, BucketAccum, EvalOpts, EvalTally, PageRef, StageLatency,
};
use oxide_seeker::float32::Float32;
use oxide_seeker::search::ranker::SearchResult;
use oxide_seeker::search::SearchTiming;
use rand::seq::SliceRandom;
use rand::SeedableRng;

fn f(x: f32) -> Float32 {
    Float32 { bits: x.to_bits() }
}

fn args(v: &[&str]) -> Vec<String> {
    v.iter().map(|s| s.to_string()).collect()
}

#[test]
fn bucket_boundaries() {
    assert_eq!(bucket_name(f(0.10)), "small(<25%)");
    assert_eq!(bucket_name(f(0.40)), "medium(25-60%)");
    assert_eq!(bucket_name(f(0.80)), "large(>60%)");
    assert_eq!(bucket_name(f(0.25)), "medium(25-60%)");
    assert_eq!(bucket_name(f(0.60)), "large(>60%)");
}

#[test]
fn percentile_basics() {
    let v = vec![10, 20, 30, 40, 100];
    assert_eq!(percentile(&v, 50), 30);
    assert_eq!(percentile(&v, 95), 100);
    assert_eq!(percentile(&[], 50), 0);
}

#[test]
fn percentiles_round_like_double_precision() {
    for n in 1usize..400 {
        let v: Vec<u64> = (0..n as u64).collect();
        for (pct, p) in [(5u32, 0.05f64), (25, 0.25), (50, 0.50), (95, 0.95)] {
            let idx = ((n as f64 - 1.0) * p).round() as usize;
            assert_eq!(percentile(&v, pct), idx.min(n - 1) as u64);
        }
    }
    assert_eq!(score_percentile(&vec![f(0.1), f(0.2), f(0.3)], 50), f(0.2));
    assert_eq!(score_percentile(&vec![], 50), f(0.0));
}

#[test]
fn options_are_taken_from_the_arguments() {
    let d = EvalOpts::parse(&args(&["--evaluate"]));
    assert_eq!((d.config_path.as_str(), d.samples, d.queries_per_page), ("config.toml", 300, 3));
    assert_eq!((d.seed, d.render_px, d.label.as_str()), (42, 900, "unlabeled"));
    assert_eq!(d.out_path, "eval_report.json");
    let o = EvalOpts::parse(&args(&[
        "--evaluate", "--config", "c.toml", "--samples", "12", "--queries-per-page", "x", "--seed",
        "+7", "--render-px", "-3", "--label", "--out", "--out", "r.json", "stray",
    ]));
    assert_eq!((o.config_path.as_str(), o.samples, o.queries_per_page), ("c.toml", 12, 3));
    assert_eq!((o.seed, o.render_px, o.label.as_str()), (7, -3, "--out"));
    assert_eq!(o.out_path, "r.json");
    let cut = EvalOpts::parse(&args(&["--samples", "5", "--config"]));
    assert_eq!((cut.samples, cut.config_path.as_str()), (5, ""));
}

#[test]
fn hits_are_counted_within_ranks() {
    let mut b = BucketAccum::new();
    for r in [Some(1), Some(5), Some(6), None, Some(11)] {
        b.push(r);
    }
    let c = b.finish();
    assert_eq!((c.queries, c.at_1, c.at_5, c.at_10), (5, 1, 2, 3));
}

#[test]
fn times_are_summed_up() {
    assert_eq!(mean(&vec![1, 2, 4]), 2);
    assert_eq!(mean(&vec![]), 0);
    assert_eq!(latency(&vec![100, 10, 40, 30, 20]), StageLatency { p50: 30, p95: 100 });
}

fn result(path: &str, page_num: i64, similarity: f32) -> SearchResult {
    SearchResult {
        file_path: path.to_string(),
        filename: path.to_string(),
        file_type: "pdf".to_string(),
        page_num,
        similarity: f(similarity),
        score: f(0.0),
        phash_distance: None,
        thumbnail_url: None,
        file_size: None,
        page_count: 1,
        modified_at: None,
    }
}

#[test]
fn a_run_is_tallied() {
    let results = vec![result("a", 1, 0.9), result("b", 2, 0.8), result("b", 2, 0.7)];
    assert_eq!(rank_of(&results, &"b".to_string(), 2), Some(2));
    assert_eq!(rank_of(&results, &"b".to_string(), 1), None);
    let mut t = EvalTally::new();
    let timing = SearchTiming::measured(1, 2, 3, 4, 5, 6);
    assert_eq!(t.record(&results, &"b".to_string(), 2, f(0.1), 50, &timing), Some(2));
    assert_eq!(t.record(&results, &"x".to_string(), 2, f(0.9), 70, &timing), None);
    assert_eq!(t.record(&vec![], &"x".to_string(), 2, f(0.5), 10, &timing), None);
    assert_eq!(t.overall.ranks, vec![Some(2), None, None]);
    assert_eq!(t.small.ranks, vec![Some(2)]);
    assert_eq!(t.medium.ranks, vec![None]);
    assert_eq!(t.large.ranks, vec![None]);
    assert_eq!(t.latencies, vec![50, 70, 10]);
    assert_eq!((t.hit_sims.clone(), t.miss_sims.clone()), (vec![f(0.8)], vec![f(0.9)]));
    assert_eq!(t.misses.len(), 2);
    assert_eq!((t.misses[0].path.as_str(), t.misses[0].page_num), ("x", 2));
    assert_eq!(t.stages.finish().phash, StageLatency { p50: 8, p95: 8 });
    for _ in 0..60 {
        t.record(&vec![], &"x".to_string(), 2, f(0.5), 10, &timing);
    }
    assert_eq!(t.misses.len(), 50);
    let c = t.calibration();
    assert_eq!((c.hit_target_sim_p05, c.suggested_threshold), (f(0.8), f(0.8)));
    assert_eq!(c.miss_top1_sim_p95, f(0.9));
}

fn pages(n: i64) -> Vec<PageRef> {
    (0..n).map(|i| PageRef { path: format!("f{}", i), page_num: i }).collect()
}

#[test]
fn a_seed_draws_the_same_pages_again() {
    let rows = pages(100);
    let nums = |seed: u64| -> Vec<i64> {
        sample_pages(&rows, seed, 30, "db").unwrap().iter().map(|p| p.page_num).collect()
    };
    assert_eq!(nums(42), nums(42));
    assert!(nums(42) != nums(43));
    assert!(nums(42) != (0..30).collect::<Vec<i64>>());
    let mut all: Vec<i64> =
        sample_pages(&rows, 7, 500, "db").unwrap().iter().map(|p| p.page_num).collect();
    all.sort_unstable();
    assert_eq!(all, (0..100).collect::<Vec<i64>>());
    for r in [sample_pages(&vec![], 1, 5, "x.db"), sample_pages(&rows, 1, 0, "x.db")] {
        match r {
            Err(AppError::Other(msg)) => {
                assert_eq!(msg, "No indexed pages found in x.db — run the indexer first")
            }
            other => panic!("{:?}", other),
        }
    }
    let picked = take_sample(&pages(3), &vec![2, 0, 1], 2);
    assert_eq!((picked[0].path.as_str(), picked[1].path.as_str()), ("f2", "f0"));
}

#[test]
fn sampling_shuffles_like_the_outside_crate() {
    let mut expected: Vec<i64> = (0..50).collect();
    expected.shuffle(&mut rand::rngs::StdRng::seed_from_u64(42));
    let got: Vec<i64> =
        sample_pages(&pages(50), 42, 50, "db").unwrap().iter().map(|p| p.page_num).collect();
    assert_eq!(got, expected);
}

#[test]
fn jpeg_changes_pixels_but_not_the_size() {
    let mut data = Vec::new();
    for i in 0..64u32 {
        data.extend_from_slice(&[(i * 37) as u8, (i * 91) as u8, (i * 13) as u8, 128]);
    }
    let img = PixelImage { width: 8, height: 8, data: data.clone() };
    let out = jpeg_roundtrip(img, 70);
    assert_eq!((out.width, out.height, out.data.len()), (8, 8, 256));
    assert!(out.data != data);
    assert_eq!(out.data[3], 255);
    let empty = jpeg_roundtrip(PixelImage { width: 0, height: 0, data: vec![] }, 70);
    assert_eq!((empty.width, empty.height), (0, 0));
}
