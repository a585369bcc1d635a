//! Measuring how well searching works: queries are cut from indexed pages, and
//! what counts is where the page that a query was cut from stands in the results.

use crate::embedder::pixels::{rgba_of, to_pixels, PixelImage};
use crate::error::AppError;
use crate::float32::Float32;
use crate::order::{ascending, ascending_floats, sort_floats, sort_numbers};
use crate::search::ranker::SearchResult;
use crate::search::SearchTiming;
use crate::storage::thumbnail::{load_from_memory, loaded_image};
use crate::text::{parse_i32, parse_u64, parse_usize, same, signed_of, unsigned_of};
use image::codecs::jpeg::JpegEncoder;
use image::{DynamicImage, RgbaImage};
use rand::rngs::StdRng;
use rand::seq::SliceRandom;
use rand::SeedableRng;
use vstd::prelude::*;

verus! {

// ── Options ─────────────────────────────────────────────────────────────────

/// The options of a run.
#[derive(Debug)]
pub struct EvalOpts {
    pub config_path: String,
    /// Pages to sample.
    pub samples: usize,
    pub queries_per_page: usize,
    pub seed: u64,
    /// The long edge, in pixels, at which the pages are rendered.
    pub render_px: i32,
    pub label: String,
    pub out_path: String,
}

/// What [`EvalOpts`] says, with its texts as character sequences.
pub struct OptsView {
    pub config_path: Seq<char>,
    pub samples: usize,
    pub queries_per_page: usize,
    pub seed: u64,
    pub render_px: i32,
    pub label: Seq<char>,
    pub out_path: Seq<char>,
}

impl View for EvalOpts {
    type V = OptsView;

    open spec fn view(&self) -> OptsView {
        OptsView {
            config_path: self.config_path@,
            samples: self.samples,
            queries_per_page: self.queries_per_page,
            seed: self.seed,
            render_px: self.render_px,
            label: self.label@,
            out_path: self.out_path@,
        }
    }
}

/// The options where none are given.
pub open spec fn default_opts() -> OptsView {
    OptsView {
        config_path: "config.toml"@,
        samples: 300,
        queries_per_page: 3,
        seed: 42,
        render_px: 900,
        label: "unlabeled"@,
        out_path: "eval_report.json"@,
    }
}

/// Whether an argument is an option, which takes the one behind it as its value.
pub open spec fn is_option(arg: Seq<char>) -> bool {
    arg == "--config"@ || arg == "--samples"@ || arg == "--queries-per-page"@ || arg == "--seed"@
        || arg == "--render-px"@ || arg == "--label"@ || arg == "--out"@
}

/// A number from an argument, or the one before where it is none or does not fit.
pub open spec fn number_or(arg: Seq<char>, max: int, before: int) -> int {
    match unsigned_of(arg) {
        Some(v) => if v <= max {
            v as int
        } else {
            before
        },
        None => before,
    }
}

/// A number with a sign from an argument, or the one before where it is none or
/// does not fit.
pub open spec fn signed_or(arg: Seq<char>, before: i32) -> i32 {
    match signed_of(arg) {
        Some(v) => if i32::MIN <= v <= i32::MAX {
            v as i32
        } else {
            before
        },
        None => before,
    }
}

/// The options after one more of them with its value.
pub open spec fn with_option(o: OptsView, arg: Seq<char>, value: Seq<char>) -> OptsView {
    if arg == "--config"@ {
        OptsView { config_path: value, ..o }
    } else if arg == "--samples"@ {
        OptsView { samples: number_or(value, usize::MAX as int, o.samples as int) as usize, ..o }
    } else if arg == "--queries-per-page"@ {
        OptsView {
            queries_per_page: number_or(
                value,
                usize::MAX as int,
                o.queries_per_page as int,
            ) as usize,
            ..o
        }
    } else if arg == "--seed"@ {
        OptsView { seed: number_or(value, u64::MAX as int, o.seed as int) as u64, ..o }
    } else if arg == "--render-px"@ {
        OptsView { render_px: signed_or(value, o.render_px), ..o }
    } else if arg == "--label"@ {
        OptsView { label: value, ..o }
    } else if arg == "--out"@ {
        OptsView { out_path: value, ..o }
    } else {
        o
    }
}

/// The options that the arguments from `i` on leave: an option at the very end has
/// an empty value.
pub open spec fn opts_from(args: Seq<String>, i: int, o: OptsView) -> OptsView
    decreases args.len() - i,
{
    if i < 0 || i >= args.len() {
        o
    } else if is_option(args[i]@) {
        if i + 1 < args.len() {
            opts_from(args, i + 2, with_option(o, args[i]@, args[i + 1]@))
        } else {
            with_option(o, args[i]@, Seq::empty())
        }
    } else {
        opts_from(args, i + 1, o)
    }
}

impl EvalOpts {
    /// The options that the arguments of the program give, its own name left out.
    pub fn parse(args: &Vec<String>) -> (r: EvalOpts)
        ensures
            r@ == opts_from(args@, 0, default_opts()),
    {
        let mut opts = EvalOpts {
            config_path: "config.toml".to_owned(),
            samples: 300,
            queries_per_page: 3,
            seed: 42,
            render_px: 900,
            label: "unlabeled".to_owned(),
            out_path: "eval_report.json".to_owned(),
        };
        let mut i: usize = 0;
        while i < args.len()
            invariant
                i <= args@.len(),
                opts_from(args@, i as int, opts@) == opts_from(args@, 0, default_opts()),
            decreases args@.len() - i,
        {
            let arg = args[i].as_str();
            if opts.takes_value(arg) {
                if args.len() - i < 2 {
                    let empty = String::new();
                    opts.set(arg, empty.as_str());
                    return opts;
                }
                opts.set(arg, args[i + 1].as_str());
                i = i + 2;
            } else {
                i = i + 1;
            }
        }
        opts
    }

    fn takes_value(&self, arg: &str) -> (r: bool)
        ensures
            r == is_option(arg@),
    {
        same(arg, "--config") || same(arg, "--samples") || same(arg, "--queries-per-page") || same(
            arg,
            "--seed",
        ) || same(arg, "--render-px") || same(arg, "--label") || same(arg, "--out")
    }

    fn set(&mut self, arg: &str, value: &str)
        ensures
            final(self)@ == with_option(old(self)@, arg@, value@),
    {
        if same(arg, "--config") {
            self.config_path = value.to_owned();
        } else if same(arg, "--samples") {
            if let Some(v) = parse_usize(value) {
                self.samples = v;
            }
        } else if same(arg, "--queries-per-page") {
            if let Some(v) = parse_usize(value) {
                self.queries_per_page = v;
            }
        } else if same(arg, "--seed") {
            if let Some(v) = parse_u64(value) {
                self.seed = v;
            }
        } else if same(arg, "--render-px") {
            if let Some(v) = parse_i32(value) {
                self.render_px = v;
            }
        } else if same(arg, "--label") {
            self.label = value.to_owned();
        } else if same(arg, "--out") {
            self.out_path = value.to_owned();
        }
    }
}

// ── Sampling ────────────────────────────────────────────────────────────────

/// A page of the index.
#[derive(Debug)]
pub struct PageRef {
    pub path: String,
    pub page_num: i64,
}

/// The order in which `rand` shuffles `n` items with a `StdRng` of the given seed:
/// position `i` holds the item that comes `i`-th.
pub uninterp spec fn shuffled(n: usize, seed: u64) -> Seq<usize>;

/// `rand`'s `SliceRandom::shuffle` with a `StdRng` made by
/// `SeedableRng::seed_from_u64`: the order depends on the number of items and the
/// seed alone, and lists every item once.
#[verifier::external_body]
fn shuffle_order(n: usize, seed: u64) -> (r: Vec<usize>)
    ensures
        r@ == shuffled(n, seed),
        r@.len() == n,
        forall|i: int| 0 <= i < n ==> #[trigger] r@[i] < n,
        r@.no_duplicates(),
{
    let mut order: Vec<usize> = (0..n).collect();
    order.shuffle(&mut StdRng::seed_from_u64(seed));
    order
}

/// Whether `out` is the page `row`.
pub open spec fn same_page(out: PageRef, row: PageRef) -> bool {
    out.path@ == row.path@ && out.page_num == row.page_num
}

/// The smaller of two numbers.
pub open spec fn fewer(a: int, b: int) -> int {
    if a <= b {
        a
    } else {
        b
    }
}

/// The first pages of an order, no more than `samples` of them.
pub fn take_sample(rows: &Vec<PageRef>, order: &Vec<usize>, samples: usize) -> (r: Vec<PageRef>)
    requires
        order@.len() == rows@.len(),
        forall|i: int| 0 <= i < order@.len() ==> #[trigger] order@[i] < rows@.len(),
    ensures
        r@.len() == fewer(rows@.len() as int, samples as int),
        forall|i: int|
            0 <= i < r@.len() ==> same_page(#[trigger] r@[i], rows@[order@[i] as int]),
{
    let mut out: Vec<PageRef> = Vec::new();
    let mut i: usize = 0;
    while i < order.len() && i < samples
        invariant
            i <= order@.len(),
            i <= samples,
            order@.len() == rows@.len(),
            forall|i: int| 0 <= i < order@.len() ==> #[trigger] order@[i] < rows@.len(),
            out@.len() == i,
            forall|j: int|
                0 <= j < i ==> same_page(#[trigger] out@[j], rows@[order@[j] as int]),
        decreases order@.len() - i,
    {
        let row = &rows[order[i]];
        out.push(PageRef { path: row.path.clone(), page_num: row.page_num });
        i = i + 1;
    }
    out
}

/// The pages that a run is made with: drawn from all pages of the index by the seed,
/// so that a seed gives the same pages again as long as the index is the same.
pub fn sample_pages(rows: &Vec<PageRef>, seed: u64, samples: usize, db_path: &str) -> (r: Result<
    Vec<PageRef>,
    AppError,
>)
    ensures
        r is Err <==> rows@.len() == 0 || samples == 0,
        r is Err ==> r->Err_0 is Other && r->Err_0->Other_0@ == "No indexed pages found in "@
            + db_path@ + " — run the indexer first"@,
        r is Ok ==> r->Ok_0@.len() == fewer(rows@.len() as int, samples as int) && forall|i: int|
            0 <= i < r->Ok_0@.len() ==> same_page(
                #[trigger] r->Ok_0@[i],
                rows@[shuffled(rows@.len() as usize, seed)[i] as int],
            ),
{
    let order = shuffle_order(rows.len(), seed);
    let sample = take_sample(rows, &order, samples);
    if sample.len() == 0 {
        let mut msg = "No indexed pages found in ".to_owned();
        msg.append(db_path);
        msg.append(" — run the indexer first");
        return Err(AppError::Other(msg));
    }
    Ok(sample)
}

/// What `image` writes for an image as JPEG, where it can.
pub uninterp spec fn jpeg_bytes(width: u32, height: u32, rgba: Seq<u8>, quality: u8) -> Option<
    Seq<u8>,
>;

/// `image::codecs::jpeg::JpegEncoder` with the given quality, on the image without its
/// alpha: the outcome depends on the arguments alone.
#[verifier::external_body]
fn encode_jpeg(img: &PixelImage, quality: u8) -> (r: Option<Vec<u8>>)
    requires
        img.wf(),
        1 <= quality <= 100,
    ensures
        match r {
            Some(bytes) => jpeg_bytes(img.width, img.height, img.data@, quality) == Some(bytes@),
            None => jpeg_bytes(img.width, img.height, img.data@, quality) is None,
        },
{
    let rgba = RgbaImage::from_raw(img.width, img.height, img.data.clone())?;
    let rgb = DynamicImage::ImageRgb8(DynamicImage::ImageRgba8(rgba).to_rgb8());
    let mut buf = Vec::new();
    rgb.write_with_encoder(JpegEncoder::new_with_quality(&mut buf, quality)).ok()?;
    Some(buf)
}

/// An image as it looks after it has been sent as JPEG; `None` where that cannot be
/// done.
pub open spec fn jpeg_copy(img: PixelImage, quality: u8) -> Option<(u32, u32, Seq<u8>)> {
    match jpeg_bytes(img.width, img.height, img.data@, quality) {
        None => None,
        Some(bytes) => match loaded_image(bytes) {
            Ok((w, h, samples)) => Some((w, h, rgba_of(w, h, samples))),
            Err(_) => None,
        },
    }
}

/// An image as it looks after it has been sent as JPEG; as it is where that cannot
/// be done.
pub fn jpeg_roundtrip(img: PixelImage, quality: u8) -> (r: PixelImage)
    requires
        img.wf(),
        1 <= quality <= 100,
    ensures
        r.wf(),
        (r.width, r.height, r.data@) == match jpeg_copy(img, quality) {
            Some(out) => out,
            None => (img.width, img.height, img.data@),
        },
{
    let bytes = match encode_jpeg(&img, quality) {
        Some(b) => b,
        None => return img,
    };
    match load_from_memory(bytes.as_slice()) {
        Ok(out) => to_pixels(&out),
        Err(_) => img,
    }
}

// ── Buckets ─────────────────────────────────────────────────────────────────

/// A quarter.
pub const BUCKET_SMALL_MAX_BITS: u32 = 0x3e80_0000;

/// Six tenths.
pub const BUCKET_MEDIUM_MAX_BITS: u32 = 0x3f19_999a;

/// How much of its page a query shows.
#[derive(Clone, Copy, PartialEq, Eq, Structural, Debug)]
pub enum Bucket {
    Small,
    Medium,
    Large,
}

/// The bucket of a share of a page.
pub open spec fn bucket_of(area_ratio: Float32) -> Bucket {
    if area_ratio.less(Float32 { bits: BUCKET_SMALL_MAX_BITS }) {
        Bucket::Small
    } else if area_ratio.less(Float32 { bits: BUCKET_MEDIUM_MAX_BITS }) {
        Bucket::Medium
    } else {
        Bucket::Large
    }
}

/// The bucket of a share of a page.
pub fn bucket(area_ratio: Float32) -> (r: Bucket)
    ensures
        r == bucket_of(area_ratio),
{
    if area_ratio.lt(Float32 { bits: BUCKET_SMALL_MAX_BITS }) {
        Bucket::Small
    } else if area_ratio.lt(Float32 { bits: BUCKET_MEDIUM_MAX_BITS }) {
        Bucket::Medium
    } else {
        Bucket::Large
    }
}

/// The name of a bucket.
pub open spec fn name_of(b: Bucket) -> Seq<char> {
    match b {
        Bucket::Small => "small(<25%)"@,
        Bucket::Medium => "medium(25-60%)"@,
        Bucket::Large => "large(>60%)"@,
    }
}

/// The name of the bucket of a share of a page.
pub fn bucket_name(area_ratio: Float32) -> (r: &'static str)
    ensures
        r@ == name_of(bucket_of(area_ratio)),
{
    match bucket(area_ratio) {
        Bucket::Small => "small(<25%)",
        Bucket::Medium => "medium(25-60%)",
        Bucket::Large => "large(>60%)",
    }
}

/// How many of the ranks are at most `k`.
pub open spec fn hits_within(ranks: Seq<Option<usize>>, k: int) -> int
    decreases ranks.len(),
{
    if ranks.len() == 0 {
        0
    } else {
        hits_within(ranks.drop_last(), k) + match ranks.last() {
            Some(v) => if v <= k {
                1int
            } else {
                0
            },
            None => 0,
        }
    }
}

/// How many queries of a bucket found their page, and how far up.
#[derive(Clone, Copy, PartialEq, Eq, Structural, Debug)]
pub struct BucketCounts {
    pub queries: usize,
    pub at_1: usize,
    pub at_5: usize,
    pub at_10: usize,
}

/// The ranks of the queries of a bucket.
#[derive(Debug)]
pub struct BucketAccum {
    pub ranks: Vec<Option<usize>>,
}

impl BucketAccum {
    /// No query.
    pub fn new() -> (r: BucketAccum)
        ensures
            r.ranks@ == Seq::<Option<usize>>::empty(),
    {
        BucketAccum { ranks: Vec::new() }
    }

    /// Takes in where a query found its page, if it did.
    pub fn push(&mut self, rank: Option<usize>)
        ensures
            final(self).ranks@ == old(self).ranks@.push(rank),
    {
        self.ranks.push(rank);
    }

    fn hits_at(&self, k: usize) -> (r: usize)
        ensures
            r == hits_within(self.ranks@, k as int),
            r <= self.ranks@.len(),
    {
        let mut n: usize = 0;
        let mut i: usize = 0;
        assert(self.ranks@.take(0) =~= Seq::empty());
        while i < self.ranks.len()
            invariant
                i <= self.ranks@.len(),
                n <= i,
                n == hits_within(self.ranks@.take(i as int), k as int),
            decreases self.ranks@.len() - i,
        {
            assert(self.ranks@.take(i + 1).drop_last() =~= self.ranks@.take(i as int));
            if let Some(v) = self.ranks[i] {
                if v <= k {
                    n = n + 1;
                }
            }
            i = i + 1;
        }
        assert(self.ranks@.take(i as int) =~= self.ranks@);
        n
    }

    /// How many queries there were, and how many found their page first, among the
    /// first five, and among the first ten.
    pub fn finish(&self) -> (r: BucketCounts)
        ensures
            r.queries == self.ranks@.len(),
            r.at_1 == hits_within(self.ranks@, 1),
            r.at_5 == hits_within(self.ranks@, 5),
            r.at_10 == hits_within(self.ranks@, 10),
    {
        BucketCounts {
            queries: self.ranks.len(),
            at_1: self.hits_at(1),
            at_5: self.hits_at(5),
            at_10: self.hits_at(10),
        }
    }
}

/// A query that finds its page among the first few finds it among more.
pub proof fn hits_grow(ranks: Seq<Option<usize>>, a: int, b: int)
    requires
        a <= b,
    ensures
        0 <= hits_within(ranks, a) <= hits_within(ranks, b) <= ranks.len(),
    decreases ranks.len(),
{
    if ranks.len() > 0 {
        hits_grow(ranks.drop_last(), a, b);
    }
}

// ── Percentiles ─────────────────────────────────────────────────────────────

/// The position of a percentile among `n` values: the nearest one, halves up.
pub open spec fn percentile_index(n: int, percent: int) -> int {
    let i = (2 * (n - 1) * percent + 100) / 200;
    if i <= n - 1 {
        i
    } else {
        n - 1
    }
}

fn index_at(n: usize, percent: u32) -> (r: usize)
    requires
        n > 0,
    ensures
        r == percentile_index(n as int, percent as int),
        r < n,
{
    let last: u128 = (n - 1) as u128;
    let p: u128 = percent as u128;
    assert(last * p <= 0xffff_ffff_ffff_ffff * 0xffff_ffff) by (nonlinear_arith)
        requires
            last <= 0xffff_ffff_ffff_ffff,
            p <= 0xffff_ffff,
    ;
    assert(2 * (n - 1) * percent == 2 * (last * p)) by (nonlinear_arith)
        requires
            last == n - 1,
            p == percent,
    ;
    let i: u128 = (2 * (last * p) + 100) / 200;
    assert(0 <= last * p) by (nonlinear_arith)
        requires
            last >= 0,
            p >= 0,
    ;
    if i <= last {
        i as usize
    } else {
        n - 1
    }
}

/// The value at a percentile of values in ascending order; zero where there is
/// none.
pub open spec fn percentile_of(sorted: Seq<u64>, percent: int) -> u64 {
    if sorted.len() == 0 {
        0
    } else {
        sorted[percentile_index(sorted.len() as int, percent)]
    }
}

/// The value at a percentile of values in ascending order.
pub fn percentile(sorted: &[u64], percent: u32) -> (r: u64)
    ensures
        r == percentile_of(sorted@, percent as int),
{
    if sorted.len() == 0 {
        return 0;
    }
    let i: usize = index_at(sorted.len(), percent);
    sorted[i]
}

/// The number at a percentile of numbers in order; zero where there is none.
pub open spec fn score_percentile_of(sorted: Seq<Float32>, percent: int) -> Float32 {
    if sorted.len() == 0 {
        Float32 { bits: 0 }
    } else {
        sorted[percentile_index(sorted.len() as int, percent)]
    }
}

/// The number at a percentile of numbers in order.
pub fn score_percentile(sorted: &Vec<Float32>, percent: u32) -> (r: Float32)
    ensures
        r == score_percentile_of(sorted@, percent as int),
{
    if sorted.len() == 0 {
        return Float32 { bits: 0 };
    }
    let i: usize = index_at(sorted.len(), percent);
    sorted[i]
}

/// A higher percentile is no smaller a value.
pub proof fn percentiles_grow(sorted: Seq<u64>, a: int, b: int)
    requires
        0 <= a <= b,
        forall|i: int, j: int| 0 <= i <= j < sorted.len() ==> #[trigger] sorted[i] <= #[trigger] sorted[j],
    ensures
        percentile_of(sorted, a) <= percentile_of(sorted, b),
{
    if sorted.len() > 0 {
        let n = sorted.len() as int;
        assert(0 <= 2 * (n - 1) * a <= 2 * (n - 1) * b) by (nonlinear_arith)
            requires
                n >= 1,
                0 <= a <= b,
        ;
        assert(percentile_index(n, a) <= percentile_index(n, b));
    }
}

/// The middle and the upper end of the times that a stage took.
#[derive(Clone, Copy, PartialEq, Eq, Structural, Debug)]
pub struct StageLatency {
    pub p50: u64,
    pub p95: u64,
}

/// The middle and the upper end of some times.
pub open spec fn latency_of(times: Seq<u64>) -> StageLatency {
    StageLatency {
        p50: percentile_of(ascending(times), 50),
        p95: percentile_of(ascending(times), 95),
    }
}

/// The middle and the upper end of some times.
pub fn latency(times: &Vec<u64>) -> (r: StageLatency)
    ensures
        r == latency_of(times@),
{
    let sorted = sort_numbers(times);
    StageLatency { p50: percentile(sorted.as_slice(), 50), p95: percentile(sorted.as_slice(), 95) }
}

/// The sum of some numbers.
pub open spec fn sum_of(v: Seq<u64>) -> int
    decreases v.len(),
{
    if v.len() == 0 {
        0
    } else {
        sum_of(v.drop_last()) + v.last()
    }
}

proof fn lemma_sum_grows(v: Seq<u64>, n: int)
    requires
        0 <= n <= v.len(),
    ensures
        0 <= sum_of(v.take(n)) <= sum_of(v),
    decreases v.len(),
{
    if n < v.len() {
        lemma_sum_grows(v.drop_last(), n);
        assert(v.drop_last().take(n) =~= v.take(n));
    } else {
        assert(v.take(n) =~= v);
        if v.len() > 0 {
            lemma_sum_grows(v.drop_last(), v.len() - 1);
            assert(v.drop_last().take(v.len() - 1) =~= v.drop_last());
        }
    }
}

/// The mean of some times, rounded down; zero where there is none.
pub fn mean(times: &Vec<u64>) -> (r: u64)
    requires
        sum_of(times@) <= u64::MAX,
    ensures
        r == if times@.len() == 0 {
            0
        } else {
            sum_of(times@) / (times@.len() as int)
        },
{
    if times.len() == 0 {
        return 0;
    }
    let mut sum: u64 = 0;
    let mut i: usize = 0;
    assert(times@.take(0) =~= Seq::empty());
    while i < times.len()
        invariant
            i <= times@.len(),
            sum_of(times@) <= u64::MAX,
            sum == sum_of(times@.take(i as int)),
        decreases times@.len() - i,
    {
        proof {
            assert(times@.take(i + 1).drop_last() =~= times@.take(i as int));
            lemma_sum_grows(times@, i + 1);
        }
        sum = sum + times[i];
        i = i + 1;
    }
    assert(times@.take(i as int) =~= times@);
    sum / (times.len() as u64)
}

/// How long each stage took in every search.
#[derive(Debug)]
pub struct StageAccum {
    pub encode: Vec<u64>,
    pub ocr: Vec<u64>,
    pub ann: Vec<u64>,
    pub phash: Vec<u64>,
    pub rank: Vec<u64>,
}

/// The times of the stages, by name.
#[derive(Clone, Copy, PartialEq, Eq, Structural, Debug)]
pub struct StageReport {
    pub ann: StageLatency,
    pub encode: StageLatency,
    pub ocr: StageLatency,
    pub phash: StageLatency,
    pub rank: StageLatency,
}

impl StageAccum {
    /// No search.
    pub fn new() -> (r: StageAccum)
        ensures
            r.encode@.len() == 0,
            r.ocr@.len() == 0,
            r.ann@.len() == 0,
            r.phash@.len() == 0,
            r.rank@.len() == 0,
    {
        StageAccum {
            encode: Vec::new(),
            ocr: Vec::new(),
            ann: Vec::new(),
            phash: Vec::new(),
            rank: Vec::new(),
        }
    }

    /// Takes in the times of one search.
    pub fn push(&mut self, t: &SearchTiming)
        ensures
            final(self).encode@ == old(self).encode@.push(t.encode_ms),
            final(self).ocr@ == old(self).ocr@.push(t.ocr_ms),
            final(self).ann@ == old(self).ann@.push(t.ann_ms),
            final(self).phash@ == old(self).phash@.push(t.phash_ms),
            final(self).rank@ == old(self).rank@.push(t.rank_ms),
    {
        self.encode.push(t.encode_ms);
        self.ocr.push(t.ocr_ms);
        self.ann.push(t.ann_ms);
        self.phash.push(t.phash_ms);
        self.rank.push(t.rank_ms);
    }

    /// The middle and the upper end of the times of each stage.
    pub fn finish(&self) -> (r: StageReport)
        ensures
            r.encode == latency_of(self.encode@),
            r.ocr == latency_of(self.ocr@),
            r.ann == latency_of(self.ann@),
            r.phash == latency_of(self.phash@),
            r.rank == latency_of(self.rank@),
    {
        StageReport {
            ann: latency(&self.ann),
            encode: latency(&self.encode),
            ocr: latency(&self.ocr),
            phash: latency(&self.phash),
            rank: latency(&self.rank),
        }
    }
}

// ── A run ───────────────────────────────────────────────────────────────────

/// The most misses that are listed.
pub const MAX_MISSES: usize = 50;

/// A query that did not find its page.
#[derive(Debug)]
pub struct MissRecord {
    pub path: String,
    pub page_num: i64,
    pub area_ratio: Float32,
}

/// Whether a result is the page that a query was cut from.
pub open spec fn is_source(r: SearchResult, path: Seq<char>, page_num: i64) -> bool {
    r.file_path@ == path && r.page_num == page_num
}

/// Where a page stands in the results, beginning with one: its first place.
pub fn rank_of(results: &Vec<SearchResult>, path: &String, page_num: i64) -> (r: Option<usize>)
    ensures
        match r {
            Some(k) => 1 <= k <= results@.len() && is_source(results@[k - 1], path@, page_num)
                && forall|i: int|
                0 <= i < k - 1 ==> !is_source(#[trigger] results@[i], path@, page_num),
            None => forall|i: int|
                0 <= i < results@.len() ==> !is_source(#[trigger] results@[i], path@, page_num),
        },
{
    let mut i: usize = 0;
    while i < results.len()
        invariant
            i <= results@.len(),
            forall|j: int| 0 <= j < i ==> !is_source(#[trigger] results@[j], path@, page_num),
        decreases results@.len() - i,
    {
        if results[i].file_path == *path && results[i].page_num == page_num {
            return Some(i + 1);
        }
        i = i + 1;
    }
    None
}

/// What a run has found so far.
#[derive(Debug)]
pub struct EvalTally {
    pub overall: BucketAccum,
    pub small: BucketAccum,
    pub medium: BucketAccum,
    pub large: BucketAccum,
    pub latencies: Vec<u64>,
    pub stages: StageAccum,
    /// How similar the pages were that were found.
    pub hit_sims: Vec<Float32>,
    /// How similar the first results were of queries whose pages were not found.
    pub miss_sims: Vec<Float32>,
    pub misses: Vec<MissRecord>,
}

/// How similar pages were, found and not: a threshold belongs between them.
#[derive(Clone, Copy, PartialEq, Eq, Structural, Debug)]
pub struct ScoreCalibration {
    pub hit_target_sim_p05: Float32,
    pub hit_target_sim_p25: Float32,
    pub hit_target_sim_p50: Float32,
    pub miss_top1_sim_p50: Float32,
    pub miss_top1_sim_p95: Float32,
    /// A threshold that keeps nineteen of twenty pages that were found.
    pub suggested_threshold: Float32,
}

impl EvalTally {
    /// Nothing yet.
    pub fn new() -> (r: EvalTally)
        ensures
            r.overall.ranks@.len() == 0,
            r.small.ranks@.len() == 0,
            r.medium.ranks@.len() == 0,
            r.large.ranks@.len() == 0,
            r.latencies@.len() == 0,
            r.hit_sims@.len() == 0,
            r.miss_sims@.len() == 0,
            r.misses@.len() == 0,
            r.stages.encode@.len() == 0,
            r.stages.ocr@.len() == 0,
            r.stages.ann@.len() == 0,
            r.stages.phash@.len() == 0,
            r.stages.rank@.len() == 0,
    {
        EvalTally {
            overall: BucketAccum::new(),
            small: BucketAccum::new(),
            medium: BucketAccum::new(),
            large: BucketAccum::new(),
            latencies: Vec::new(),
            stages: StageAccum::new(),
            hit_sims: Vec::new(),
            miss_sims: Vec::new(),
            misses: Vec::new(),
        }
    }

    /// The ranks of a bucket.
    pub open spec fn bucket_ranks(self, b: Bucket) -> Seq<Option<usize>> {
        match b {
            Bucket::Small => self.small.ranks@,
            Bucket::Medium => self.medium.ranks@,
            Bucket::Large => self.large.ranks@,
        }
    }

    /// Takes in one query: the results that it gave, how much of its page it
    /// shows, and how long it took. Gives back where its page stands.
    pub fn record(
        &mut self,
        results: &Vec<SearchResult>,
        path: &String,
        page_num: i64,
        area_ratio: Float32,
        search_ms: u64,
        timing: &SearchTiming,
    ) -> (r: Option<usize>)
        ensures
            match r {
                Some(k) => 1 <= k <= results@.len() && is_source(results@[k - 1], path@, page_num)
                    && forall|i: int|
                    0 <= i < k - 1 ==> !is_source(#[trigger] results@[i], path@, page_num),
                None => forall|i: int|
                    0 <= i < results@.len() ==> !is_source(#[trigger] results@[i], path@, page_num),
            },
            final(self).overall.ranks@ == old(self).overall.ranks@.push(r),
            forall|b: Bucket|
                #[trigger] final(self).bucket_ranks(b) == if b == bucket_of(area_ratio) {
                    old(self).bucket_ranks(b).push(r)
                } else {
                    old(self).bucket_ranks(b)
                },
            final(self).latencies@ == old(self).latencies@.push(search_ms),
            final(self).stages.encode@ == old(self).stages.encode@.push(timing.encode_ms),
            final(self).stages.ocr@ == old(self).stages.ocr@.push(timing.ocr_ms),
            final(self).stages.ann@ == old(self).stages.ann@.push(timing.ann_ms),
            final(self).stages.phash@ == old(self).stages.phash@.push(timing.phash_ms),
            final(self).stages.rank@ == old(self).stages.rank@.push(timing.rank_ms),
            final(self).hit_sims@ == match r {
                Some(k) => old(self).hit_sims@.push(results@[k - 1].similarity),
                None => old(self).hit_sims@,
            },
            final(self).miss_sims@ == if r is None && results@.len() > 0 {
                old(self).miss_sims@.push(results@[0].similarity)
            } else {
                old(self).miss_sims@
            },
            r is Some || old(self).misses@.len() >= MAX_MISSES ==> final(self).misses@ == old(
                self,
            ).misses@,
            r is None && old(self).misses@.len() < MAX_MISSES ==> {
                &&& final(self).misses@.len() == old(self).misses@.len() + 1
                &&& final(self).misses@.drop_last() == old(self).misses@
                &&& final(self).misses@.last().path@ == path@
                &&& final(self).misses@.last().page_num == page_num
                &&& final(self).misses@.last().area_ratio == area_ratio
            },
    {
        let rank = rank_of(results, path, page_num);
        self.latencies.push(search_ms);
        self.stages.push(timing);
        match rank {
            Some(k) => {
                self.hit_sims.push(results[k - 1].similarity);
            },
            None => {
                if results.len() > 0 {
                    self.miss_sims.push(results[0].similarity);
                }
            },
        }
        self.overall.push(rank);
        match bucket(area_ratio) {
            Bucket::Small => self.small.push(rank),
            Bucket::Medium => self.medium.push(rank),
            Bucket::Large => self.large.push(rank),
        }
        if rank.is_none() && self.misses.len() < MAX_MISSES {
            let ghost before = self.misses@;
            self.misses.push(MissRecord { path: path.clone(), page_num, area_ratio });
            assert(self.misses@.drop_last() =~= before);
        }
        rank
    }

    /// How similar pages were, found and not.
    pub fn calibration(&self) -> (r: ScoreCalibration)
        ensures
            r.hit_target_sim_p05 == score_percentile_of(ascending_floats(self.hit_sims@), 5),
            r.hit_target_sim_p25 == score_percentile_of(ascending_floats(self.hit_sims@), 25),
            r.hit_target_sim_p50 == score_percentile_of(ascending_floats(self.hit_sims@), 50),
            r.miss_top1_sim_p50 == score_percentile_of(ascending_floats(self.miss_sims@), 50),
            r.miss_top1_sim_p95 == score_percentile_of(ascending_floats(self.miss_sims@), 95),
            r.suggested_threshold == r.hit_target_sim_p05,
    {
        let hits = sort_floats(&self.hit_sims);
        let misses = sort_floats(&self.miss_sims);
        ScoreCalibration {
            hit_target_sim_p05: score_percentile(&hits, 5),
            hit_target_sim_p25: score_percentile(&hits, 25),
            hit_target_sim_p50: score_percentile(&hits, 50),
            miss_top1_sim_p50: score_percentile(&misses, 50),
            miss_top1_sim_p95: score_percentile(&misses, 95),
            suggested_threshold: score_percentile(&hits, 5),
        }
    }
}

// ── Laws of the measures ────────────────────────────────────────────────────

/// Whether a place among `n` is the nearest to a share of the way from the first to the
/// last, halves up.
pub open spec fn is_nearest_place(i: int, n: int, percent: int) -> bool {
    &&& 0 <= i < n
    &&& percent <= 100 ==> 200 * i - 100 <= 2 * ((n - 1) * percent) < 200 * i + 100
    &&& percent >= 100 ==> i == n - 1
}

proof fn lemma_nearest_place(n: int, percent: int)
    requires
        n > 0,
        percent >= 0,
    ensures
        is_nearest_place(percentile_index(n, percent), n, percent),
{
    let x = 2 * ((n - 1) * percent);
    assert(2 * (n - 1) * percent == x) by (nonlinear_arith)
        requires
            x == 2 * ((n - 1) * percent),
    ;
    let i = (x + 100) / 200;
    assert(x >= 0) by (nonlinear_arith)
        requires
            x == 2 * ((n - 1) * percent),
            n > 0,
            percent >= 0,
    ;
    assert(percent >= 100 ==> x >= 200 * (n - 1)) by (nonlinear_arith)
        requires
            x == 2 * ((n - 1) * percent),
            n > 0,
    ;
    assert(percent <= 100 ==> x <= 200 * (n - 1)) by (nonlinear_arith)
        requires
            x == 2 * ((n - 1) * percent),
            n > 0,
    ;
}

/// A percentile is the value at the nearest place among the values.
pub proof fn percentiles_are_at_the_nearest_place(sorted: &[u64], percent: u32, r: u64) -> (i: int)
    requires
        call_ensures(percentile, (sorted, percent), r),
    ensures
        sorted@.len() == 0 ==> r == 0,
        sorted@.len() > 0 ==> is_nearest_place(i, sorted@.len() as int, percent as int) && r
            == sorted@[i],
{
    let n = sorted@.len() as int;
    if n > 0 {
        lemma_nearest_place(n, percent as int);
    }
    percentile_index(n, percent as int)
}

/// So is the percentile of numbers.
pub proof fn score_percentiles_are_at_the_nearest_place(
    sorted: &Vec<Float32>,
    percent: u32,
    r: Float32,
) -> (i: int)
    requires
        call_ensures(score_percentile, (sorted, percent), r),
    ensures
        sorted@.len() == 0 ==> r.bits == 0,
        sorted@.len() > 0 ==> is_nearest_place(i, sorted@.len() as int, percent as int) && r
            == sorted@[i],
{
    let n = sorted@.len() as int;
    if n > 0 {
        lemma_nearest_place(n, percent as int);
    }
    percentile_index(n, percent as int)
}

/// The positions of the ranks that are at most `k`.
pub open spec fn ranks_within(ranks: Seq<Option<usize>>, k: int) -> Set<int> {
    Set::range(0, ranks.len() as int).filter(
        |i: int| ranks[i] is Some && ranks[i]->Some_0 <= k,
    )
}

proof fn lemma_hits(ranks: Seq<Option<usize>>, k: int)
    ensures
        ranks_within(ranks, k).finite(),
        hits_within(ranks, k) == ranks_within(ranks, k).len(),
    decreases ranks.len(),
{
    vstd::set_lib::range_set_properties::<int>(0, ranks.len() as int);
    let at = ranks_within(ranks, k);
    if ranks.len() == 0 {
        assert(at =~= Set::empty());
    } else {
        let init = ranks.drop_last();
        lemma_hits(init, k);
        let before = ranks_within(init, k);
        let n = init.len() as int;
        if ranks[n] is Some && ranks[n]->Some_0 <= k {
            assert(at =~= before.insert(n));
        } else {
            assert(at =~= before);
        }
    }
}

/// A bucket counts its queries, and those whose page came first, among the first five
/// and among the first ten.
pub proof fn buckets_count_their_ranks(b: &BucketAccum, r: BucketCounts)
    requires
        call_ensures(BucketAccum::finish, (b,), r),
    ensures
        r.queries == b.ranks@.len(),
        r.at_1 == ranks_within(b.ranks@, 1).len(),
        r.at_5 == ranks_within(b.ranks@, 5).len(),
        r.at_10 == ranks_within(b.ranks@, 10).len(),
{
    lemma_hits(b.ranks@, 1);
    lemma_hits(b.ranks@, 5);
    lemma_hits(b.ranks@, 10);
}

/// A query is small below a quarter of its page and large from six tenths on; its bucket
/// is named by that.
pub proof fn shares_decide_buckets(area_ratio: Float32, r: Bucket, name: &'static str)
    requires
        call_ensures(bucket, (area_ratio,), r),
        call_ensures(bucket_name, (area_ratio,), name),
    ensures
        area_ratio.bits < 0x3e80_0000 ==> r is Small && name@ == "small(<25%)"@,
        0x3e80_0000 <= area_ratio.bits < 0x3f19_999a ==> r is Medium && name@ == "medium(25-60%)"@,
        0x3f19_999a <= area_ratio.bits <= 0x7f80_0000 ==> r is Large && name@ == "large(>60%)"@,
{
}

/// A query counts in the bucket of its share, and in no other.
pub proof fn queries_count_in_their_bucket(
    tally: &mut EvalTally,
    results: &Vec<SearchResult>,
    path: &String,
    page_num: i64,
    area_ratio: Float32,
    search_ms: u64,
    timing: &SearchTiming,
    r: Option<usize>,
)
    requires
        call_ensures(
            EvalTally::record,
            (tally, results, path, page_num, area_ratio, search_ms, timing),
            r,
        ),
        area_ratio.bits <= 0x7f80_0000,
    ensures
        r is Some ==> 1 <= r->Some_0 <= results@.len() && results@[r->Some_0 - 1].file_path@ == path@
            && results@[r->Some_0 - 1].page_num == page_num,
        forall|i: int|
            0 <= i < results@.len() && (r is None || i < r->Some_0 - 1) ==> (
            #[trigger] results@[i]).file_path@ != path@ || results@[i].page_num != page_num,
        final(tally).overall.ranks@ == old(tally).overall.ranks@.push(r),
        final(tally).small.ranks@ == if area_ratio.bits < 0x3e80_0000 {
            old(tally).small.ranks@.push(r)
        } else {
            old(tally).small.ranks@
        },
        final(tally).medium.ranks@ == if 0x3e80_0000 <= area_ratio.bits < 0x3f19_999a {
            old(tally).medium.ranks@.push(r)
        } else {
            old(tally).medium.ranks@
        },
        final(tally).large.ranks@ == if area_ratio.bits >= 0x3f19_999a {
            old(tally).large.ranks@.push(r)
        } else {
            old(tally).large.ranks@
        },
{
    assert(final(tally).bucket_ranks(Bucket::Small) == final(tally).small.ranks@);
    assert(final(tally).bucket_ranks(Bucket::Medium) == final(tally).medium.ranks@);
    assert(final(tally).bucket_ranks(Bucket::Large) == final(tally).large.ranks@);
    assert forall|i: int|
        0 <= i < results@.len() && (r is None || i < r->Some_0 - 1) implies (
    #[trigger] results@[i]).file_path@ != path@ || results@[i].page_num != page_num by {
        assert(!is_source(results@[i], path@, page_num));
    }
}

proof fn lemma_sum(v: Seq<u64>)
    ensures
        sum_of(v) == v.fold_left(0int, |sum: int, x: u64| sum + x),
    decreases v.len(),
{
    reveal_with_fuel(Seq::fold_left, 2);
    if v.len() > 0 {
        lemma_sum(v.drop_last());
    }
}

/// The mean is the sum of the times, shared evenly and rounded down.
pub proof fn means_share_the_sum(times: &Vec<u64>, r: u64)
    requires
        sum_of(times@) <= u64::MAX,
        call_ensures(mean, (times,), r),
    ensures
        times@.len() == 0 ==> r == 0,
        times@.len() > 0 ==> r * times@.len() <= times@.fold_left(
            0int,
            |sum: int, x: u64| sum + x,
        ) < (r + 1) * times@.len(),
{
    lemma_sum(times@);
    let n = times@.len() as int;
    let s = sum_of(times@);
    if n > 0 {
        assert((s / n) * n <= s < (s / n + 1) * n) by (nonlinear_arith)
            requires
                n > 0,
        ;
    }
}

/// The middle and the upper end of some times are those of the times in ascending order.
pub proof fn latencies_are_percentiles(
    times: &Vec<u64>,
    sorted: Vec<u64>,
    r: StageLatency,
) -> (at: (int, int))
    requires
        call_ensures(sort_numbers, (times,), sorted),
        call_ensures(latency, (times,), r),
    ensures
        times@.len() == 0 ==> r.p50 == 0 && r.p95 == 0,
        times@.len() > 0 ==> {
            &&& is_nearest_place(at.0, sorted@.len() as int, 50)
            &&& is_nearest_place(at.1, sorted@.len() as int, 95)
            &&& r.p50 == sorted@[at.0]
            &&& r.p95 == sorted@[at.1]
        },
{
    let n = times@.len() as int;
    if n > 0 {
        lemma_nearest_place(n, 50);
        lemma_nearest_place(n, 95);
    }
    (percentile_index(n, 50), percentile_index(n, 95))
}

/// Each stage is reported by its own times.
pub proof fn stages_are_reported_by_their_times(
    s: &StageAccum,
    r: StageReport,
    encode: StageLatency,
    ocr: StageLatency,
    ann: StageLatency,
    phash: StageLatency,
    rank: StageLatency,
)
    requires
        call_ensures(StageAccum::finish, (s,), r),
        call_ensures(latency, (&s.encode,), encode),
        call_ensures(latency, (&s.ocr,), ocr),
        call_ensures(latency, (&s.ann,), ann),
        call_ensures(latency, (&s.phash,), phash),
        call_ensures(latency, (&s.rank,), rank),
    ensures
        r.encode == encode,
        r.ocr == ocr,
        r.ann == ann,
        r.phash == phash,
        r.rank == rank,
{
}

/// The threshold that is suggested lies a twentieth of the way up the pages that were
/// found; what was not found is shown at its middle and near its upper end.
pub proof fn calibration_is_by_percentiles(
    tally: &EvalTally,
    hits: Vec<Float32>,
    misses: Vec<Float32>,
    r: ScoreCalibration,
) -> (at: Seq<int>)
    requires
        call_ensures(sort_floats, (&tally.hit_sims,), hits),
        call_ensures(sort_floats, (&tally.miss_sims,), misses),
        call_ensures(EvalTally::calibration, (tally,), r),
    ensures
        at.len() == 5,
        r.suggested_threshold == r.hit_target_sim_p05,
        hits@.len() > 0 ==> {
            &&& is_nearest_place(at[0], hits@.len() as int, 5)
            &&& is_nearest_place(at[1], hits@.len() as int, 25)
            &&& is_nearest_place(at[2], hits@.len() as int, 50)
            &&& r.hit_target_sim_p05 == hits@[at[0]]
            &&& r.hit_target_sim_p25 == hits@[at[1]]
            &&& r.hit_target_sim_p50 == hits@[at[2]]
        },
        misses@.len() > 0 ==> {
            &&& is_nearest_place(at[3], misses@.len() as int, 50)
            &&& is_nearest_place(at[4], misses@.len() as int, 95)
            &&& r.miss_top1_sim_p50 == misses@[at[3]]
            &&& r.miss_top1_sim_p95 == misses@[at[4]]
        },
{
    let h = hits@.len() as int;
    let m = misses@.len() as int;
    if h > 0 {
        lemma_nearest_place(h, 5);
        lemma_nearest_place(h, 25);
        lemma_nearest_place(h, 50);
    }
    if m > 0 {
        lemma_nearest_place(m, 50);
        lemma_nearest_place(m, 95);
    }
    seq![
        percentile_index(h, 5),
        percentile_index(h, 25),
        percentile_index(h, 50),
        percentile_index(m, 50),
        percentile_index(m, 95),
    ]
}

// ── Laws of the options ─────────────────────────────────────────────────────

/// The argument behind another; nothing behind the last one.
pub open spec fn value_behind(args: Seq<String>, i: int) -> Seq<char> {
    if i + 1 < args.len() {
        args[i + 1]@
    } else {
        Seq::empty()
    }
}

/// Whether a text is the value of the last option of a name among those at `at`, or the
/// default where there is none of that name.
pub open spec fn is_last_given(
    args: Seq<String>,
    at: Seq<int>,
    name: Seq<char>,
    default: Seq<char>,
    text: Seq<char>,
) -> bool {
    ||| exists|j: int|
        0 <= j < at.len() && args[#[trigger] at[j]]@ == name && text == value_behind(args, at[j])
            && forall|k: int| j < k < at.len() ==> args[#[trigger] at[k]]@ != name
    ||| text == default && forall|k: int| 0 <= k < at.len() ==> args[#[trigger] at[k]]@ != name
}

/// Reads a number that is no greater than `max`.
pub open spec fn up_to(max: int) -> spec_fn(Seq<char>) -> Option<int> {
    |arg: Seq<char>|
        match unsigned_of(arg) {
            Some(v) if v <= max => Some(v as int),
            _ => None,
        }
}

/// Reads a number of 32 bits, one of which is its sign.
pub open spec fn signed_32() -> spec_fn(Seq<char>) -> Option<int> {
    |arg: Seq<char>|
        match signed_of(arg) {
            Some(v) if -0x8000_0000 <= v <= 0x7fff_ffff => Some(v as int),
            _ => None,
        }
}

/// Whether a number is the value of the last option of a name that has a number for its
/// value, or the default where there is none.
pub open spec fn is_last_number(
    args: Seq<String>,
    at: Seq<int>,
    name: Seq<char>,
    reads: spec_fn(Seq<char>) -> Option<int>,
    default: int,
    number: int,
) -> bool {
    ||| exists|j: int|
        0 <= j < at.len() && args[#[trigger] at[j]]@ == name && reads(value_behind(args, at[j])) is Some
            && number == reads(value_behind(args, at[j]))->Some_0 && forall|k: int|
            j < k < at.len() ==> args[#[trigger] at[k]]@ != name || reads(value_behind(args, at[k])) is None
    ||| number == default && forall|k: int|
        0 <= k < at.len() ==> args[#[trigger] at[k]]@ != name || reads(value_behind(args, at[k])) is None
}

/// One more option in front leaves the last of another name, and is the last where no
/// other follows.
proof fn lemma_given_in_front(
    args: Seq<String>,
    i: int,
    later: Seq<int>,
    name: Seq<char>,
    default: Seq<char>,
    text: Seq<char>,
)
    requires
        is_last_given(
            args,
            later,
            name,
            if args[i]@ == name {
                value_behind(args, i)
            } else {
                default
            },
            text,
        ),
    ensures
        is_last_given(args, seq![i] + later, name, default, text),
{
    let at = seq![i] + later;
    assert forall|k: int| 0 < k < at.len() implies #[trigger] at[k] == later[k - 1] by {
    }
    assert(at[0] == i);
    if exists|j: int|
        0 <= j < later.len() && args[#[trigger] later[j]]@ == name && text == value_behind(
            args,
            later[j],
        ) && forall|k: int| j < k < later.len() ==> args[#[trigger] later[k]]@ != name {
        let j = choose|j: int|
            0 <= j < later.len() && args[#[trigger] later[j]]@ == name && text == value_behind(
                args,
                later[j],
            ) && forall|k: int| j < k < later.len() ==> args[#[trigger] later[k]]@ != name;
        assert(at[j + 1] == later[j]);
        assert forall|k: int| j + 1 < k < at.len() implies args[#[trigger] at[k]]@ != name by {
            assert(at[k] == later[k - 1]);
        }
    } else {
        assert forall|k: int| 0 < k < at.len() implies args[#[trigger] at[k]]@ != name by {
            assert(at[k] == later[k - 1]);
        }
        assert(args[at[0]]@ == args[i]@);
    }
}

proof fn lemma_number_in_front(
    args: Seq<String>,
    i: int,
    later: Seq<int>,
    name: Seq<char>,
    reads: spec_fn(Seq<char>) -> Option<int>,
    default: int,
    number: int,
)
    requires
        is_last_number(
            args,
            later,
            name,
            reads,
            if args[i]@ == name && reads(value_behind(args, i)) is Some {
                reads(value_behind(args, i))->Some_0
            } else {
                default
            },
            number,
        ),
    ensures
        is_last_number(args, seq![i] + later, name, reads, default, number),
{
    let at = seq![i] + later;
    assert(at[0] == i);
    if exists|j: int|
        0 <= j < later.len() && args[#[trigger] later[j]]@ == name && reads(value_behind(args, later[j])) is Some && number == reads(value_behind(args, later[j]))->Some_0 && forall|k: int|
            j < k < later.len() ==> args[#[trigger] later[k]]@ != name || reads(value_behind(args, later[k])) is None {
        let j = choose|j: int|
            0 <= j < later.len() && args[#[trigger] later[j]]@ == name && reads(value_behind(args, later[j])) is Some && number == reads(value_behind(args, later[j]))->Some_0 && forall|k: int|
                j < k < later.len() ==> args[#[trigger] later[k]]@ != name || reads(value_behind(args, later[k])) is None;
        assert(at[j + 1] == later[j]);
        assert forall|k: int| j + 1 < k < at.len() implies args[#[trigger] at[k]]@ != name || reads(value_behind(args, at[k])) is None by {
            assert(at[k] == later[k - 1]);
        }
    } else {
        assert forall|k: int| 0 < k < at.len() implies args[#[trigger] at[k]]@ != name || reads(value_behind(args, at[k])) is None by {
            assert(at[k] == later[k - 1]);
        }
        assert(args[at[0]]@ == args[i]@);
    }
}

/// Whether the options are those at `at`, read in order, with the defaults of `o`.
#[verifier::opaque]
spec fn says(args: Seq<String>, at: Seq<int>, o: OptsView, r: OptsView) -> bool {
    &&& is_last_given(args, at, "--config"@, o.config_path, r.config_path)
    &&& is_last_given(args, at, "--label"@, o.label, r.label)
    &&& is_last_given(args, at, "--out"@, o.out_path, r.out_path)
    &&& is_last_number(
        args,
        at,
        "--samples"@,
        up_to(usize::MAX as int),
        o.samples as int,
        r.samples as int,
    )
    &&& is_last_number(
        args,
        at,
        "--queries-per-page"@,
        up_to(usize::MAX as int),
        o.queries_per_page as int,
        r.queries_per_page as int,
    )
    &&& is_last_number(
        args,
        at,
        "--render-px"@,
        signed_32(),
        o.render_px as int,
        r.render_px as int,
    )
    &&& is_last_number(args, at, "--seed"@, up_to(u64::MAX as int), o.seed as int, r.seed as int)
}

proof fn lemma_says_in_front(
    args: Seq<String>,
    i: int,
    later: Seq<int>,
    o: OptsView,
    r: OptsView,
)
    requires
        0 <= i < args.len(),
        says(args, later, with_option(o, args[i]@, value_behind(args, i)), r),
    ensures
        says(args, seq![i] + later, o, r),
{
    reveal(says);
    lemma_names_differ();
    lemma_given_in_front(args, i, later, "--config"@, o.config_path, r.config_path);
    lemma_given_in_front(args, i, later, "--label"@, o.label, r.label);
    lemma_given_in_front(args, i, later, "--out"@, o.out_path, r.out_path);
    lemma_number_in_front(
        args,
        i,
        later,
        "--samples"@,
        up_to(usize::MAX as int),
        o.samples as int,
        r.samples as int,
    );
    lemma_number_in_front(
        args,
        i,
        later,
        "--queries-per-page"@,
        up_to(usize::MAX as int),
        o.queries_per_page as int,
        r.queries_per_page as int,
    );
    lemma_number_in_front(
        args,
        i,
        later,
        "--render-px"@,
        signed_32(),
        o.render_px as int,
        r.render_px as int,
    );
    lemma_number_in_front(
        args,
        i,
        later,
        "--seed"@,
        up_to(u64::MAX as int),
        o.seed as int,
        r.seed as int,
    );
}

/// The names of the options differ.
proof fn lemma_names_differ()
    ensures
        "--config"@.len() == 8 && "--config"@[2] == 'c',
        "--samples"@.len() == 9 && "--samples"@[3] == 'a',
        "--queries-per-page"@.len() == 18,
        "--seed"@.len() == 6,
        "--render-px"@.len() == 11,
        "--label"@.len() == 7,
        "--out"@.len() == 5,
{
    reveal_strlit("--config");
    reveal_strlit("--samples");
    reveal_strlit("--queries-per-page");
    reveal_strlit("--seed");
    reveal_strlit("--render-px");
    reveal_strlit("--label");
    reveal_strlit("--out");
}

/// Without options the defaults stay.
proof fn lemma_says_nothing(args: Seq<String>, o: OptsView)
    ensures
        says(args, Seq::empty(), o, o),
{
    reveal(says);
}

proof fn lemma_options(args: Seq<String>, i: int, o: OptsView) -> (at: Seq<int>)
    requires
        0 <= i,
    ensures
        forall|j: int|
            0 <= j < at.len() ==> i <= #[trigger] at[j] < args.len() && is_option(args[at[j]]@),
        forall|j: int, k: int| 0 <= j < k < at.len() ==> #[trigger] at[j] + 2 <= #[trigger] at[k],
        forall|k: int|
            i <= k < args.len() && is_option((#[trigger] args[k])@) ==> at.contains(k)
                || at.contains(k - 1),
        says(args, at, o, opts_from(args, i, o)),
    decreases args.len() - i,
{
    if i >= args.len() {
        lemma_says_nothing(args, o);
        Seq::empty()
    } else if is_option(args[i]@) {
        let with = with_option(o, args[i]@, value_behind(args, i));
        let later = if i + 1 < args.len() {
            lemma_options(args, i + 2, with)
        } else {
            lemma_says_nothing(args, with);
            Seq::empty()
        };
        let at = seq![i] + later;
        lemma_says_in_front(args, i, later, o, opts_from(args, i, o));
        assert(at[0] == i);
        assert forall|j: int| 0 < j < at.len() implies #[trigger] at[j] == later[j - 1] by {
        }
        assert forall|k: int| i <= k < args.len() && is_option((#[trigger] args[k])@) implies
            at.contains(k) || at.contains(k - 1) by {
            if k >= i + 2 {
                if later.contains(k) {
                    let j = choose|j: int| 0 <= j < later.len() && later[j] == k;
                    assert(at[j + 1] == k);
                } else {
                    let j = choose|j: int| 0 <= j < later.len() && later[j] == k - 1;
                    assert(at[j + 1] == k - 1);
                }
            }
        }
        at
    } else {
        lemma_options(args, i + 1, o)
    }
}

/// The last option of a name counts, and a number that cannot be read does not. With
/// `at` the places of the options, which take the argument behind them as their value,
/// each setting is that of the last option that gives it, or its default.
pub proof fn last_options_count(args: &Vec<String>, r: EvalOpts) -> (at: Seq<int>)
    requires
        call_ensures(EvalOpts::parse, (args,), r),
    ensures
        forall|j: int| 0 <= j < at.len() ==> 0 <= #[trigger] at[j] < args@.len(),
        forall|j: int, k: int| 0 <= j < k < at.len() ==> #[trigger] at[j] + 2 <= #[trigger] at[k],
        forall|k: int|
            0 <= k < args@.len() && ((#[trigger] args@[k])@ == "--config"@ || args@[k]@
                == "--samples"@ || args@[k]@ == "--queries-per-page"@ || args@[k]@ == "--seed"@
                || args@[k]@ == "--render-px"@ || args@[k]@ == "--label"@ || args@[k]@ == "--out"@)
                ==> at.contains(k) || at.contains(k - 1),
        is_last_given(args@, at, "--config"@, "config.toml"@, r.config_path@),
        is_last_given(args@, at, "--label"@, "unlabeled"@, r.label@),
        is_last_given(args@, at, "--out"@, "eval_report.json"@, r.out_path@),
        is_last_number(args@, at, "--samples"@, up_to(usize::MAX as int), 300, r.samples as int),
        is_last_number(
            args@,
            at,
            "--queries-per-page"@,
            up_to(usize::MAX as int),
            3,
            r.queries_per_page as int,
        ),
        is_last_number(args@, at, "--render-px"@, signed_32(), 900, r.render_px as int),
        is_last_number(args@, at, "--seed"@, up_to(u64::MAX as int), 42, r.seed as int),
{
    reveal(says);
    lemma_options(args@, 0, default_opts())
}

/// No more than fifty misses are listed: each of the first fifty, with its page.
pub proof fn fifty_misses_are_listed(
    tally: &mut EvalTally,
    results: &Vec<SearchResult>,
    path: &String,
    page_num: i64,
    area_ratio: Float32,
    search_ms: u64,
    timing: &SearchTiming,
    r: Option<usize>,
)
    requires
        call_ensures(
            EvalTally::record,
            (tally, results, path, page_num, area_ratio, search_ms, timing),
            r,
        ),
    ensures
        old(tally).misses@.len() <= 50 ==> final(tally).misses@.len() <= 50,
        r is Some ==> final(tally).misses@ == old(tally).misses@,
        r is None && old(tally).misses@.len() < 50 ==> final(tally).misses@.len()
            == old(tally).misses@.len() + 1 && final(tally).misses@.last().path@ == path@
            && final(tally).misses@.last().page_num == page_num,
{
}

/// The queries are cut from as many pages as were asked for, or from all where there are
/// not as many, in the order given.
pub proof fn pages_are_sampled_in_order(
    rows: &Vec<PageRef>,
    order: &Vec<usize>,
    samples: usize,
    r: Vec<PageRef>,
)
    requires
        order@.len() == rows@.len(),
        forall|i: int| 0 <= i < order@.len() ==> #[trigger] order@[i] < rows@.len(),
        call_ensures(take_sample, (rows, order, samples), r),
    ensures
        r@.len() <= samples,
        r@.len() <= rows@.len(),
        r@.len() == samples || r@.len() == rows@.len(),
        forall|i: int|
            0 <= i < r@.len() ==> (#[trigger] r@[i]).path@ == rows@[order@[i] as int].path@
                && r@[i].page_num == rows@[order@[i] as int].page_num,
{
    assert forall|i: int| 0 <= i < r@.len() implies (#[trigger] r@[i]).path@
        == rows@[order@[i] as int].path@ && r@[i].page_num == rows@[order@[i] as int].page_num by {
        assert(same_page(r@[i], rows@[order@[i] as int]));
    }
}

} // verus!
