//! The settings of the program and their defaults.

use crate::error::AppError;
use crate::float32::Float32;
use crate::paths::{join, joined};
use vstd::prelude::*;

verus! {

/// All settings.
#[derive(Clone, Debug)]
pub struct Config {
    pub server: ServerConfig,
    pub paths: PathsConfig,
    pub indexer: IndexerConfig,
    pub search: SearchConfig,
    pub filter: FilterConfig,
}

#[derive(Clone, Debug)]
pub struct ServerConfig {
    /// The address to listen on, such as `0.0.0.0`.
    pub host: String,
    pub port: u16,
}

#[derive(Clone, Debug)]
pub struct PathsConfig {
    /// Directories that are scanned for design files.
    pub scan_dirs: Vec<String>,
    /// The directory of the database, the thumbnails and the vector index.
    pub data_dir: String,
    /// The model of the visual encoder.
    pub model_path: String,
    /// The models that find and read text.
    pub ocr_det_path: String,
    pub ocr_rec_path: String,
}

#[derive(Clone, Debug)]
pub struct IndexerConfig {
    /// Worker processes.
    pub worker_threads: usize,
    /// Images encoded at once.
    pub batch_size: usize,
    /// Whether changes on disk are followed as they happen.
    pub watch_enabled: bool,
    /// The resolution at which pages are rendered.
    pub render_dpi: Float32,
    /// How deep directories are scanned; the scanned directory itself is depth
    /// zero. At most [`MAX_SCAN_DEPTH_LIMIT`].
    pub max_scan_depth: u32,
    /// Seconds between two full scans; zero for none.
    pub rescan_interval_secs: u64,
    /// Seconds between two samples of a changed file.
    pub watcher_settle_secs: u64,
    /// Smaller files are taken for placeholders.
    pub watcher_min_bytes: u64,
    /// Samples after which a file that does not settle is dropped.
    pub watcher_max_retries: u32,
    /// Whether each page also gives its nine overlapping tiles.
    pub tiles_enabled: bool,
}

/// The greatest depth to which directories are scanned.
pub const MAX_SCAN_DEPTH_LIMIT: u32 = 32;

#[derive(Clone, Debug)]
pub struct SearchConfig {
    /// Results given where the client does not say how many.
    pub default_top_k: usize,
    /// Regions less similar than this do not count.
    pub similarity_threshold: Float32,
    /// Regions whose hashes differ in more bits than this do not count.
    pub phash_threshold: u32,
    /// Whether the centre of the query is searched for too.
    pub query_center_crop: bool,
    /// What each signal weighs in the score of a page.
    pub weight_vector: Float32,
    pub weight_phash: Float32,
    pub weight_text: Float32,
}

/// What is excluded is decided by the files themselves; there is nothing to set.
#[derive(Clone, Copy, PartialEq, Eq, Structural, Debug)]
pub struct FilterConfig {}

impl Default for FilterConfig {
    fn default() -> (r: Self)
        ensures
            r == (FilterConfig {  }),
    {
        FilterConfig {  }
    }
}

impl IndexerConfig {
    pub fn default_max_scan_depth() -> (r: u32)
        ensures
            r == 3,
    {
        3
    }

    pub fn default_rescan_interval_secs() -> (r: u64)
        ensures
            r == 1800,
    {
        1800
    }

    pub fn default_watcher_settle_secs() -> (r: u64)
        ensures
            r == 3,
    {
        3
    }

    pub fn default_watcher_min_bytes() -> (r: u64)
        ensures
            r == 1024,
    {
        1024
    }

    pub fn default_watcher_max_retries() -> (r: u32)
        ensures
            r == 20,
    {
        20
    }

    /// The depth to which directories are scanned: the one set, but no more than
    /// [`MAX_SCAN_DEPTH_LIMIT`]. Zero means the directory itself only.
    pub fn effective_max_scan_depth(&self) -> (r: u32)
        ensures
            r == if self.max_scan_depth <= MAX_SCAN_DEPTH_LIMIT {
                self.max_scan_depth
            } else {
                MAX_SCAN_DEPTH_LIMIT
            },
    {
        if self.max_scan_depth <= MAX_SCAN_DEPTH_LIMIT {
            self.max_scan_depth
        } else {
            MAX_SCAN_DEPTH_LIMIT
        }
    }

    /// Seconds between two samples of a changed file: at least one.
    pub fn settle_secs(&self) -> (r: u64)
        ensures
            r == if self.watcher_settle_secs < 1 {
                1
            } else {
                self.watcher_settle_secs
            },
    {
        if self.watcher_settle_secs < 1 {
            1
        } else {
            self.watcher_settle_secs
        }
    }
}

/// `num_cpus::get`: the number of processors of the machine. Nothing is claimed of
/// it.
#[verifier::external_body]
fn cpu_count() -> (r: usize) {
    num_cpus::get()
}

/// Whether `cpus` is a number of processors that the machine can be found to have.
pub closed spec fn may_count(cpus: usize) -> bool {
    call_ensures(cpu_count, (), cpus)
}

/// Half of the processors, and at least two.
pub open spec fn default_threads(cpus: usize) -> usize {
    if cpus / 2 < 2 {
        2
    } else {
        cpus / 2
    }
}

impl Config {
    /// Whether these are the default settings on a machine with `cpus` processors.
    pub open spec fn is_default(self, cpus: usize) -> bool {
        &&& self.server.host@ == "0.0.0.0"@
        &&& self.server.port == 8080
        &&& self.paths.scan_dirs@.len() == 0
        &&& self.paths.data_dir@ == "data"@
        &&& self.paths.model_path@ == "models/clip_visual.onnx"@
        &&& self.paths.ocr_det_path@ == "models/ppocr_det.onnx"@
        &&& self.paths.ocr_rec_path@ == "models/ppocr_rec.onnx"@
        &&& self.indexer.worker_threads == default_threads(cpus)
        &&& self.indexer.batch_size == 8
        &&& self.indexer.watch_enabled
        &&& self.indexer.render_dpi.bits == 0x4316_0000
        &&& self.indexer.max_scan_depth == 3
        &&& self.indexer.rescan_interval_secs == 1800
        &&& self.indexer.watcher_settle_secs == 3
        &&& self.indexer.watcher_min_bytes == 1024
        &&& self.indexer.watcher_max_retries == 20
        &&& self.indexer.tiles_enabled
        &&& self.search.default_top_k == 20
        &&& self.search.similarity_threshold.bits == 0x3e99_999a
        &&& self.search.phash_threshold == 12
        &&& self.search.query_center_crop
        &&& self.search.weight_vector.bits == 0x3f33_3333
        &&& self.search.weight_phash.bits == 0x3dcc_cccd
        &&& self.search.weight_text.bits == 0x3e4c_cccd
    }

    /// Whether the settings can be worked with: files are indexed by at least one
    /// worker, in batches of at least one.
    pub open spec fn accepted(self) -> bool {
        self.indexer.worker_threads >= 1 && self.indexer.batch_size >= 1
    }

    /// The default settings on a machine with `cpus` processors.
    pub fn default_for(cpus: usize) -> (r: Config)
        ensures
            r.is_default(cpus),
    {
        Config {
            server: ServerConfig { host: "0.0.0.0".to_owned(), port: 8080 },
            paths: PathsConfig {
                scan_dirs: Vec::new(),
                data_dir: "data".to_owned(),
                model_path: "models/clip_visual.onnx".to_owned(),
                ocr_det_path: "models/ppocr_det.onnx".to_owned(),
                ocr_rec_path: "models/ppocr_rec.onnx".to_owned(),
            },
            indexer: IndexerConfig {
                worker_threads: if cpus / 2 < 2 {
                    2
                } else {
                    cpus / 2
                },
                batch_size: 8,
                watch_enabled: true,
                render_dpi: Float32 { bits: 0x4316_0000 },
                max_scan_depth: IndexerConfig::default_max_scan_depth(),
                rescan_interval_secs: IndexerConfig::default_rescan_interval_secs(),
                watcher_settle_secs: IndexerConfig::default_watcher_settle_secs(),
                watcher_min_bytes: IndexerConfig::default_watcher_min_bytes(),
                watcher_max_retries: IndexerConfig::default_watcher_max_retries(),
                tiles_enabled: true,
            },
            search: SearchConfig {
                default_top_k: 20,
                similarity_threshold: Float32 { bits: 0x3e99_999a },
                phash_threshold: 12,
                query_center_crop: true,
                weight_vector: Float32 { bits: 0x3f33_3333 },
                weight_phash: Float32 { bits: 0x3dcc_cccd },
                weight_text: Float32 { bits: 0x3e4c_cccd },
            },
            filter: FilterConfig::default(),
        }
    }

    /// Refuses settings with which nothing could be indexed.
    pub fn validate(&self) -> (r: Result<(), AppError>)
        ensures
            r is Ok <==> self.accepted(),
            r is Err ==> r->Err_0 is Config && r->Err_0->Config_0@
                == if self.indexer.worker_threads == 0 {
                "indexer.worker_threads must be >= 1"@
            } else {
                "indexer.batch_size must be >= 1"@
            },
    {
        if self.indexer.worker_threads == 0 {
            return Err(AppError::Config("indexer.worker_threads must be >= 1".to_owned()));
        }
        if self.indexer.batch_size == 0 {
            return Err(AppError::Config("indexer.batch_size must be >= 1".to_owned()));
        }
        Ok(())
    }

    /// The file of the database.
    pub fn db_path(&self) -> (r: String)
        ensures
            r@ == joined(self.paths.data_dir@, "index.db"@),
    {
        join(self.paths.data_dir.as_str(), "index.db")
    }

    /// The file that the files of the vector index are named after.
    pub fn vector_index_path(&self) -> (r: String)
        ensures
            r@ == joined(self.paths.data_dir@, "vectors.usearch"@),
    {
        join(self.paths.data_dir.as_str(), "vectors.usearch")
    }

    /// The directory of the thumbnails.
    pub fn thumbnails_dir(&self) -> (r: String)
        ensures
            r@ == joined(self.paths.data_dir@, "thumbnails"@),
    {
        join(self.paths.data_dir.as_str(), "thumbnails")
    }
}

impl Default for Config {
    /// The default settings on this machine.
    fn default() -> (r: Self)
        ensures
            exists|cpus: usize| #[trigger] may_count(cpus) && r.is_default(cpus),
    {
        let cpus: usize = cpu_count();
        assert(may_count(cpus));
        Config::default_for(cpus)
    }
}

/// The default settings are accepted, on any machine.
pub proof fn defaults_are_valid(c: Config, cpus: usize)
    requires
        c.is_default(cpus),
    ensures
        c.accepted(),
{
}

/// Directories are never scanned deeper than thirty-two levels, and less deep where less
/// is set.
pub proof fn scans_have_a_floor(c: &IndexerConfig, r: u32)
    requires
        call_ensures(IndexerConfig::effective_max_scan_depth, (c,), r),
    ensures
        r <= 32,
        r <= c.max_scan_depth,
        r == 32 || r == c.max_scan_depth,
{
}

/// By default half of the processors work, and never less than two, and what is not set
/// has the same value as where it is left out of the settings.
pub proof fn half_of_the_processors_work(cpus: usize, r: Config, depth: u32, rescan: u64, settle: u64)
    requires
        call_ensures(Config::default_for, (cpus,), r),
        call_ensures(IndexerConfig::default_max_scan_depth, (), depth),
        call_ensures(IndexerConfig::default_rescan_interval_secs, (), rescan),
        call_ensures(IndexerConfig::default_watcher_settle_secs, (), settle),
    ensures
        r.indexer.worker_threads >= 2,
        cpus < 6 ==> r.indexer.worker_threads == 2,
        cpus >= 4 ==> 2 * r.indexer.worker_threads <= cpus < 2 * r.indexer.worker_threads + 2,
        r.indexer.max_scan_depth == depth,
        r.indexer.rescan_interval_secs == rescan,
        r.indexer.watcher_settle_secs == settle,
        r.paths.scan_dirs@.len() == 0,
        r.indexer.tiles_enabled,
        r.search.query_center_crop,
{
}

/// Settings are refused exactly where there is no worker or a batch would be empty.
pub proof fn empty_batches_are_refused(c: &Config, r: Result<(), AppError>)
    requires
        call_ensures(Config::validate, (c,), r),
    ensures
        r is Ok <==> c.indexer.worker_threads > 0 && c.indexer.batch_size > 0,
        r is Err ==> r->Err_0 is Config,
{
}

/// The files of the program lie in the directory of its data, under names of their own.
pub proof fn data_lies_in_its_directory(c: &Config, db: String, vectors: String, thumbs: String)
    requires
        call_ensures(Config::db_path, (c,), db),
        call_ensures(Config::vector_index_path, (c,), vectors),
        call_ensures(Config::thumbnails_dir, (c,), thumbs),
        c.paths.data_dir@.len() > 2,
        c.paths.data_dir@.last() != '/',
        c.paths.data_dir@.last() != '\\',
    ensures
        db@ == c.paths.data_dir@ + "/index.db"@,
        vectors@ == c.paths.data_dir@ + "/vectors.usearch"@,
        thumbs@ == c.paths.data_dir@ + "/thumbnails"@,
{
    let d = c.paths.data_dir@;
    reveal_strlit("index.db");
    reveal_strlit("vectors.usearch");
    reveal_strlit("thumbnails");
    reveal_strlit("/index.db");
    reveal_strlit("/vectors.usearch");
    reveal_strlit("/thumbnails");
    assert(d.push('/') + "index.db"@ =~= d + "/index.db"@);
    assert(d.push('/') + "vectors.usearch"@ =~= d + "/vectors.usearch"@);
    assert(d.push('/') + "thumbnails"@ =~= d + "/thumbnails"@);
}

/// What is not set: the program listens on every address at port 8080, keeps its data in
/// `data`, asks for twenty results, and lets regions count from a similarity of three
/// tenths and up to twelve bits of difference on.
pub proof fn unset_values_have_their_defaults(cpus: usize, r: Config)
    requires
        call_ensures(Config::default_for, (cpus,), r),
    ensures
        r.server.host@ == "0.0.0.0"@ && r.server.port == 8080,
        r.paths.data_dir@ == "data"@,
        r.search.default_top_k == 20,
        r.search.similarity_threshold.bits == 0x3e99_999a,
        r.search.phash_threshold == 12,
        r.search.weight_vector.bits == 0x3f33_3333,
        r.search.weight_phash.bits == 0x3dcc_cccd,
        r.search.weight_text.bits == 0x3e4c_cccd,
        r.indexer.batch_size == 8,
        r.indexer.watch_enabled,
        r.indexer.watcher_min_bytes == 1024,
        r.indexer.watcher_max_retries == 20,
{
}

} // verus!
