//! The arguments of the program.

use crate::config::Config;
use crate::indexer::worker_pool::IndexProgress;
use crate::text::{has_prefix, same, strip_prefix};
use vstd::prelude::*;

verus! {

/// What the program is started for.
#[derive(Clone, Copy, PartialEq, Eq, Structural, Debug)]
pub enum RunMode {
    /// To work for another process of this program.
    Worker,
    /// To measure how well searching works.
    Evaluate,
    /// To index and to serve; `under_service` where it is to end with its parent.
    Serve { under_service: bool },
}

/// Whether `flag` is among the arguments.
pub open spec fn has_flag(args: Seq<String>, flag: Seq<char>) -> bool {
    exists|i: int| 0 <= i < args.len() && (#[trigger] args[i])@ == flag
}

fn any_is(args: &Vec<String>, flag: &str) -> (r: bool)
    ensures
        r == has_flag(args@, flag@),
{
    let mut i: usize = 0;
    while i < args.len()
        invariant
            i <= args@.len(),
            forall|j: int| 0 <= j < i ==> (#[trigger] args@[j])@ != flag@,
        decreases args@.len() - i,
    {
        if same(args[i].as_str(), flag) {
            return true;
        }
        i = i + 1;
    }
    false
}

/// What the program is started for, by all of its arguments.
pub fn run_mode(args: &Vec<String>) -> (r: RunMode)
    ensures
        r == if has_flag(args@, "--worker-mode"@) {
            RunMode::Worker
        } else if has_flag(args@, "--evaluate"@) {
            RunMode::Evaluate
        } else {
            RunMode::Serve { under_service: has_flag(args@, "--service-mode"@) }
        },
{
    if any_is(args, "--worker-mode") {
        RunMode::Worker
    } else if any_is(args, "--evaluate") {
        RunMode::Evaluate
    } else {
        RunMode::Serve { under_service: any_is(args, "--service-mode") }
    }
}

/// The file of the settings, from the arguments from `i` on: `--config` with the
/// argument behind it, or `--config=` with what follows it.
pub open spec fn config_from(args: Seq<String>, i: int) -> Seq<char>
    decreases args.len() - i,
{
    if i < 0 || i >= args.len() {
        "config.toml"@
    } else if args[i]@ == "--config"@ {
        if i + 1 < args.len() {
            args[i + 1]@
        } else {
            "config.toml"@
        }
    } else if has_prefix(args[i]@, "--config="@) {
        args[i]@.skip("--config="@.len() as int)
    } else {
        config_from(args, i + 1)
    }
}

/// The file of the settings, from the arguments of the program, its own name left
/// out.
pub fn parse_config_arg(args: &Vec<String>) -> (r: String)
    ensures
        r@ == config_from(args@, 0),
{
    let mut i: usize = 0;
    while i < args.len()
        invariant
            i <= args@.len(),
            config_from(args@, i as int) == config_from(args@, 0),
        decreases args@.len() - i,
    {
        let arg = args[i].as_str();
        if same(arg, "--config") {
            if i + 1 < args.len() {
                return args[i + 1].clone();
            }
            return "config.toml".to_owned();
        }
        if let Some(path) = strip_prefix(arg, "--config=") {
            return path;
        }
        i = i + 1;
    }
    "config.toml".to_owned()
}

/// What the program does once it has started to serve.
#[derive(Clone, Copy, PartialEq, Eq, Structural, Debug)]
pub struct StartupPlan {
    /// Index all directories now.
    pub full_index: bool,
    /// Follow changes on disk.
    pub watch: bool,
    /// Seconds between two full scans, where there are any.
    pub rescan_secs: Option<u64>,
    /// Read the text of pages in the background.
    pub ocr_backfill: bool,
}

/// What the program does once it has started to serve: without directories to scan
/// there is nothing to index, to follow or to scan again, and without the models
/// that read text there is nothing to read.
pub fn plan_startup(config: &Config, ocr_available: bool) -> (r: StartupPlan)
    ensures
        r.full_index == (config.paths.scan_dirs@.len() > 0),
        r.watch == (r.full_index && config.indexer.watch_enabled),
        r.rescan_secs == if r.full_index && config.indexer.rescan_interval_secs > 0 {
            Some(config.indexer.rescan_interval_secs)
        } else {
            None::<u64>
        },
        r.ocr_backfill == ocr_available,
{
    let any: bool = config.paths.scan_dirs.len() > 0;
    StartupPlan {
        full_index: any,
        watch: any && config.indexer.watch_enabled,
        rescan_secs: if any && config.indexer.rescan_interval_secs > 0 {
            Some(config.indexer.rescan_interval_secs)
        } else {
            None
        },
        ocr_backfill: ocr_available,
    }
}

/// Whether a full scan that is due begins: not before the last batch has ended.
pub fn rescan_begins(progress: &IndexProgress) -> (r: bool)
    ensures
        r == progress.finished,
{
    progress.finished
}

/// Whether an argument names the file of the settings, alone or with the one behind it.
pub open spec fn names_settings(arg: Seq<char>) -> bool {
    arg == "--config"@ || arg.len() >= 9 && arg.take(9) == "--config="@
}

/// The first argument that names the file of the settings counts: with what follows it
/// behind the sign, or with the argument behind it, if there is one. Without any, the
/// file is `config.toml`.
pub proof fn the_first_settings_count(args: &Vec<String>, r: String) -> (i: int)
    requires
        call_ensures(parse_config_arg, (args,), r),
    ensures
        0 <= i <= args@.len(),
        forall|k: int| 0 <= k < i ==> !names_settings((#[trigger] args@[k])@),
        i == args@.len() ==> r@ == "config.toml"@,
        i < args@.len() ==> names_settings(args@[i]@),
        i < args@.len() && args@[i]@ == "--config"@ && i + 1 < args@.len() ==> r@ == args@[i + 1]@,
        i < args@.len() && args@[i]@ == "--config"@ && i + 1 == args@.len() ==> r@ == "config.toml"@,
        i < args@.len() && args@[i]@ != "--config"@ ==> args@[i]@ == "--config="@ + r@,
{
    lemma_first_settings(args@, 0)
}

proof fn lemma_first_settings(args: Seq<String>, from: int) -> (i: int)
    requires
        0 <= from <= args.len(),
    ensures
        from <= i <= args.len(),
        forall|k: int| from <= k < i ==> !names_settings((#[trigger] args[k])@),
        i == args.len() ==> config_from(args, from) == "config.toml"@,
        i < args.len() ==> names_settings(args[i]@),
        i < args.len() && args[i]@ == "--config"@ && i + 1 < args.len() ==> config_from(args, from)
            == args[i + 1]@,
        i < args.len() && args[i]@ == "--config"@ && i + 1 == args.len() ==> config_from(args, from)
            == "config.toml"@,
        i < args.len() && args[i]@ != "--config"@ ==> args[i]@ == "--config="@ + config_from(
            args,
            from,
        ),
    decreases args.len() - from,
{
    reveal_strlit("--config=");
    if from == args.len() {
        from
    } else {
        let arg = args[from]@;
        assert("--config="@.len() == 9);
        assert(has_prefix(arg, "--config="@) <==> arg.len() >= 9 && arg.take(9) == "--config="@) by {
            if arg.len() >= 9 {
                assert(arg.take(9) =~= arg.subrange(0, 9));
            }
        }
        if arg == "--config"@ {
            from
        } else if has_prefix(arg, "--config="@) {
            assert(arg =~= "--config="@ + arg.skip(9));
            from
        } else {
            lemma_first_settings(args, from + 1)
        }
    }
}

} // verus!
