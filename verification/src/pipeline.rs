//! A sync run: its options, what it counts, and the events it reports.

use crate::filter::{FilterList, RuleView};
use vstd::prelude::*;

verus! {

// ---------------------------------------------------------------------------
// Options
// ---------------------------------------------------------------------------

/// The options of a sync run.
#[derive(Debug, Clone)]
pub struct SyncOpts {
    pub delete: bool,
    pub update: bool,
    pub ignore_existing: bool,
    pub whole_file: bool,
    pub checksum: bool,
    pub inplace: bool,
    pub one_file_system: bool,
    pub preserve_times: bool,
    pub preserve_perms: bool,
    pub preserve_owner: bool,
    pub preserve_group: bool,
    pub filter: FilterList,
    pub max_size: Option<u64>,
    pub min_size: Option<u64>,
    pub block_size: Option<usize>,
    pub compress: bool,
    pub verbose: bool,
    pub progress: bool,
    pub stats: bool,
    pub dry_run: bool,
}

impl Default for SyncOpts {
    /// Everything off, no rules, no limits.
    fn default() -> (opts: SyncOpts)
        ensures
            !opts.delete && !opts.update && !opts.ignore_existing && !opts.whole_file
                && !opts.checksum && !opts.inplace && !opts.one_file_system,
            !opts.preserve_times && !opts.preserve_perms && !opts.preserve_owner
                && !opts.preserve_group,
            opts.filter@ == Seq::<RuleView>::empty(),
            opts.max_size is None && opts.min_size is None && opts.block_size is None,
            !opts.compress && !opts.verbose && !opts.progress && !opts.stats && !opts.dry_run,
    {
        SyncOpts {
            delete: false,
            update: false,
            ignore_existing: false,
            whole_file: false,
            checksum: false,
            inplace: false,
            one_file_system: false,
            preserve_times: false,
            preserve_perms: false,
            preserve_owner: false,
            preserve_group: false,
            filter: FilterList::default(),
            max_size: None,
            min_size: None,
            block_size: None,
            compress: false,
            verbose: false,
            progress: false,
            stats: false,
            dry_run: false,
        }
    }
}

// ---------------------------------------------------------------------------
// Counts
// ---------------------------------------------------------------------------

/// What a run did.
#[derive(Debug, Clone, Copy, PartialEq, Eq, Structural)]
pub struct Stats {
    pub files_total: usize,
    pub files_xferred: usize,
    pub files_skipped: usize,
    pub files_errored: usize,
    pub literal_bytes: u64,
    pub matched_bytes: u64,
    pub total_size: u64,
}

impl Default for Stats {
    /// Nothing.
    fn default() -> (stats: Stats)
        ensures
            stats == (Stats {
                files_total: 0,
                files_xferred: 0,
                files_skipped: 0,
                files_errored: 0,
                literal_bytes: 0,
                matched_bytes: 0,
                total_size: 0,
            }),
    {
        Stats {
            files_total: 0,
            files_xferred: 0,
            files_skipped: 0,
            files_errored: 0,
            literal_bytes: 0,
            matched_bytes: 0,
            total_size: 0,
        }
    }
}

/// What a file came to: transferred or skipped, the bytes that were sent, and
/// those that the destination had.
#[derive(Debug, Clone, Copy, PartialEq, Eq, Structural)]
pub struct Outcome {
    pub xferred: bool,
    pub literal: u64,
    pub matched: u64,
}

/// The sum of two numbers of 64 bits, the carry dropped.
pub open spec fn sum64(a: int, b: int) -> int {
    (a + b) % 0x1_0000_0000_0000_0000
}

/// The number after `n`; zero after the greatest.
pub open spec fn next_count(n: usize) -> usize {
    if n == usize::MAX {
        0
    } else {
        (n + 1) as usize
    }
}

/// Counts the files of a run as they are done.
#[derive(Debug, Clone, Copy, PartialEq, Eq, Structural)]
pub struct ParStats {
    pub xferred: usize,
    pub skipped: usize,
    pub errored: usize,
    pub literal: u64,
    pub matched: u64,
}

/// The counts after one more file: with its outcome, or none where it failed.
pub open spec fn counted(counts: ParStats, outcome: Option<Outcome>) -> ParStats {
    match outcome {
        None => ParStats { errored: next_count(counts.errored), ..counts },
        Some(o) => ParStats {
            xferred: if o.xferred {
                next_count(counts.xferred)
            } else {
                counts.xferred
            },
            skipped: if o.xferred {
                counts.skipped
            } else {
                next_count(counts.skipped)
            },
            errored: counts.errored,
            literal: sum64(counts.literal as int, o.literal as int) as u64,
            matched: sum64(counts.matched as int, o.matched as int) as u64,
        },
    }
}

/// The counts after all the files, in any order that they are done in.
pub open spec fn counted_all(outcomes: Seq<Option<Outcome>>) -> ParStats
    decreases outcomes.len(),
{
    if outcomes.len() == 0 {
        ParStats { xferred: 0, skipped: 0, errored: 0, literal: 0, matched: 0 }
    } else {
        counted(counted_all(outcomes.drop_last()), outcomes.last())
    }
}

/// The counts of a run of so many files, of this size together.
pub open spec fn stats_of(counts: ParStats, total: usize, total_size: u64) -> Stats {
    Stats {
        files_total: total,
        files_xferred: counts.xferred,
        files_skipped: counts.skipped,
        files_errored: counts.errored,
        literal_bytes: counts.literal,
        matched_bytes: counts.matched,
        total_size,
    }
}

/// The next count.
pub fn count_up(n: usize) -> (m: usize)
    ensures
        m == next_count(n),
{
    if n == usize::MAX {
        0
    } else {
        n + 1
    }
}

/// The sum, the carry dropped.
pub fn add64(a: u64, b: u64) -> (sum: u64)
    ensures
        sum == sum64(a as int, b as int),
{
    a.wrapping_add(b)
}

impl ParStats {
    /// Nothing counted.
    pub fn new() -> (counts: ParStats)
        ensures
            counts == (ParStats { xferred: 0, skipped: 0, errored: 0, literal: 0, matched: 0 }),
    {
        ParStats { xferred: 0, skipped: 0, errored: 0, literal: 0, matched: 0 }
    }

    /// Counts a file that was transferred or skipped.
    pub fn add(&mut self, xferred: bool, lit: u64, mat: u64)
        ensures
            *final(self) == counted(
                *old(self),
                Some(Outcome { xferred, literal: lit, matched: mat }),
            ),
    {
        if xferred {
            self.xferred = count_up(self.xferred);
        } else {
            self.skipped = count_up(self.skipped);
        }
        self.literal = add64(self.literal, lit);
        self.matched = add64(self.matched, mat);
    }

    /// Counts a file that failed.
    pub fn fail(&mut self)
        ensures
            *final(self) == counted(*old(self), None),
    {
        self.errored = count_up(self.errored);
    }

    /// What was counted, of so many files of this size together.
    pub fn snapshot(&self, total: usize, total_size: u64) -> (stats: Stats)
        ensures
            stats == stats_of(*self, total, total_size),
    {
        Stats {
            files_total: total,
            files_xferred: self.xferred,
            files_skipped: self.skipped,
            files_errored: self.errored,
            literal_bytes: self.literal,
            matched_bytes: self.matched,
            total_size,
        }
    }
}

/// The exit code of a run in which so many files failed.
pub open spec fn exit_status(errored: usize) -> i32 {
    if errored > 0 {
        23i32
    } else {
        0i32
    }
}

/// The exit code of a run that came to its end: 23 where files failed.
pub fn exit_code(stats: &Stats) -> (code: i32)
    ensures
        code == exit_status(stats.files_errored),
{
    if stats.files_errored > 0 {
        23
    } else {
        0
    }
}

// ---------------------------------------------------------------------------
// Events
// ---------------------------------------------------------------------------

/// A file that is done.
#[derive(Debug, Clone)]
pub struct FileRecord {
    pub path: String,
    pub size: u64,
    pub literal: u64,
    pub matched: u64,
    pub skipped: bool,
}

/// What a run reports while it goes on.
#[derive(Debug, Clone)]
pub enum ProgressEvent {
    Start { total_files: usize, total_bytes: u64 },
    File(FileRecord),
    Done(Stats),
    Error(String),
}

// ---------------------------------------------------------------------------
// Laws
// ---------------------------------------------------------------------------

/// Every file is counted once: as transferred, as skipped or as failed.
pub proof fn law_every_file_is_counted_once(outcomes: Seq<Option<Outcome>>)
    requires
        outcomes.len() <= usize::MAX,
    ensures
        ({
            let counts = counted_all(outcomes);
            counts.xferred + counts.skipped + counts.errored == outcomes.len()
        }),
    decreases outcomes.len(),
{
    if outcomes.len() > 0 {
        law_every_file_is_counted_once(outcomes.drop_last());
    }
}

/// The counts of two lots of files together are the sums of their counts.
pub proof fn law_counts_add_up(a: Seq<Option<Outcome>>, b: Seq<Option<Outcome>>)
    requires
        a.len() + b.len() <= usize::MAX,
    ensures
        counted_all(a + b).xferred == counted_all(a).xferred + counted_all(b).xferred,
        counted_all(a + b).skipped == counted_all(a).skipped + counted_all(b).skipped,
        counted_all(a + b).errored == counted_all(a).errored + counted_all(b).errored,
        counted_all(a + b).literal == (counted_all(a).literal + counted_all(b).literal)
            % 0x1_0000_0000_0000_0000,
        counted_all(a + b).matched == (counted_all(a).matched + counted_all(b).matched)
            % 0x1_0000_0000_0000_0000,
    decreases b.len(),
{
    if b.len() == 0 {
        assert(a + b =~= a);
    } else {
        let shorter = b.drop_last();
        assert((a + b).drop_last() =~= a + shorter);
        law_counts_add_up(a, shorter);
        law_every_file_is_counted_once(shorter);
        law_every_file_is_counted_once(a + shorter);
        lemma_counted_both(
            counted_all(a),
            counted_all(shorter),
            counted_all(a + shorter),
            b.last(),
        );
    }
}

proof fn lemma_counted_both(x: ParStats, y: ParStats, z: ParStats, o: Option<Outcome>)
    requires
        z.xferred == x.xferred + y.xferred,
        z.skipped == x.skipped + y.skipped,
        z.errored == x.errored + y.errored,
        z.xferred < usize::MAX && z.skipped < usize::MAX && z.errored < usize::MAX,
        z.literal == (x.literal + y.literal) % 0x1_0000_0000_0000_0000,
        z.matched == (x.matched + y.matched) % 0x1_0000_0000_0000_0000,
    ensures
        counted(z, o).xferred == x.xferred + counted(y, o).xferred,
        counted(z, o).skipped == x.skipped + counted(y, o).skipped,
        counted(z, o).errored == x.errored + counted(y, o).errored,
        counted(z, o).literal == (x.literal + counted(y, o).literal) % 0x1_0000_0000_0000_0000,
        counted(z, o).matched == (x.matched + counted(y, o).matched) % 0x1_0000_0000_0000_0000,
{
    match o {
        Some(o) => {
            lemma_sum_of_sums(x.literal as int, y.literal as int, o.literal as int);
            lemma_sum_of_sums(x.matched as int, y.matched as int, o.matched as int);
        },
        None => {},
    }
}

proof fn lemma_sum_of_sums(x: int, y: int, n: int)
    requires
        0 <= x,
        0 <= y,
        0 <= n,
    ensures
        sum64((x + y) % 0x1_0000_0000_0000_0000, n) == (x + sum64(y, n))
            % 0x1_0000_0000_0000_0000,
{
}

/// A file by itself counts as one that was transferred, skipped or failed, with
/// the bytes that it came to.
pub proof fn law_one_file_counts_once(o: Option<Outcome>)
    ensures
        counted_all(seq![o]) == match o {
            None => ParStats { xferred: 0, skipped: 0, errored: 1, literal: 0, matched: 0 },
            Some(o) => ParStats {
                xferred: if o.xferred {
                    1
                } else {
                    0
                },
                skipped: if o.xferred {
                    0
                } else {
                    1
                },
                errored: 0,
                literal: o.literal,
                matched: o.matched,
            },
        },
{
    reveal_with_fuel(counted_all, 2);
    assert(seq![o].drop_last() =~= Seq::empty());
}

/// The counts of a run account for all of its files, and say what was sent and
/// what was had.
pub proof fn law_run_accounts_for_its_files(
    outcomes: Seq<Option<Outcome>>,
    total: usize,
    total_size: u64,
)
    requires
        outcomes.len() == total,
    ensures
        ({
            let stats = stats_of(counted_all(outcomes), total, total_size);
            &&& stats.files_xferred + stats.files_skipped + stats.files_errored
                == stats.files_total
            &&& stats.files_total == total
            &&& stats.total_size == total_size
            &&& stats.literal_bytes == counted_all(outcomes).literal
            &&& stats.matched_bytes == counted_all(outcomes).matched
            &&& stats.files_xferred == counted_all(outcomes).xferred
            &&& stats.files_skipped == counted_all(outcomes).skipped
        }),
{
    law_every_file_is_counted_once(outcomes);
}

/// A run ends with the exit code 23 where a file failed, and with 0 where none did.
pub proof fn law_failed_file_is_reported(
    outcomes: Seq<Option<Outcome>>,
    total: usize,
    total_size: u64,
)
    requires
        outcomes.len() == total,
    ensures
        ({
            let stats = stats_of(counted_all(outcomes), total, total_size);
            exit_status(stats.files_errored) == if outcomes.contains(None) {
                23i32
            } else {
                0i32
            }
        }),
{
    lemma_failures_counted(outcomes);
}

proof fn lemma_failures_counted(outcomes: Seq<Option<Outcome>>)
    requires
        outcomes.len() <= usize::MAX,
    ensures
        counted_all(outcomes).errored > 0 <==> outcomes.contains(None),
    decreases outcomes.len(),
{
    if outcomes.len() > 0 {
        let before = outcomes.drop_last();
        lemma_failures_counted(before);
        law_every_file_is_counted_once(before);
        if before.contains(None) {
            let i = choose|i: int| 0 <= i < before.len() && before[i] == None::<Outcome>;
            assert(outcomes[i] == None::<Outcome>);
        } else if outcomes.contains(None) {
            let i = choose|i: int| 0 <= i < outcomes.len() && outcomes[i] == None::<Outcome>;
            if i < before.len() {
                assert(before[i] == None::<Outcome>);
            }
        }
        if outcomes.last() is None {
            assert(outcomes[outcomes.len() - 1] == None::<Outcome>);
        }
    }
}

} // verus!
