//! Progress: the events the pipeline reports, and a reporter that counts
//! them and decides what is worth telling.

use vstd::prelude::*;

verus! {

/// Receives the pipeline's progress events; each does nothing unless the
/// implementor says otherwise.
pub trait ProgressSink {
    fn start_file(&mut self, path: &str) {
    }

    fn on_line(&mut self) {
    }

    fn finish_file(&mut self, path: &str) {
    }

    fn start_merge(&mut self, run_count: usize) {
    }

    fn merge_round(&mut self, remaining: usize) {
    }

    fn finish(&mut self, output: &str) {
    }
}

/// Lines read between two reports of the running count.
pub const LINES_PER_TICK: u64 = 100_000;

/// Milliseconds after which the running count is reported anyway.
pub const TICK_MILLIS: u64 = 2000;

/// Something worth telling the operator.
#[derive(Debug, PartialEq, Eq)]
pub enum Notice {
    /// Reading of file `index` of `total` begins.
    Processing { index: usize, total: usize, file: String },
    /// The running count of lines, during file `index` of `total`.
    LinesRead { index: usize, total: usize, file: String, lines: u64 },
    /// File `index` of `total` has been read.
    FileDone { index: usize, total: usize, file: String },
    /// The merge begins with this many runs.
    MergeStarted { runs: usize },
    /// A merge round has ended with this many runs left.
    MergeRound { remaining: usize },
    /// The pipeline has ended.
    Finished { files: usize, lines: u64, output: String },
}

/// Counts files and lines, and says when to report them.
pub struct ProgressReporter {
    enabled: bool,
    total_files: usize,
    processed_files: usize,
    total_lines: u64,
    lines_since_tick: u64,
    last_emit_ms: u64,
    current_file: Option<String>,
}

pub open spec fn bump(x: u64) -> u64 {
    if x < u64::MAX { (x + 1) as u64 } else { x }
}

pub open spec fn bump_usize(x: usize) -> usize {
    if x < usize::MAX { (x + 1) as usize } else { x }
}

/// The total shown to the operator: never zero.
pub open spec fn shown_total(t: usize) -> usize {
    if t == 0 { 1 } else { t }
}

impl ProgressReporter {
    pub closed spec fn enabled(&self) -> bool {
        self.enabled
    }

    pub closed spec fn total_files(&self) -> usize {
        self.total_files
    }

    pub closed spec fn processed_files(&self) -> usize {
        self.processed_files
    }

    pub closed spec fn total_lines(&self) -> u64 {
        self.total_lines
    }

    pub closed spec fn lines_since_tick(&self) -> u64 {
        self.lines_since_tick
    }

    pub closed spec fn last_emit_ms(&self) -> u64 {
        self.last_emit_ms
    }

    pub closed spec fn current_file(&self) -> Option<Seq<char>> {
        match self.current_file {
            Some(f) => Some(f@),
            None => None,
        }
    }

    /// A reporter for `total_files` files, its clock started at `now_ms`;
    /// when not `enabled` it reports nothing.
    pub fn new(enabled: bool, total_files: usize, now_ms: u64) -> (r: Self)
        ensures
            r.enabled() == enabled,
            r.total_files() == total_files,
            r.processed_files() == 0,
            r.total_lines() == 0,
            r.lines_since_tick() == 0,
            r.last_emit_ms() == now_ms,
            r.current_file() is None,
    {
        ProgressReporter {
            enabled,
            total_files,
            processed_files: 0,
            total_lines: 0,
            lines_since_tick: 0,
            last_emit_ms: now_ms,
            current_file: None,
        }
    }

    /// The file being read, or a placeholder when there is none.
    fn current_filename(&self) -> (r: String)
        ensures
            self.current_file() matches Some(f) ==> r@ == f,
    {
        match &self.current_file {
            Some(f) => f.clone(),
            None => "Arquivo desconhecido".to_string(),
        }
    }

    fn reset_tick(&mut self, now_ms: u64)
        ensures
            final(self).lines_since_tick() == 0,
            final(self).last_emit_ms() == now_ms,
            final(self).enabled() == old(self).enabled(),
            final(self).total_files() == old(self).total_files(),
            final(self).processed_files() == old(self).processed_files(),
            final(self).total_lines() == old(self).total_lines(),
            final(self).current_file() == old(self).current_file(),
    {
        self.lines_since_tick = 0;
        self.last_emit_ms = now_ms;
    }

    /// Reading of `path` begins.
    pub fn start_file(&mut self, path: &str, now_ms: u64) -> (r: Option<Notice>)
        ensures
            !old(self).enabled() ==> r is None && *final(self) == *old(self),
            old(self).enabled() ==> {
                &&& r matches Some(Notice::Processing { index, total, file })
                &&& index == bump_usize(old(self).processed_files())
                &&& total == shown_total(old(self).total_files())
                &&& file@ == path@
                &&& final(self).current_file() == Some(path@)
                &&& final(self).lines_since_tick() == 0
                &&& final(self).last_emit_ms() == now_ms
                &&& final(self).processed_files() == old(self).processed_files()
                &&& final(self).total_lines() == old(self).total_lines()
            },
            final(self).enabled() == old(self).enabled(),
            final(self).total_files() == old(self).total_files(),
    {
        if !self.enabled {
            return None;
        }
        let name = path.to_string();
        self.current_file = Some(name);
        let file = self.current_filename();
        self.reset_tick(now_ms);
        Some(Notice::Processing { index: self.shown_index(), total: self.shown_total(), file })
    }

    fn shown_index(&self) -> (r: usize)
        ensures
            r == bump_usize(self.processed_files()),
    {
        if self.processed_files < usize::MAX {
            self.processed_files + 1
        } else {
            self.processed_files
        }
    }

    fn shown_total(&self) -> (r: usize)
        ensures
            r == shown_total(self.total_files()),
    {
        if self.total_files == 0 {
            1
        } else {
            self.total_files
        }
    }

    /// One more line has been read. The running count is reported once
    /// `LINES_PER_TICK` lines have passed since the last report, or
    /// `TICK_MILLIS` milliseconds.
    pub fn on_line(&mut self, now_ms: u64) -> (r: Option<Notice>)
        ensures
            !old(self).enabled() ==> r is None && *final(self) == *old(self),
            old(self).enabled() ==> {
                let lines = bump(old(self).total_lines());
                let since = bump(old(self).lines_since_tick());
                let due = since >= LINES_PER_TICK || now_ms >= old(self).last_emit_ms() + TICK_MILLIS;
                &&& final(self).total_lines() == lines
                &&& due ==> (r matches Some(Notice::LinesRead { index, total, file: _, lines: l }) && index
                    == bump_usize(old(self).processed_files()) && total == shown_total(old(self).total_files())
                    && l == lines && final(self).lines_since_tick() == 0 && final(self).last_emit_ms() == now_ms)
                &&& !due ==> (r is None && final(self).lines_since_tick() == since && final(self).last_emit_ms()
                    == old(self).last_emit_ms())
                &&& final(self).processed_files() == old(self).processed_files()
                &&& final(self).current_file() == old(self).current_file()
            },
            final(self).enabled() == old(self).enabled(),
            final(self).total_files() == old(self).total_files(),
    {
        if !self.enabled {
            return None;
        }
        if self.total_lines < u64::MAX {
            self.total_lines = self.total_lines + 1;
        }
        if self.lines_since_tick < u64::MAX {
            self.lines_since_tick = self.lines_since_tick + 1;
        }
        let elapsed_due = now_ms >= self.last_emit_ms && now_ms - self.last_emit_ms >= TICK_MILLIS;
        if self.lines_since_tick >= LINES_PER_TICK || elapsed_due {
            let file = self.current_filename();
            let n = Notice::LinesRead {
                index: self.shown_index(),
                total: self.shown_total(),
                file,
                lines: self.total_lines,
            };
            self.reset_tick(now_ms);
            Some(n)
        } else {
            None
        }
    }

    /// Reading of `path` has ended.
    pub fn finish_file(&mut self, path: &str, now_ms: u64) -> (r: Option<Notice>)
        ensures
            !old(self).enabled() ==> r is None && *final(self) == *old(self),
            old(self).enabled() ==> {
                &&& final(self).processed_files() == bump_usize(old(self).processed_files())
                &&& r matches Some(Notice::FileDone { index, total, file })
                &&& index == final(self).processed_files()
                &&& total == shown_total(old(self).total_files())
                &&& file@ == path@
                &&& final(self).current_file() is None
                &&& final(self).lines_since_tick() == 0
                &&& final(self).last_emit_ms() == now_ms
                &&& final(self).total_lines() == old(self).total_lines()
            },
            final(self).enabled() == old(self).enabled(),
            final(self).total_files() == old(self).total_files(),
    {
        if !self.enabled {
            return None;
        }
        if self.processed_files < usize::MAX {
            self.processed_files = self.processed_files + 1;
        }
        let n = Notice::FileDone { index: self.processed_files, total: self.shown_total(), file: path.to_string() };
        self.reset_tick(now_ms);
        self.current_file = None;
        Some(n)
    }

    /// The merge begins with `run_count` runs.
    pub fn start_merge(&mut self, run_count: usize, now_ms: u64) -> (r: Option<Notice>)
        ensures
            !old(self).enabled() ==> r is None && *final(self) == *old(self),
            old(self).enabled() ==> r == Some(Notice::MergeStarted { runs: run_count }) && final(self).last_emit_ms()
                == now_ms && final(self).lines_since_tick() == 0,
            final(self).enabled() == old(self).enabled(),
            final(self).processed_files() == old(self).processed_files(),
            final(self).total_lines() == old(self).total_lines(),
    {
        if !self.enabled {
            return None;
        }
        self.reset_tick(now_ms);
        Some(Notice::MergeStarted { runs: run_count })
    }

    /// A merge round has ended with `remaining` runs left.
    pub fn merge_round(&mut self, remaining: usize, now_ms: u64) -> (r: Option<Notice>)
        ensures
            !old(self).enabled() ==> r is None && *final(self) == *old(self),
            old(self).enabled() ==> r == Some(Notice::MergeRound { remaining }) && final(self).last_emit_ms() == now_ms
                && final(self).lines_since_tick() == 0,
            final(self).enabled() == old(self).enabled(),
            final(self).processed_files() == old(self).processed_files(),
            final(self).total_lines() == old(self).total_lines(),
    {
        if !self.enabled {
            return None;
        }
        self.reset_tick(now_ms);
        Some(Notice::MergeRound { remaining })
    }

    /// The pipeline has ended with its output at `output`.
    pub fn finish(&self, output: &str) -> (r: Option<Notice>)
        ensures
            !self.enabled() ==> r is None,
            self.enabled() ==> (r matches Some(Notice::Finished { files, lines, output: o }) && files
                == self.processed_files() && lines == self.total_lines() && o@ == output@),
    {
        if !self.enabled {
            return None;
        }
        Some(Notice::Finished { files: self.processed_files, lines: self.total_lines, output: output.to_string() })
    }
}

/// The most log lines a presentation keeps.
pub const MAX_LOGS: usize = 500;

/// Appends `line` to a log history, discarding the oldest lines beyond
/// `MAX_LOGS`.
pub fn push_log(logs: &mut Vec<String>, line: String)
    ensures
        ({
            let all = old(logs)@.push(line);
            final(logs)@ == if all.len() > MAX_LOGS {
                all.subrange(all.len() - MAX_LOGS, all.len() as int)
            } else {
                all
            }
        }),
{
    let ghost all = old(logs)@.push(line);
    logs.push(line);
    let total = logs.len();
    assert(logs@ == all && total == all.len());
    assert(all.subrange(0, all.len() as int) =~= all);
    let mut dropped: usize = 0;
    while logs.len() > MAX_LOGS
        invariant
            dropped > 0 ==> logs@.len() >= MAX_LOGS,
            all.len() <= usize::MAX,
            dropped + logs@.len() == all.len(),
            logs@ == all.subrange(dropped as int, all.len() as int),
        decreases logs.len(),
    {
        logs.remove(0);
        dropped = dropped + 1;
    }
}

} // verus!
