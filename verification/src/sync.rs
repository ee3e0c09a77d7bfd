//! The decisions of refreshing the compile database from Xcode activity logs:
//! which candidate log wins, and what is reported when none does.
use vstd::prelude::*;

use crate::compile_db::{units_view, CompileDb, UnitView};
use crate::config::{BspConfig, ConfigError};
use crate::parser::{parse_compile_db, parse_from};
use crate::text::string_views;
use crate::xcactivitylog::{
    compile_lines_spec, decoded_tokens, extract_compile_lines, has_slf0_magic, tokens_from,
};

verus! {

/// What reading one candidate log gave: its decompressed content, or the reason it
/// could not be read.
#[derive(Debug, Clone)]
pub enum LogRead {
    Data(Vec<u8>),
    Failed(String),
}

/// Why a candidate log gave no lines.
#[derive(Debug, Clone)]
pub enum LogFailure {
    /// The log could not be read or decompressed.
    Unreadable(String),
    /// The decompressed content is not an SLF0 activity log.
    NotActivityLog,
}

/// The progress of a sync over the candidate logs.
#[derive(Debug, Clone)]
pub struct SyncState {
    /// The database of the last log that parsed.
    pub db: CompileDb,
    /// The last log that failed, and why.
    pub last_error: Option<(String, LogFailure)>,
    /// A log with Swift units has been found; no further log is read.
    pub done: bool,
}

/// The units that the compile lines of a decompressed log parse to.
pub open spec fn log_units(data: Seq<u8>, cwd: Seq<char>) -> Seq<UnitView> {
    parse_from(compile_lines_spec(decoded_tokens(tokens_from(data.skip(4), 0))), 0, cwd)
}

impl SyncState {
    /// A sync that has read no log yet: an empty database and no error.
    pub fn start() -> (out: SyncState)
        ensures
            out.db.version == 1,
            out.db.swift_units@.len() == 0,
            out.last_error is None,
            !out.done,
    {
        SyncState { db: CompileDb::new(Vec::new()), last_error: None, done: false }
    }

    /// Take in the outcome of reading the candidate log at `path`. A log whose
    /// lines parse to Swift units ends the search; a log that parses to none
    /// replaces the database; a failure is remembered as the last error. `cwd` is
    /// the directory used for sections that name none.
    pub fn step(self, path: String, read: LogRead, cwd: &str) -> (out: SyncState)
        requires
            !self.done,
        ensures
            match read {
                LogRead::Failed(msg) => {
                    &&& units_view(out.db.swift_units@) == units_view(self.db.swift_units@)
                    &&& (out.last_error matches Some((p, LogFailure::Unreadable(m))) && p@ == path@
                        && m@ == msg@)
                    &&& !out.done
                },
                LogRead::Data(d) => if !has_slf0_magic(d@) {
                    &&& units_view(out.db.swift_units@) == units_view(self.db.swift_units@)
                    &&& (out.last_error matches Some((p, LogFailure::NotActivityLog)) && p@ == path@)
                    &&& !out.done
                } else {
                    &&& units_view(out.db.swift_units@) == log_units(d@, cwd@)
                    &&& out.db.version == 1
                    &&& out.done == (log_units(d@, cwd@).len() > 0)
                    &&& out.last_error == self.last_error
                },
            },
            out.db.version == self.db.version || out.db.version == 1,
    {
        match read {
            LogRead::Failed(msg) => SyncState {
                db: self.db,
                last_error: Some((path, LogFailure::Unreadable(msg))),
                done: false,
            },
            LogRead::Data(d) => match extract_compile_lines(d.as_slice()) {
                Err(_) => SyncState {
                    db: self.db,
                    last_error: Some((path, LogFailure::NotActivityLog)),
                    done: false,
                },
                Ok(lines) => {
                    assert(string_views(lines@) == lines@.map_values(|s: String| s@));
                    let parsed = parse_compile_db(lines.as_slice(), cwd);
                    let done = parsed.swift_units.len() > 0;
                    SyncState { db: parsed, last_error: self.last_error, done }
                },
            },
        }
    }

    /// The outcome of the sync: the database, unless no log gave Swift units and
    /// some log failed, in which case the last failure.
    pub fn finish(self) -> (out: Result<CompileDb, (String, LogFailure)>)
        ensures
            match out {
                Ok(db) => units_view(db.swift_units@) == units_view(self.db.swift_units@)
                    && db.version == self.db.version && (self.db.swift_units@.len() > 0
                    || self.last_error is None),
                Err(e) => self.db.swift_units@.len() == 0 && self.last_error == Some(e),
            },
    {
        if self.db.swift_units.len() == 0 {
            match self.last_error {
                Some(e) => return Err(e),
                None => {},
            }
        }
        Ok(self.db)
    }
}

/// The mathematical form of a `LogFailure`.
pub enum FailureView {
    Unreadable(Seq<char>),
    NotActivityLog,
}

pub open spec fn failure_view(f: LogFailure) -> FailureView {
    match f {
        LogFailure::Unreadable(m) => FailureView::Unreadable(m@),
        LogFailure::NotActivityLog => FailureView::NotActivityLog,
    }
}

/// The mathematical form of a `SyncState`.
pub struct SyncView {
    pub units: Seq<UnitView>,
    pub last_error: Option<(Seq<char>, FailureView)>,
    pub done: bool,
}

/// A read that ends the search: an activity log whose lines give Swift units.
pub open spec fn usable(read: LogRead, cwd: Seq<char>) -> bool {
    match read {
        LogRead::Data(d) => has_slf0_magic(d@) && log_units(d@, cwd).len() > 0,
        LogRead::Failed(_) => false,
    }
}

/// One step of the search (see `SyncState::step`).
pub open spec fn step_spec(s: SyncView, path: Seq<char>, read: LogRead, cwd: Seq<char>) -> SyncView {
    match read {
        LogRead::Failed(msg) => SyncView {
            units: s.units,
            last_error: Some((path, FailureView::Unreadable(msg@))),
            done: false,
        },
        LogRead::Data(d) => if !has_slf0_magic(d@) {
            SyncView {
                units: s.units,
                last_error: Some((path, FailureView::NotActivityLog)),
                done: false,
            }
        } else {
            SyncView {
                units: log_units(d@, cwd),
                last_error: s.last_error,
                done: log_units(d@, cwd).len() > 0,
            }
        },
    }
}

/// The search over the reads of the candidate logs, in order: no log is taken
/// in once one has given Swift units.
pub open spec fn sync_fold(reads: Seq<(String, LogRead)>, cwd: Seq<char>) -> SyncView
    decreases reads.len(),
{
    if reads.len() == 0 {
        SyncView { units: Seq::empty(), last_error: None, done: false }
    } else {
        let s = sync_fold(reads.drop_last(), cwd);
        if s.done {
            s
        } else {
            step_spec(s, reads.last().0@, reads.last().1, cwd)
        }
    }
}

/// The outcome of a search (see `SyncState::finish`).
pub open spec fn finish_spec(s: SyncView) -> Result<Seq<UnitView>, (Seq<char>, FailureView)> {
    if s.units.len() == 0 && s.last_error is Some {
        Err(s.last_error->0)
    } else {
        Ok(s.units)
    }
}

/// The search over `reads`, and its outcome.
pub open spec fn sync_spec(reads: Seq<(String, LogRead)>, cwd: Seq<char>) -> Result<
    Seq<UnitView>,
    (Seq<char>, FailureView),
> {
    finish_spec(sync_fold(reads, cwd))
}

/// Refresh the compile database from the candidate activity logs of a BSP config,
/// given as read in candidate order: the first log with Swift units wins; a log
/// without any still replaces the database; when none has units and some log
/// failed, the last failure is reported.
pub fn sync_with_config(reads: Vec<(String, LogRead)>, cwd: &str) -> (out: Result<
    CompileDb,
    (String, LogFailure),
>)
    ensures
        match (out, sync_spec(reads@, cwd@)) {
            (Ok(db), Ok(u)) => units_view(db.swift_units@) == u && db.version == 1,
            (Err((p, f)), Err((sp, sf))) => p@ == sp && failure_view(f) == sf,
            _ => false,
        },
{
    let ghost all = reads@;
    let mut state = SyncState::start();
    let mut rest = reads;
    let ghost mut taken: int = 0;
    proof {
        assert(all.take(0) =~= Seq::<(String, LogRead)>::empty());
    }
    while rest.len() > 0
        invariant
            0 <= taken <= all.len(),
            rest@ == all.skip(taken),
            state.db.version == 1,
            units_view(state.db.swift_units@) == sync_fold(all.take(taken), cwd@).units,
            match state.last_error {
                Some((p, f)) => sync_fold(all.take(taken), cwd@).last_error == Some(
                    (p@, failure_view(f)),
                ),
                None => sync_fold(all.take(taken), cwd@).last_error is None,
            },
            state.done == sync_fold(all.take(taken), cwd@).done,
            state.done ==> sync_fold(all.take(taken), cwd@) == sync_fold(all, cwd@),
        ensures
            state.done || rest@.len() == 0,
        decreases rest@.len(),
    {
        if state.done {
            break;
        }
        let (path, read) = rest.remove(0);
        proof {
            assert(all.take(taken + 1).drop_last() =~= all.take(taken));
            assert(all.take(taken + 1).last() == all[taken]);
            assert(rest@ =~= all.skip(taken + 1));
        }
        let ghost before = state;
        state = state.step(path, read, cwd);
        proof {
            taken = taken + 1;
            if state.done {
                lemma_fold_stays(all, cwd@, taken);
            }
        }
    }
    proof {
        if !state.done {
            assert(taken == all.len());
            assert(all.take(taken) =~= all);
        }
    }
    state.finish()
}

/// Once the search is done, later reads change nothing.
proof fn lemma_fold_stays(reads: Seq<(String, LogRead)>, cwd: Seq<char>, n: int)
    requires
        0 <= n <= reads.len(),
        sync_fold(reads.take(n), cwd).done,
    ensures
        sync_fold(reads, cwd) == sync_fold(reads.take(n), cwd),
    decreases reads.len() - n,
{
    if n < reads.len() {
        assert(reads.drop_last().take(n) =~= reads.take(n));
        lemma_fold_stays(reads.drop_last(), cwd, n);
    } else {
        assert(reads.take(n) =~= reads);
    }
}

/// The search has ended exactly when one of the reads is usable; the reads
/// before the first usable one are then all unusable.
proof fn lemma_fold_done(reads: Seq<(String, LogRead)>, cwd: Seq<char>)
    ensures
        sync_fold(reads, cwd).done <==> exists|j: int|
            0 <= j < reads.len() && usable(#[trigger] reads[j].1, cwd),
    decreases reads.len(),
{
    if reads.len() > 0 {
        let init = reads.drop_last();
        lemma_fold_done(init, cwd);
        if exists|j: int| 0 <= j < init.len() && usable(#[trigger] init[j].1, cwd) {
            let j = choose|j: int| 0 <= j < init.len() && usable(#[trigger] init[j].1, cwd);
            assert(reads[j] == init[j]);
        }
        if exists|j: int| 0 <= j < reads.len() && usable(#[trigger] reads[j].1, cwd) {
            let j = choose|j: int| 0 <= j < reads.len() && usable(#[trigger] reads[j].1, cwd);
            if j < init.len() {
                assert(reads[j] == init[j]);
            }
        }
    }
}

/// The first candidate log that gives Swift units is the one whose units the
/// database holds, whatever the logs before it (failed, not activity logs, or
/// without units) and after it.
pub proof fn lemma_first_usable_log_wins(reads: Seq<(String, LogRead)>, cwd: Seq<char>, i: int)
    requires
        0 <= i < reads.len(),
        usable(reads[i].1, cwd),
        forall|j: int| 0 <= j < i ==> !usable(#[trigger] reads[j].1, cwd),
    ensures
        sync_spec(reads, cwd) == Ok::<Seq<UnitView>, (Seq<char>, FailureView)>(
            match reads[i].1 {
                LogRead::Data(d) => log_units(d@, cwd),
                LogRead::Failed(_) => Seq::empty(),
            },
        ),
{
    let pre = reads.take(i);
    lemma_fold_done(pre, cwd);
    if exists|j: int| 0 <= j < pre.len() && usable(#[trigger] pre[j].1, cwd) {
        let j = choose|j: int| 0 <= j < pre.len() && usable(#[trigger] pre[j].1, cwd);
        assert(pre[j] == reads[j]);
    }
    assert(reads.take(i + 1).drop_last() =~= pre);
    assert(reads.take(i + 1).last() == reads[i]);
    lemma_fold_stays(reads, cwd, i + 1);
}

/// After a successful build: whether to refresh the compile database. It is
/// refreshed when BSP is set up for this project (the config loads) and the
/// config is for the built workspace (`input_ws_abs`, resolved) and scheme.
pub fn maybe_sync_after_build(
    loaded: &Result<BspConfig, ConfigError>,
    input_ws_abs: &str,
    scheme: &str,
) -> (r: bool)
    ensures
        r == match loaded {
            Ok(c) => c.scheme@ == scheme@ && crate::path::components(c.workspace_input@)
                == crate::path::components(input_ws_abs@),
            Err(_) => false,
        },
{
    match loaded {
        Ok(c) => c.matches(input_ws_abs, scheme),
        Err(_) => false,
    }
}

} // verus!
