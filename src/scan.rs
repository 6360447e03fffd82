use vstd::prelude::*;
use crate::catalog::{
    Catalog, CatalogEntry, StoreError, entry_at, has_path, index_of, lemma_index_of_unique, paths_unique,
    updated_entry, with_claim,
};
use crate::fingerprint::{FingerprintError, fingerprint, fingerprint_of};
use crate::path::{file_extension, stored_extension_of};
use crate::probe::{ProbeStream, ProbedInfo, info_empty, info_matches, is_video, probe_info};
use crate::timestamp::{
    Timestamp, TimestampError, is_newer, last_modified, last_modified_of, newer_by_a_milli,
};

verus! {

/// The write that reconciling one file calls for.
#[derive(Clone, Copy, Debug, PartialEq, Eq, Structural)]
pub enum Operation {
    Insert,
    Update,
}

/// Why one file could not be reconciled.
#[derive(Clone, Copy, Debug, PartialEq, Eq, Structural)]
pub enum ScanError {
    /// Neither a creation nor a modification time is known: the pass must stop.
    NoTimestamp,
    /// The head of the file could not be read in full.
    Unreadable,
}

/// What was read from disk and from the probing tool for one regular file.
pub struct FileReport {
    pub path: String,
    pub created: Option<Timestamp>,
    pub modified: Option<Timestamp>,
    pub size: u64,
    /// Bytes read from the start of the file.
    pub head: Vec<u8>,
    /// The probing tool's stream descriptors; `None` when it failed.
    pub streams: Option<Vec<ProbeStream>>,
}

/// A scanned file: the row it stands for and the write it needs, if any.
#[derive(Debug)]
pub struct ScannedFile {
    pub entry: CatalogEntry,
    pub operation: Option<Operation>,
}

/// The write that a file with last-modified time `fresh` needs, given the
/// entry stored for its path: an insert when there is none, an update when
/// the file is at least a millisecond newer, and none otherwise.
pub open spec fn plan_of(existing: Option<CatalogEntry>, fresh: Timestamp) -> Option<Operation> {
    match existing {
        None => Some(Operation::Insert),
        Some(e) => if newer_by_a_milli(fresh, e.last_modified) {
            Some(Operation::Update)
        } else {
            None
        },
    }
}

/// The probe fields of `e` are those of the first video stream of `streams`,
/// or all absent when there is none or the tool failed.
pub open spec fn probe_fields_match(e: CatalogEntry, streams: Option<Seq<ProbeStream>>) -> bool {
    let info = ProbedInfo { codec: e.codec, height: e.height, width: e.width, bit_rate: e.bit_rate };
    match streams {
        None => info_empty(info),
        Some(v) => if exists|i: int| 0 <= i < v.len() && is_video(#[trigger] v[i]) {
            exists|i: int|
                0 <= i < v.len() && is_video(#[trigger] v[i]) && (forall|j: int|
                    0 <= j < i ==> !is_video(#[trigger] v[j])) && info_matches(info, v[i])
        } else {
            info_empty(info)
        },
    }
}

/// The stored extension of a file at `path`: its extension, lower-cased.
pub open spec fn stored_extension_matches(ext: Option<String>, path: Seq<char>) -> bool {
    match (ext, stored_extension_of(path)) {
        (Some(e), Some(x)) => e@ == x,
        (None, None) => true,
        _ => false,
    }
}

/// `e` is exactly the row that the file reported by `r` gives, with
/// last-modified time `t` and fingerprint `fp`.
pub open spec fn entry_from_report(e: CatalogEntry, r: FileReport, t: Timestamp, fp: Seq<char>) -> bool {
    &&& e.path@ == r.path@
    &&& e.fingerprint@ == fp
    &&& e.last_modified == t
    &&& e.bytes == r.size
    &&& !e.claimed
    &&& stored_extension_matches(e.extension, r.path@)
    &&& probe_fields_match(
        e,
        match r.streams {
            Some(v) => Some(v@),
            None => None,
        },
    )
}

/// The catalog `s2` and the result `res` are what reconciling the file of `r`
/// against the catalog `s` gives.
pub open spec fn scan_post(
    s: Seq<CatalogEntry>,
    r: FileReport,
    res: Result<Option<Operation>, ScanError>,
    s2: Seq<CatalogEntry>,
) -> bool {
    match last_modified_of(r.created, r.modified) {
        Err(_) => res == Err::<Option<Operation>, ScanError>(ScanError::NoTimestamp) && s2 == s,
        Ok(t) => match plan_of(entry_at(s, r.path@), t) {
            None => res == Ok::<Option<Operation>, ScanError>(None) && s2 == s,
            Some(op) => match fingerprint_of(r.head@, r.size) {
                Err(_) => res == Err::<Option<Operation>, ScanError>(ScanError::Unreadable) && s2
                    == s,
                Ok(fp) => res == Ok::<Option<Operation>, ScanError>(Some(op)) && exists|
                    e: CatalogEntry,
                |
                    #![trigger entry_from_report(e, r, t, fp)]
                    entry_from_report(e, r, t, fp) && s2 == (if op == Operation::Insert {
                        s.push(e)
                    } else {
                        s.update(index_of(s, r.path@), updated_entry(s[index_of(s, r.path@)], e))
                    }),
            },
        },
    }
}

/// The catalog `s2` and result `r` are what applying the write `op` of the
/// row `e` to the catalog `s` gives. A new row starts unclaimed; an updated
/// row keeps its claim flag.
pub open spec fn store_post(
    op: Option<Operation>,
    e: CatalogEntry,
    s: Seq<CatalogEntry>,
    r: Result<u64, StoreError>,
    s2: Seq<CatalogEntry>,
) -> bool {
    match op {
        None => r == Ok::<u64, StoreError>(0) && s2 == s,
        Some(Operation::Insert) => if has_path(s, e.path@) {
            r == Err::<u64, StoreError>(StoreError::DuplicatePath) && s2 == s
        } else {
            r == Ok::<u64, StoreError>(1) && s2 == s.push(with_claim(e, false))
        },
        Some(Operation::Update) => if has_path(s, e.path@) {
            r == Ok::<u64, StoreError>(1) && s2 == s.update(
                index_of(s, e.path@),
                updated_entry(s[index_of(s, e.path@)], e),
            )
        } else {
            r == Err::<u64, StoreError>(StoreError::MissingPath) && s2 == s
        },
    }
}

/// Decides the write for a file with last-modified time `fresh`, given the
/// entry stored under its path. Times are compared at whole-millisecond
/// resolution, since the store may keep less precision than the filesystem.
pub fn plan_operation(existing: Option<&CatalogEntry>, fresh: &Timestamp) -> (r: Option<Operation>)
    ensures
        r == plan_of(
            match existing {
                Some(e) => Some(*e),
                None => None,
            },
            *fresh,
        ),
{
    match existing {
        None => Some(Operation::Insert),
        Some(e) => if is_newer(fresh, &e.last_modified) {
            Some(Operation::Update)
        } else {
            None
        },
    }
}

/// The first step of scanning a file, before anything is read from it: its
/// last-modified time and the write it needs, given the entry stored under its
/// path. With neither a creation nor a modification time the caller must
/// stop. Only when a write is needed is the file's head read and probed, and
/// `ScannedFile::new_from_file` called.
pub fn plan_scan(
    created: Option<Timestamp>,
    modified: Option<Timestamp>,
    existing: Option<&CatalogEntry>,
) -> (r: Result<(Timestamp, Option<Operation>), ScanError>)
    ensures
        match last_modified_of(created, modified) {
            Err(_) => r == Err::<(Timestamp, Option<Operation>), ScanError>(ScanError::NoTimestamp),
            Ok(t) => r == Ok::<(Timestamp, Option<Operation>), ScanError>(
                (
                    t,
                    plan_of(
                        match existing {
                            Some(e) => Some(*e),
                            None => None,
                        },
                        t,
                    ),
                ),
            ),
        },
{
    match last_modified(created, modified) {
        Ok(t) => Ok((t, plan_operation(existing, &t))),
        Err(TimestampError::NoTimestamp) => Err(ScanError::NoTimestamp),
    }
}

impl ScannedFile {
    /// The row for a file read from disk: its fingerprint, its probed media
    /// attributes, its lower-cased extension, its size and time.
    pub fn new_from_file(
        path: String,
        head: &[u8],
        size: u64,
        last_modified: Timestamp,
        streams: Option<&Vec<ProbeStream>>,
        operation: Option<Operation>,
    ) -> (r: Result<ScannedFile, FingerprintError>)
        ensures
            match (r, fingerprint_of(head@, size)) {
                (Ok(f), Ok(fp)) => f.operation == operation && f.entry.path@ == path@
                    && f.entry.fingerprint@ == fp && f.entry.last_modified == last_modified
                    && f.entry.bytes == size && !f.entry.claimed && stored_extension_matches(
                    f.entry.extension,
                    path@,
                ) && probe_fields_match(
                    f.entry,
                    match streams {
                        Some(v) => Some(v@),
                        None => None,
                    },
                ),
                (Err(e), Err(e2)) => e == e2,
                _ => false,
            },
    {
        let hash = match fingerprint(head, size) {
            Ok(h) => h,
            Err(e) => {
                return Err(e);
            },
        };
        let info = probe_info(streams);
        let extension = file_extension(&path);
        let entry = CatalogEntry {
            path,
            fingerprint: hash,
            last_modified,
            codec: info.codec,
            width: info.width,
            height: info.height,
            bit_rate: info.bit_rate,
            extension,
            bytes: size,
            claimed: false,
        };
        Ok(ScannedFile { entry, operation })
    }

    /// A stored row that needs no write.
    pub fn new_from_row(row: &CatalogEntry) -> (r: ScannedFile)
        ensures
            r.entry == *row,
            r.operation is None,
    {
        ScannedFile { entry: row.duplicate(), operation: None }
    }

    /// Applies the planned write to the catalog: returns how many rows were
    /// written (0 or 1), or the store's refusal.
    pub fn store(&self, catalog: &mut Catalog) -> (r: Result<u64, StoreError>)
        requires
            old(catalog).wf(),
        ensures
            final(catalog).wf(),
            store_post(self.operation, self.entry, old(catalog).view(), r, final(catalog).view()),
    {
        match self.operation {
            None => Ok(0),
            Some(Operation::Insert) => match catalog.insert(self.entry.unclaimed()) {
                Ok(()) => Ok(1),
                Err(e) => Err(e),
            },
            Some(Operation::Update) => match catalog.update(self.entry.duplicate()) {
                Ok(()) => Ok(1),
                Err(e) => Err(e),
            },
        }
    }
}

/// `r` is what scanning the file of `report` gives against the stored entry
/// `existing` of its path.
pub open spec fn new_post(
    report: FileReport,
    existing: Option<CatalogEntry>,
    r: Result<ScannedFile, ScanError>,
) -> bool {
    match last_modified_of(report.created, report.modified) {
        Err(_) => r == Err::<ScannedFile, ScanError>(ScanError::NoTimestamp),
        Ok(t) => match plan_of(existing, t) {
            None => r is Ok && r->Ok_0.operation is None && Some(r->Ok_0.entry) == existing,
            Some(op) => match fingerprint_of(report.head@, report.size) {
                Err(_) => r == Err::<ScannedFile, ScanError>(ScanError::Unreadable),
                Ok(fp) => r is Ok && r->Ok_0.operation == Some(op) && entry_from_report(
                    r->Ok_0.entry,
                    report,
                    t,
                    fp,
                ),
            },
        },
    }
}

impl ScannedFile {
    /// Scans the file of `report` against the entry stored under its path:
    /// works out its last-modified time (with none known the caller must
    /// stop), decides the write it needs, and builds its row — from the file
    /// when it is new or newer, else the stored row as it is.
    pub fn new(report: &FileReport, existing: Option<&CatalogEntry>) -> (r: Result<ScannedFile, ScanError>)
        ensures
            new_post(
                *report,
                match existing {
                    Some(e) => Some(*e),
                    None => None,
                },
                r,
            ),
    {
        let t = match last_modified(report.created, report.modified) {
            Ok(t) => t,
            Err(TimestampError::NoTimestamp) => {
                return Err(ScanError::NoTimestamp);
            },
        };
        Self::new_from_result(report, t, existing)
    }

    /// The scanned file for `report` with last-modified time `t`, given the
    /// entry stored under its path.
    fn new_from_result(report: &FileReport, t: Timestamp, existing: Option<&CatalogEntry>) -> (r:
        Result<ScannedFile, ScanError>)
        requires
            last_modified_of(report.created, report.modified) == Ok::<Timestamp, TimestampError>(t),
        ensures
            new_post(
                *report,
                match existing {
                    Some(e) => Some(*e),
                    None => None,
                },
                r,
            ),
    {
        match plan_operation(existing, &t) {
            None => match existing {
                Some(e) => Ok(Self::new_from_row(e)),
                None => {
                    // A path without an entry always needs an insert.
                    assert(false);
                    Err(ScanError::Unreadable)
                },
            },
            Some(op) => {
                let streams = match &report.streams {
                    Some(v) => Some(v),
                    None => None,
                };
                match Self::new_from_file(
                    report.path.clone(),
                    report.head.as_slice(),
                    report.size,
                    t,
                    streams,
                    Some(op),
                ) {
                    Ok(f) => {
                        let ghost fp = fingerprint_of(report.head@, report.size)->Ok_0;
                        assert(entry_from_report(f.entry, *report, t, fp));
                        Ok(f)
                    },
                    Err(FingerprintError::ShortRead) => Err(ScanError::Unreadable),
                }
            },
        }
    }
}

/// Reconciles one regular file against the catalog: inserts a row for a new
/// path, updates the row of a file that is at least a millisecond newer than
/// stored, and leaves everything else untouched. A file with no timestamp at
/// all, or whose head could not be read, is reported and nothing is written.
pub fn scan_file(catalog: &mut Catalog, report: &FileReport) -> (r: Result<Option<Operation>, ScanError>)
    requires
        old(catalog).wf(),
    ensures
        final(catalog).wf(),
        scan_post(old(catalog).view(), *report, r, final(catalog).view()),
{
    let file = match ScannedFile::new(report, catalog.find_by_path(report.path.as_str())) {
        Ok(f) => f,
        Err(e) => {
            return Err(e);
        },
    };
    let op = file.operation;
    let written = file.store(catalog);
    // The planned write always fits the catalog: an insert only for a new
    // path, an update only for a known one.
    assert(written is Ok);
    Ok(op)
}

/// Reconciling a file once keeps paths unique.
pub proof fn lemma_scan_keeps_paths_unique(
    s: Seq<CatalogEntry>,
    r: FileReport,
    res: Result<Option<Operation>, ScanError>,
    s2: Seq<CatalogEntry>,
)
    requires
        paths_unique(s),
        scan_post(s, r, res, s2),
    ensures
        paths_unique(s2),
{
    if let Ok(t) = last_modified_of(r.created, r.modified) {
        if let Some(op) = plan_of(entry_at(s, r.path@), t) {
            if let Ok(fp) = fingerprint_of(r.head@, r.size) {
                let e = choose|e: CatalogEntry|
                    #![trigger entry_from_report(e, r, t, fp)]
                    entry_from_report(e, r, t, fp) && s2 == (if op == Operation::Insert {
                        s.push(e)
                    } else {
                        s.update(index_of(s, r.path@), updated_entry(s[index_of(s, r.path@)], e))
                    });
                if op == Operation::Insert {
                    assert(!has_path(s, r.path@));
                    assert forall|i: int, j: int|
                        0 <= i < s2.len() && 0 <= j < s2.len() && i != j implies #[trigger] s2[i].path@
                        != #[trigger] s2[j].path@ by {
                        if i < s.len() && j < s.len() {
                            assert(s2[i] == s[i] && s2[j] == s[j]);
                        } else if i < s.len() {
                            assert(s2[i] == s[i]);
                        } else {
                            assert(s2[j] == s[j]);
                        }
                    }
                } else {
                    let k = index_of(s, r.path@);
                    assert(s[k].path@ == r.path@);
                    assert forall|i: int, j: int|
                        0 <= i < s2.len() && 0 <= j < s2.len() && i != j implies #[trigger] s2[i].path@
                        != #[trigger] s2[j].path@ by {
                        assert(s2[i].path@ == s[i].path@);
                        assert(s2[j].path@ == s[j].path@);
                    }
                }
            }
        }
    }
}

/// Scanning the file of `r` against `s` would write nothing: the file has no
/// timestamp, is not newer than its stored row, or cannot be read.
pub open spec fn rescan_is_noop(s: Seq<CatalogEntry>, r: FileReport) -> bool {
    match last_modified_of(r.created, r.modified) {
        Err(_) => true,
        Ok(t) => match plan_of(entry_at(s, r.path@), t) {
            None => true,
            Some(_) => fingerprint_of(r.head@, r.size) is Err,
        },
    }
}

/// `states` are the catalogs before, between and after reconciling the files
/// of `rs` one after another from `s` to `s2`, with outcomes `res`.
pub open spec fn run_states(
    s: Seq<CatalogEntry>,
    rs: Seq<FileReport>,
    res: Seq<Result<Option<Operation>, ScanError>>,
    s2: Seq<CatalogEntry>,
    states: Seq<Seq<CatalogEntry>>,
) -> bool {
    &&& res.len() == rs.len()
    &&& states.len() == rs.len() + 1
    &&& states[0] == s
    &&& states[rs.len() as int] == s2
    &&& forall|i: int|
        0 <= i < rs.len() ==> scan_post(#[trigger] states[i], rs[i], res[i], states[i + 1])
}

/// The catalog `s2` and the results `res` are what reconciling the files of
/// `rs`, one after another, against the catalog `s` gives.
pub open spec fn scan_run(
    s: Seq<CatalogEntry>,
    rs: Seq<FileReport>,
    res: Seq<Result<Option<Operation>, ScanError>>,
    s2: Seq<CatalogEntry>,
) -> bool {
    exists|states: Seq<Seq<CatalogEntry>>| #[trigger] run_states(s, rs, res, s2, states)
}

/// No two reports name the same path.
pub open spec fn distinct_paths(rs: Seq<FileReport>) -> bool {
    forall|i: int, j: int|
        0 <= i < rs.len() && 0 <= j < rs.len() && i != j ==> #[trigger] rs[i].path@ != #[trigger] rs[j].path@
}

/// Reconciling one file leaves the entry of every other path as it was.
proof fn lemma_scan_frame(
    s: Seq<CatalogEntry>,
    r: FileReport,
    res: Result<Option<Operation>, ScanError>,
    s2: Seq<CatalogEntry>,
    p: Seq<char>,
)
    requires
        paths_unique(s),
        scan_post(s, r, res, s2),
        p != r.path@,
    ensures
        entry_at(s2, p) == entry_at(s, p),
{
    lemma_scan_keeps_paths_unique(s, r, res, s2);
    if s2 != s {
        if has_path(s, p) {
            let k = index_of(s, p);
            assert(s[k].path@ == p);
            assert(s2[k] == s[k]);
            lemma_index_of_unique(s2, p, k);
        } else if has_path(s2, p) {
            let i = index_of(s2, p);
            assert(s2[i].path@ == p);
            if i < s.len() {
                assert(s2[i].path@ == s[i].path@);
            }
        }
    }
}

/// After a file is reconciled, reconciling it again would write nothing.
proof fn lemma_scan_settles(
    s: Seq<CatalogEntry>,
    r: FileReport,
    res: Result<Option<Operation>, ScanError>,
    s2: Seq<CatalogEntry>,
)
    requires
        paths_unique(s),
        scan_post(s, r, res, s2),
    ensures
        rescan_is_noop(s2, r),
{
    if let Ok(t) = last_modified_of(r.created, r.modified) {
        if let Some(op) = plan_of(entry_at(s, r.path@), t) {
            if let Ok(fp) = fingerprint_of(r.head@, r.size) {
                lemma_scan_keeps_paths_unique(s, r, res, s2);
                let e = choose|e: CatalogEntry|
                    #![trigger entry_from_report(e, r, t, fp)]
                    entry_from_report(e, r, t, fp) && s2 == (if op == Operation::Insert {
                        s.push(e)
                    } else {
                        s.update(index_of(s, r.path@), updated_entry(s[index_of(s, r.path@)], e))
                    });
                let k = if op == Operation::Insert {
                    s.len() as int
                } else {
                    index_of(s, r.path@)
                };
                assert(s2[k].path@ == r.path@ && s2[k].last_modified == t);
                lemma_index_of_unique(s2, r.path@, k);
            }
        }
    }
}

/// Reconciling a file that would need no write changes nothing, and reports
/// no write.
proof fn lemma_noop_scan(
    s: Seq<CatalogEntry>,
    r: FileReport,
    res: Result<Option<Operation>, ScanError>,
    s2: Seq<CatalogEntry>,
)
    requires
        rescan_is_noop(s, r),
        scan_post(s, r, res, s2),
    ensures
        s2 == s,
        !(res matches Ok(Some(_))),
{
}

/// After the first `k` files of a run over distinct files, each of them
/// would need no write.
proof fn lemma_first_run_settles(
    s: Seq<CatalogEntry>,
    rs: Seq<FileReport>,
    res: Seq<Result<Option<Operation>, ScanError>>,
    s2: Seq<CatalogEntry>,
    states: Seq<Seq<CatalogEntry>>,
    k: int,
)
    requires
        paths_unique(s),
        distinct_paths(rs),
        run_states(s, rs, res, s2, states),
        0 <= k <= rs.len(),
    ensures
        paths_unique(states[k]),
        forall|i: int| 0 <= i < k ==> rescan_is_noop(states[k], #[trigger] rs[i]),
    decreases k,
{
    if k > 0 {
        lemma_first_run_settles(s, rs, res, s2, states, k - 1);
        let m = states[k - 1];
        assert(scan_post(states[k - 1], rs[k - 1], res[k - 1], states[k]));
        lemma_scan_keeps_paths_unique(m, rs[k - 1], res[k - 1], states[k]);
        lemma_scan_settles(m, rs[k - 1], res[k - 1], states[k]);
        assert forall|i: int| 0 <= i < k implies rescan_is_noop(states[k], #[trigger] rs[i]) by {
            if i < k - 1 {
                assert(rescan_is_noop(m, rs[i]));
                assert(rs[i].path@ != rs[k - 1].path@);
                lemma_scan_frame(m, rs[k - 1], res[k - 1], states[k], rs[i].path@);
            }
        }
    }
}

/// In a run over files that each need no write, no catalog along the way
/// differs from the first, and no outcome is a write.
proof fn lemma_settled_run(
    s: Seq<CatalogEntry>,
    rs: Seq<FileReport>,
    res: Seq<Result<Option<Operation>, ScanError>>,
    s2: Seq<CatalogEntry>,
    states: Seq<Seq<CatalogEntry>>,
    k: int,
)
    requires
        forall|i: int| 0 <= i < rs.len() ==> rescan_is_noop(s, #[trigger] rs[i]),
        run_states(s, rs, res, s2, states),
        0 <= k <= rs.len(),
    ensures
        states[k] == s,
        forall|i: int| 0 <= i < k ==> !(#[trigger] res[i] matches Ok(Some(_))),
    decreases k,
{
    if k > 0 {
        lemma_settled_run(s, rs, res, s2, states, k - 1);
        assert(scan_post(states[k - 1], rs[k - 1], res[k - 1], states[k]));
        assert(rescan_is_noop(s, rs[k - 1]));
        lemma_noop_scan(states[k - 1], rs[k - 1], res[k - 1], states[k]);
    }
}

/// Idempotence of the scanner: a second run over an unchanged tree (the same
/// reports, one per path) writes nothing, and reports no write for any file.
pub proof fn lemma_rescan_tree_writes_nothing(
    s0: Seq<CatalogEntry>,
    rs: Seq<FileReport>,
    res1: Seq<Result<Option<Operation>, ScanError>>,
    s1: Seq<CatalogEntry>,
    res2: Seq<Result<Option<Operation>, ScanError>>,
    s2: Seq<CatalogEntry>,
)
    requires
        paths_unique(s0),
        distinct_paths(rs),
        scan_run(s0, rs, res1, s1),
        scan_run(s1, rs, res2, s2),
    ensures
        s2 == s1,
        forall|i: int| 0 <= i < res2.len() ==> !(#[trigger] res2[i] matches Ok(Some(_))),
{
    let st1 = choose|st: Seq<Seq<CatalogEntry>>| #[trigger] run_states(s0, rs, res1, s1, st);
    let st2 = choose|st: Seq<Seq<CatalogEntry>>| #[trigger] run_states(s1, rs, res2, s2, st);
    lemma_first_run_settles(s0, rs, res1, s1, st1, rs.len() as int);
    lemma_settled_run(s1, rs, res2, s2, st2, rs.len() as int);
}

/// Reconciling one file creates no entry but its own.
proof fn lemma_scan_adds_only_its_path(
    s: Seq<CatalogEntry>,
    r: FileReport,
    res: Result<Option<Operation>, ScanError>,
    s2: Seq<CatalogEntry>,
    p: Seq<char>,
)
    requires
        paths_unique(s),
        scan_post(s, r, res, s2),
        has_path(s2, p),
        !has_path(s, p),
    ensures
        p == r.path@,
{
    if p != r.path@ {
        lemma_scan_frame(s, r, res, s2, p);
    }
}

/// A scanner run creates entries only for the files it was handed: a path
/// that has an entry afterwards and had none before is the path of one of the
/// reports. With the walk handing out only regular files that are not
/// symbolic links, no symbolic link ever gets an entry.
pub proof fn lemma_run_adds_only_reported_paths(
    s: Seq<CatalogEntry>,
    rs: Seq<FileReport>,
    res: Seq<Result<Option<Operation>, ScanError>>,
    s2: Seq<CatalogEntry>,
    p: Seq<char>,
)
    requires
        paths_unique(s),
        scan_run(s, rs, res, s2),
        has_path(s2, p),
        !has_path(s, p),
    ensures
        exists|i: int| 0 <= i < rs.len() && (#[trigger] rs[i]).path@ == p,
{
    let st = choose|st: Seq<Seq<CatalogEntry>>| #[trigger] run_states(s, rs, res, s2, st);
    lemma_states_add_only_reported(s, rs, res, s2, st, rs.len() as int, p);
}

proof fn lemma_states_add_only_reported(
    s: Seq<CatalogEntry>,
    rs: Seq<FileReport>,
    res: Seq<Result<Option<Operation>, ScanError>>,
    s2: Seq<CatalogEntry>,
    st: Seq<Seq<CatalogEntry>>,
    k: int,
    p: Seq<char>,
)
    requires
        paths_unique(s),
        run_states(s, rs, res, s2, st),
        0 <= k <= rs.len(),
        has_path(st[k], p),
        !has_path(s, p),
    ensures
        paths_unique(st[k]),
        exists|i: int| 0 <= i < k && (#[trigger] rs[i]).path@ == p,
    decreases k,
{
    if k > 0 {
        assert(scan_post(st[k - 1], rs[k - 1], res[k - 1], st[k]));
        lemma_states_unique(s, rs, res, s2, st, k - 1);
        lemma_scan_keeps_paths_unique(st[k - 1], rs[k - 1], res[k - 1], st[k]);
        if has_path(st[k - 1], p) {
            lemma_states_add_only_reported(s, rs, res, s2, st, k - 1, p);
        } else {
            lemma_scan_adds_only_its_path(st[k - 1], rs[k - 1], res[k - 1], st[k], p);
        }
    }
}

proof fn lemma_states_unique(
    s: Seq<CatalogEntry>,
    rs: Seq<FileReport>,
    res: Seq<Result<Option<Operation>, ScanError>>,
    s2: Seq<CatalogEntry>,
    st: Seq<Seq<CatalogEntry>>,
    k: int,
)
    requires
        paths_unique(s),
        run_states(s, rs, res, s2, st),
        0 <= k <= rs.len(),
    ensures
        paths_unique(st[k]),
    decreases k,
{
    if k > 0 {
        lemma_states_unique(s, rs, res, s2, st, k - 1);
        assert(scan_post(st[k - 1], rs[k - 1], res[k - 1], st[k]));
        lemma_scan_keeps_paths_unique(st[k - 1], rs[k - 1], res[k - 1], st[k]);
    }
}

/// The outcome that stops a run: the filesystem gives no timestamp.
pub open spec fn is_fatal(res: Result<Option<Operation>, ScanError>) -> bool {
    res == Err::<Option<Operation>, ScanError>(ScanError::NoTimestamp)
}

/// One scanner run over the regular files of a tree: reconciles each report
/// in turn and returns each outcome. A file without any timestamp means the
/// filesystem cannot be worked with: the run stops there, and its outcome is
/// the last one returned.
pub fn scan_files(catalog: &mut Catalog, reports: &Vec<FileReport>) -> (r: Vec<
    Result<Option<Operation>, ScanError>,
>)
    requires
        old(catalog).wf(),
    ensures
        final(catalog).wf(),
        r@.len() <= reports@.len(),
        scan_run(old(catalog).view(), reports@.take(r@.len() as int), r@, final(catalog).view()),
        forall|j: int| 0 <= j < r@.len() - 1 ==> !is_fatal(#[trigger] r@[j]),
        r@.len() < reports@.len() ==> r@.len() > 0 && is_fatal(r@.last()),
{
    let ghost s0 = catalog.view();
    let ghost mut states: Seq<Seq<CatalogEntry>> = seq![s0];
    let mut out: Vec<Result<Option<Operation>, ScanError>> = Vec::new();
    let mut i: usize = 0;
    let mut stop = false;
    while i < reports.len() && !stop
        invariant
            catalog.wf(),
            i <= reports@.len(),
            out@.len() == i,
            run_states(s0, reports@.take(i as int), out@, catalog.view(), states),
            forall|j: int| 0 <= j < out@.len() - 1 ==> !is_fatal(#[trigger] out@[j]),
            stop ==> i > 0 && is_fatal(out@.last()),
            !stop ==> forall|j: int| 0 <= j < out@.len() ==> !is_fatal(#[trigger] out@[j]),
        decreases reports.len() - i,
    {
        let ghost mid = catalog.view();
        let ghost before = out@;
        let ghost prev = states;
        let res = scan_file(catalog, &reports[i]);
        stop = match res {
            Err(ScanError::NoTimestamp) => true,
            _ => false,
        };
        out.push(res);
        proof {
            states = states.push(catalog.view());
            let rs = reports@.take(i + 1);
            assert forall|j: int| 0 <= j < rs.len() implies scan_post(
                #[trigger] states[j],
                rs[j],
                out@[j],
                states[j + 1],
            ) by {
                if j < i {
                    assert(states[j] == prev[j] && states[j + 1] == prev[j + 1]);
                    assert(rs[j] == reports@.take(i as int)[j]);
                    assert(out@[j] == before[j]);
                }
            }
            assert forall|j: int| 0 <= j < out@.len() - 1 implies !is_fatal(#[trigger] out@[j]) by {
                assert(out@[j] == before[j]);
            }
            if !stop {
                assert forall|j: int| 0 <= j < out@.len() implies !is_fatal(#[trigger] out@[j]) by {
                    if j < i {
                        assert(out@[j] == before[j]);
                    }
                }
            }
        }
        i = i + 1;
    }
    out
}

} // verus!
