use vstd::prelude::*;

verus! {

/// A point in time as read from the filesystem or the catalog: whole seconds
/// since the Unix epoch plus a sub-second count of nanoseconds. A well-formed
/// value (`wf`) has fewer than a second's worth of nanoseconds; `new` builds
/// only such values. Comparisons go by `total_nanos` and hold for any value.
#[derive(Clone, Copy, Debug, PartialEq, Eq, Structural)]
pub struct Timestamp {
    pub secs: i64,
    pub nanos: u32,
}

/// Why no last-modified time could be established for a file.
#[derive(Clone, Copy, Debug, PartialEq, Eq, Structural)]
pub enum TimestampError {
    /// The filesystem reports neither a creation nor a modification time.
    NoTimestamp,
}

pub const NANOS_PER_SEC: i128 = 1_000_000_000;

pub const NANOS_PER_MILLI: i128 = 1_000_000;

impl Timestamp {
    pub open spec fn wf(self) -> bool {
        self.nanos < 1_000_000_000
    }

    /// The instant `secs` seconds and `nanos` nanoseconds after the epoch;
    /// `None` when `nanos` is a second or more.
    pub fn new(secs: i64, nanos: u32) -> (r: Option<Timestamp>)
        ensures
            nanos < 1_000_000_000 ==> r == Some(Timestamp { secs, nanos }),
            nanos >= 1_000_000_000 ==> r is None,
            r is Some ==> r->Some_0.wf(),
    {
        if nanos < 1_000_000_000 {
            Some(Timestamp { secs, nanos })
        } else {
            None
        }
    }

    /// The instant as a count of nanoseconds since the epoch.
    pub open spec fn total_nanos(self) -> int {
        self.secs as int * 1_000_000_000 + self.nanos as int
    }

    /// The same as `total_nanos`, computed.
    pub fn as_nanos(&self) -> (r: i128)
        ensures
            r as int == self.total_nanos(),
    {
        let s = self.secs as i128;
        assert(-0x8000_0000_0000_0000 <= s <= 0x7fff_ffff_ffff_ffff);
        assert(-0x8000_0000_0000_0000 * 1_000_000_000 <= s * 1_000_000_000
            <= 0x7fff_ffff_ffff_ffff * 1_000_000_000) by (nonlinear_arith)
            requires
                -0x8000_0000_0000_0000 <= s <= 0x7fff_ffff_ffff_ffff,
        ;
        s * NANOS_PER_SEC + self.nanos as i128
    }
}

/// The later of two instants; on a tie, the second.
pub open spec fn later_of(a: Timestamp, b: Timestamp) -> Timestamp {
    if a.total_nanos() <= b.total_nanos() {
        b
    } else {
        a
    }
}

/// `fresh` lies at least one whole millisecond after `stored`.
pub open spec fn newer_by_a_milli(fresh: Timestamp, stored: Timestamp) -> bool {
    fresh.total_nanos() - stored.total_nanos() >= 1_000_000
}

/// What `last_modified` gives for the creation and modification times that a
/// filesystem reported.
pub open spec fn last_modified_of(created: Option<Timestamp>, modified: Option<Timestamp>) -> Result<
    Timestamp,
    TimestampError,
> {
    match (created, modified) {
        (Some(c), Some(m)) => Ok(later_of(c, m)),
        (Some(c), None) => Ok(c),
        (None, Some(m)) => Ok(m),
        (None, None) => Err(TimestampError::NoTimestamp),
    }
}

/// An absent time, or a well-formed one.
pub open spec fn opt_wf(t: Option<Timestamp>) -> bool {
    match t {
        Some(x) => x.wf(),
        None => true,
    }
}

/// The later of two instants; on a tie, the second.
pub fn later(a: Timestamp, b: Timestamp) -> (r: Timestamp)
    ensures
        r == later_of(a, b),
{
    if a.as_nanos() <= b.as_nanos() {
        b
    } else {
        a
    }
}

/// The best available last-modified time of a file: the later of its creation
/// and modification times, or whichever of them exists. With neither there is
/// no timestamp to use, and the caller must stop rather than invent one.
pub fn last_modified(created: Option<Timestamp>, modified: Option<Timestamp>) -> (r: Result<
    Timestamp,
    TimestampError,
>)
    ensures
        r == last_modified_of(created, modified),
        r is Err <==> created is None && modified is None,
        opt_wf(created) && opt_wf(modified) && r is Ok ==> r->Ok_0.wf(),
{
    match (created, modified) {
        (Some(c), Some(m)) => Ok(later(c, m)),
        (Some(c), None) => Ok(c),
        (None, Some(m)) => Ok(m),
        (None, None) => Err(TimestampError::NoTimestamp),
    }
}

/// Whether a freshly read time is newer than a stored one when both are seen at
/// whole-millisecond resolution: the difference, truncated to milliseconds, is
/// at least one.
pub fn is_newer(fresh: &Timestamp, stored: &Timestamp) -> (r: bool)
    ensures
        r == newer_by_a_milli(*fresh, *stored),
{
    let f = fresh.as_nanos();
    let s = stored.as_nanos();
    f - s >= NANOS_PER_MILLI
}

} // verus!
