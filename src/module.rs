use vstd::prelude::*;
use vstd::string::*;
use crate::clean::CleanPass;
use crate::reencode::ReencodePass;
use crate::walk::Walk;

verus! {

/// A unit of work that a scheduler runs pass after pass, each under its own
/// name and configuration.
pub trait Module {
    /// The name under which the module's configuration is stored.
    fn module_name(&self) -> &'static str;
}

/// The scanner: walks each active root and reconciles its files.
pub struct Scan {}

/// The cleaner: deletes entries whose file has vanished.
pub struct Clean {}

/// The transcode worker: converts entries to the target format.
pub struct Reencode {}

impl Module for Scan {
    fn module_name(&self) -> &'static str {
        "scan"
    }
}

impl Module for Clean {
    fn module_name(&self) -> &'static str {
        "clean"
    }
}

impl Module for Reencode {
    fn module_name(&self) -> &'static str {
        "reencode"
    }
}

impl Scan {
    /// The walk of one root for a scanner pass.
    pub fn start_walk(&self, root: String, root_is_dir: bool) -> (r: Walk)
        ensures
            root_is_dir ==> r.view() == seq![root@],
            !root_is_dir ==> r.view() == Seq::<Seq<char>>::empty(),
    {
        Walk::new(root, root_is_dir)
    }
}

impl Clean {
    /// A fresh cleaner pass.
    pub fn start_pass(&self) -> (r: CleanPass)
        ensures
            r.offset() == 0,
            r.limit() == crate::clean::PAGE_SIZE,
            !r.done(),
    {
        CleanPass::new()
    }
}

impl Reencode {
    /// A fresh transcode pass.
    pub fn start_pass(&self) -> (r: ReencodePass)
        ensures
            r.held() == Seq::<Seq<char>>::empty(),
            !r.done(),
    {
        ReencodePass::new()
    }
}

/// What the scheduler does once a pass has returned.
#[derive(Clone, Copy, Debug, PartialEq, Eq, Structural)]
pub enum AfterPass {
    /// Sleep this many seconds, then run the next pass.
    Sleep(u64),
    /// Run no further pass.
    Stop,
}

/// The scheduler's step after a pass: with looping on, sleep for the
/// configured interval (a negative interval counts as none); else stop.
pub fn after_pass(do_loop: bool, interval_seconds: i32) -> (r: AfterPass)
    ensures
        !do_loop ==> r == AfterPass::Stop,
        do_loop && interval_seconds >= 0 ==> r == AfterPass::Sleep(interval_seconds as u64),
        do_loop && interval_seconds < 0 ==> r == AfterPass::Sleep(0),
{
    if !do_loop {
        AfterPass::Stop
    } else if interval_seconds < 0 {
        AfterPass::Sleep(0)
    } else {
        AfterPass::Sleep(interval_seconds as u64)
    }
}

/// `s` without the run of '"' at each end.
pub open spec fn trim_quotes(s: Seq<char>) -> Seq<char>
    decreases s.len(),
{
    if s.len() > 0 && s[0] == '"' {
        trim_quotes(s.drop_first())
    } else if s.len() > 0 && s.last() == '"' {
        trim_quotes(s.drop_last())
    } else {
        s
    }
}

/// A configuration value read as JSON text, with its quotes taken off:
/// `"mkv"` reads as `mkv`.
pub fn config_text(raw: &str) -> (r: String)
    ensures
        r@ == trim_quotes(raw@),
{
    let n = raw.unicode_len();
    let mut a: usize = 0;
    let mut b: usize = n;
    assert(raw@.subrange(0, n as int) =~= raw@);
    while a < b && (raw.get_char(a) == '"' || raw.get_char(b - 1) == '"')
        invariant
            a <= b <= n == raw@.len(),
            trim_quotes(raw@.subrange(a as int, b as int)) == trim_quotes(raw@),
        decreases b - a,
    {
        let ghost w = raw@.subrange(a as int, b as int);
        if raw.get_char(a) == '"' {
            assert(w.drop_first() =~= raw@.subrange(a + 1, b as int));
            a = a + 1;
        } else {
            assert(w.drop_last() =~= raw@.subrange(a as int, b - 1));
            b = b - 1;
        }
    }
    String::from_str(raw.substring_char(a, b))
}

} // verus!
