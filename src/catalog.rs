use vstd::prelude::*;
use crate::probe::Kbps;
use crate::text::text_eq;
use crate::timestamp::Timestamp;

verus! {

/// One known file.
#[derive(Debug)]
pub struct CatalogEntry {
    /// Canonical filesystem path; no two entries of a catalog share it.
    pub path: String,
    /// Digest of the file's leading bytes.
    pub fingerprint: String,
    pub last_modified: Timestamp,
    pub codec: Option<String>,
    pub width: Option<i32>,
    pub height: Option<i32>,
    pub bit_rate: Option<Kbps>,
    /// File extension, lower-cased.
    pub extension: Option<String>,
    /// File size when it was scanned.
    pub bytes: u64,
    /// A transcode worker holds this entry.
    pub claimed: bool,
}

/// What an atomic claim hands to the worker that won it.
#[derive(Debug)]
pub struct Claim {
    pub path: String,
    pub bytes: u64,
}

/// Why a store operation was refused.
#[derive(Clone, Copy, Debug, PartialEq, Eq, Structural)]
pub enum StoreError {
    /// An insert named a path that already has an entry.
    DuplicatePath,
    /// An update named a path that has no entry.
    MissingPath,
}

/// The catalog store held in memory: the entries in a stable order, at most
/// one per path.
pub struct Catalog {
    entries: Vec<CatalogEntry>,
}

/// No two entries share a path.
pub open spec fn paths_unique(s: Seq<CatalogEntry>) -> bool {
    forall|i: int, j: int|
        0 <= i < s.len() && 0 <= j < s.len() && i != j ==> #[trigger] s[i].path@ != #[trigger] s[j].path@
}

/// Some entry has path `p`.
pub open spec fn has_path(s: Seq<CatalogEntry>, p: Seq<char>) -> bool {
    exists|i: int| 0 <= i < s.len() && #[trigger] s[i].path@ == p
}

/// The position of the entry with path `p` (meaningful when `has_path`).
pub open spec fn index_of(s: Seq<CatalogEntry>, p: Seq<char>) -> int {
    choose|i: int| 0 <= i < s.len() && #[trigger] s[i].path@ == p
}

/// The entry with path `p`, if any.
pub open spec fn entry_at(s: Seq<CatalogEntry>, p: Seq<char>) -> Option<CatalogEntry> {
    if has_path(s, p) {
        Some(s[index_of(s, p)])
    } else {
        None
    }
}

/// `e` with its claim flag set to `c`.
pub open spec fn with_claim(e: CatalogEntry, c: bool) -> CatalogEntry {
    CatalogEntry { claimed: c, ..e }
}

/// `o` holds the text `t`.
pub open spec fn holds_text(o: Option<String>, t: Seq<char>) -> bool {
    match o {
        Some(x) => x@ == t,
        None => false,
    }
}

/// `e` does not already have the target extension and codec.
pub open spec fn mismatched(e: CatalogEntry, ext: Seq<char>, codec: Seq<char>) -> bool {
    !(holds_text(e.extension, ext) && holds_text(e.codec, codec))
}

/// The texts of some strings.
pub open spec fn texts(v: Seq<String>) -> Seq<Seq<char>> {
    v.map_values(|x: String| x@)
}

/// `e` has one of the extensions in `video`, those of video files.
pub open spec fn has_video_extension(e: CatalogEntry, video: Seq<Seq<char>>) -> bool {
    match e.extension {
        Some(x) => video.contains(x@),
        None => false,
    }
}

/// `e` is a video file that may be claimed for conversion to `ext` and
/// `codec`.
pub open spec fn claimable(e: CatalogEntry, ext: Seq<char>, codec: Seq<char>, video: Seq<Seq<char>>) -> bool {
    !e.claimed && has_video_extension(e, video) && mismatched(e, ext, codec)
}

pub open spec fn any_claimable(s: Seq<CatalogEntry>, ext: Seq<char>, codec: Seq<char>, video: Seq<Seq<char>>) -> bool {
    exists|i: int| 0 <= i < s.len() && claimable(#[trigger] s[i], ext, codec, video)
}

/// The position of the first claimable entry (meaningful when there is one).
pub open spec fn first_claimable(s: Seq<CatalogEntry>, ext: Seq<char>, codec: Seq<char>, video: Seq<Seq<char>>) -> int {
    choose|i: int|
        0 <= i < s.len() && claimable(#[trigger] s[i], ext, codec, video) && forall|j: int|
            0 <= j < i ==> !claimable(#[trigger] s[j], ext, codec, video)
}

/// The catalog after one atomic claim, and what the claim returned: the first
/// claimable entry is marked claimed and handed out; with none, nothing
/// changes.
pub open spec fn claim_step(s: Seq<CatalogEntry>, ext: Seq<char>, codec: Seq<char>, video: Seq<Seq<char>>) -> (
    Seq<CatalogEntry>,
    Option<(Seq<char>, u64)>,
) {
    if any_claimable(s, ext, codec, video) {
        let i = first_claimable(s, ext, codec, video);
        (s.update(i, with_claim(s[i], true)), Some((s[i].path@, s[i].bytes)))
    } else {
        (s, None)
    }
}

/// The paths of the page of `limit` entries that starts at `offset`.
pub open spec fn page_paths(s: Seq<CatalogEntry>, offset: int, limit: int) -> Seq<Seq<char>> {
    let lo = if offset < s.len() {
        offset
    } else {
        s.len() as int
    };
    let hi = if offset + limit < s.len() {
        offset + limit
    } else {
        s.len() as int
    };
    s.subrange(lo, hi).map_values(|e: CatalogEntry| e.path@)
}

/// `new` as the stored row for `old`: every field from `new` but the claim
/// flag, which the scanner does not touch.
pub open spec fn updated_entry(old: CatalogEntry, new: CatalogEntry) -> CatalogEntry {
    with_claim(new, old.claimed)
}

proof fn lemma_first_claimable_exists(s: Seq<CatalogEntry>, ext: Seq<char>, codec: Seq<char>, video: Seq<Seq<char>>)
    requires
        any_claimable(s, ext, codec, video),
    ensures
        exists|i: int|
            0 <= i < s.len() && claimable(#[trigger] s[i], ext, codec, video) && forall|j: int|
                0 <= j < i ==> !claimable(#[trigger] s[j], ext, codec, video),
    decreases s.len(),
{
    let k = choose|k: int| 0 <= k < s.len() && claimable(#[trigger] s[k], ext, codec, video);
    if exists|j: int| 0 <= j < k && claimable(#[trigger] s[j], ext, codec, video) {
        let j = choose|j: int| 0 <= j < k && claimable(#[trigger] s[j], ext, codec, video);
        let t = s.take(k);
        assert(t[j] == s[j]);
        lemma_first_claimable_exists(t, ext, codec, video);
        let i = choose|i: int|
            0 <= i < t.len() && claimable(#[trigger] t[i], ext, codec, video) && forall|j2: int|
                0 <= j2 < i ==> !claimable(#[trigger] t[j2], ext, codec, video);
        assert(s[i] == t[i]);
        assert forall|j2: int| 0 <= j2 < i implies !claimable(#[trigger] s[j2], ext, codec, video) by {
            assert(s[j2] == t[j2]);
        }
    }
}

impl CatalogEntry {
    /// A copy of the entry.
    pub fn duplicate(&self) -> (r: CatalogEntry)
        ensures
            r == *self,
    {
        CatalogEntry {
            path: self.path.clone(),
            fingerprint: self.fingerprint.clone(),
            last_modified: self.last_modified,
            codec: self.codec.clone(),
            width: self.width,
            height: self.height,
            bit_rate: self.bit_rate,
            extension: self.extension.clone(),
            bytes: self.bytes,
            claimed: self.claimed,
        }
    }

    /// A copy of the entry with its claim flag cleared.
    pub fn unclaimed(&self) -> (r: CatalogEntry)
        ensures
            r == with_claim(*self, false),
    {
        let mut e = self.duplicate();
        e.claimed = false;
        e
    }

    /// Whether this entry's extension is one of `video`.
    pub fn has_video_extension(&self, video: &Vec<String>) -> (r: bool)
        ensures
            r == has_video_extension(*self, texts(video@)),
    {
        let x = match &self.extension {
            Some(x) => x,
            None => {
                return false;
            },
        };
        let mut i: usize = 0;
        while i < video.len()
            invariant
                i <= video@.len(),
                self.extension is Some && self.extension->Some_0@ == x@,
                forall|j: int| 0 <= j < i ==> video@[j]@ != x@,
            decreases video.len() - i,
        {
            if text_eq(video[i].as_str(), x.as_str()) {
                assert(texts(video@).len() == video@.len());
                assert(texts(video@)[i as int] == x@);
                assert(texts(video@).contains(x@));
                return true;
            }
            i = i + 1;
        }
        assert(!texts(video@).contains(x@)) by {
            if texts(video@).contains(x@) {
                let j = choose|j: int| 0 <= j < texts(video@).len() && texts(video@)[j] == x@;
                assert(video@[j]@ == x@);
            }
        }
        false
    }

    /// Whether this entry is still to be converted to `ext` and `codec`.
    pub fn is_mismatched(&self, ext: &str, codec: &str) -> (r: bool)
        ensures
            r == mismatched(*self, ext@, codec@),
    {
        let ext_ok = match &self.extension {
            Some(x) => text_eq(x.as_str(), ext),
            None => false,
        };
        let codec_ok = match &self.codec {
            Some(c) => text_eq(c.as_str(), codec),
            None => false,
        };
        !(ext_ok && codec_ok)
    }
}

impl Catalog {
    pub closed spec fn view(&self) -> Seq<CatalogEntry> {
        self.entries@
    }

    pub open spec fn wf(&self) -> bool {
        paths_unique(self.view())
    }

    /// An empty catalog.
    pub fn new() -> (r: Catalog)
        ensures
            r.wf(),
            r.view() == Seq::<CatalogEntry>::empty(),
    {
        Catalog { entries: Vec::new() }
    }

    pub fn len(&self) -> (r: usize)
        ensures
            r == self.view().len(),
    {
        self.entries.len()
    }

    /// The entry at position `i`.
    pub fn get(&self, i: usize) -> (r: &CatalogEntry)
        requires
            i < self.view().len(),
        ensures
            *r == self.view()[i as int],
    {
        &self.entries[i]
    }

    fn position(&self, path: &str) -> (r: Option<usize>)
        requires
            self.wf(),
        ensures
            match r {
                Some(i) => i < self.view().len() && self.view()[i as int].path@ == path@ && index_of(
                    self.view(),
                    path@,
                ) == i && has_path(self.view(), path@),
                None => !has_path(self.view(), path@),
            },
    {
        let mut i: usize = 0;
        while i < self.entries.len()
            invariant
                i <= self.entries@.len(),
                paths_unique(self.entries@),
                forall|j: int| 0 <= j < i ==> #[trigger] self.entries@[j].path@ != path@,
            decreases self.entries.len() - i,
        {
            if text_eq(self.entries[i].path.as_str(), path) {
                let ghost s = self.entries@;
                assert(has_path(s, path@));
                let ghost k = index_of(s, path@);
                assert(s[k].path@ == path@);
                assert(k == i);
                return Some(i);
            }
            i = i + 1;
        }
        None
    }

    /// The entry stored under `path`, if any.
    pub fn find_by_path(&self, path: &str) -> (r: Option<&CatalogEntry>)
        requires
            self.wf(),
        ensures
            match r {
                Some(e) => entry_at(self.view(), path@) == Some(*e),
                None => entry_at(self.view(), path@) is None,
            },
    {
        match self.position(path) {
            Some(i) => Some(&self.entries[i]),
            None => None,
        }
    }

    /// Adds an entry for a path that has none; refused if the path is known.
    pub fn insert(&mut self, e: CatalogEntry) -> (r: Result<(), StoreError>)
        requires
            old(self).wf(),
        ensures
            final(self).wf(),
            has_path(old(self).view(), e.path@) ==> r == Err::<(), StoreError>(
                StoreError::DuplicatePath,
            ) && final(self).view() == old(self).view(),
            !has_path(old(self).view(), e.path@) ==> r is Ok && final(self).view() == old(
                self,
            ).view().push(e),
    {
        match self.position(e.path.as_str()) {
            Some(_) => Err(StoreError::DuplicatePath),
            None => {
                let ghost s = self.entries@;
                self.entries.push(e);
                assert forall|i: int, j: int|
                    0 <= i < self.entries@.len() && 0 <= j < self.entries@.len() && i != j implies #[trigger] self.entries@[i].path@
                    != #[trigger] self.entries@[j].path@ by {
                    if i < s.len() && j < s.len() {
                        assert(self.entries@[i] == s[i]);
                        assert(self.entries@[j] == s[j]);
                    } else if i < s.len() {
                        assert(self.entries@[i] == s[i]);
                    } else {
                        assert(self.entries@[j] == s[j]);
                    }
                }
                Ok(())
            },
        }
    }

    /// Replaces the stored row for `e.path` with `e`, keeping its claim flag.
    /// Refused if the path has no entry.
    pub fn update(&mut self, e: CatalogEntry) -> (r: Result<(), StoreError>)
        requires
            old(self).wf(),
        ensures
            final(self).wf(),
            !has_path(old(self).view(), e.path@) ==> r == Err::<(), StoreError>(
                StoreError::MissingPath,
            ) && final(self).view() == old(self).view(),
            has_path(old(self).view(), e.path@) ==> r is Ok && final(self).view() == old(
                self,
            ).view().update(
                index_of(old(self).view(), e.path@),
                updated_entry(old(self).view()[index_of(old(self).view(), e.path@)], e),
            ),
    {
        match self.position(e.path.as_str()) {
            None => Err(StoreError::MissingPath),
            Some(i) => {
                let claimed = self.entries[i].claimed;
                let mut e = e;
                e.claimed = claimed;
                self.entries.set(i, e);
                Ok(())
            },
        }
    }

    /// Removes the entry under `path`; returns how many rows went (0 or 1).
    pub fn delete(&mut self, path: &str) -> (r: u64)
        requires
            old(self).wf(),
        ensures
            final(self).wf(),
            !has_path(old(self).view(), path@) ==> r == 0 && final(self).view() == old(self).view(),
            has_path(old(self).view(), path@) ==> r == 1 && final(self).view() == old(
                self,
            ).view().remove(index_of(old(self).view(), path@)),
    {
        match self.position(path) {
            None => 0,
            Some(i) => {
                let ghost s = self.entries@;
                self.entries.remove(i);
                assert forall|a: int, b: int|
                    0 <= a < self.entries@.len() && 0 <= b < self.entries@.len() && a != b implies #[trigger] self.entries@[a].path@
                    != #[trigger] self.entries@[b].path@ by {
                    let a0 = if a < i { a } else { a + 1 };
                    let b0 = if b < i { b } else { b + 1 };
                    assert(self.entries@[a] == s[a0]);
                    assert(self.entries@[b] == s[b0]);
                }
                1
            },
        }
    }

    /// Clears the claim flag of the entry under `path`; returns how many rows
    /// changed (0 or 1).
    pub fn release(&mut self, path: &str) -> (r: u64)
        requires
            old(self).wf(),
        ensures
            final(self).wf(),
            !has_path(old(self).view(), path@) ==> r == 0 && final(self).view() == old(self).view(),
            has_path(old(self).view(), path@) ==> r == 1 && final(self).view() == old(
                self,
            ).view().update(
                index_of(old(self).view(), path@),
                with_claim(old(self).view()[index_of(old(self).view(), path@)], false),
            ),
    {
        match self.position(path) {
            None => 0,
            Some(i) => {
                set_claim(&mut self.entries, i, false);
                1
            },
        }
    }

    /// The paths of up to `limit` entries from position `offset` on, in the
    /// catalog's order.
    pub fn list_paginated(&self, offset: usize, limit: usize) -> (r: Vec<String>)
        ensures
            r@.map_values(|p: String| p@) == page_paths(self.view(), offset as int, limit as int),
    {
        let n = self.entries.len();
        let lo = if offset < n {
            offset
        } else {
            n
        };
        let hi = if limit <= n - lo {
            lo + limit
        } else {
            n
        };
        let mut out: Vec<String> = Vec::new();
        let mut i: usize = lo;
        while i < hi
            invariant
                lo <= i <= hi <= n,
                n == self.entries@.len(),
                out@.map_values(|p: String| p@) =~= self.entries@.subrange(lo as int, i as int).map_values(
                    |e: CatalogEntry| e.path@,
                ),
            decreases hi - i,
        {
            let ghost before = out@;
            let p = self.entries[i].path.clone();
            out.push(p);
            assert(out@ == before.push(p));
            assert(out@.map_values(|p: String| p@) =~= before.map_values(|p: String| p@).push(
                self.entries@[i as int].path@,
            ));
            assert(self.entries@.subrange(lo as int, i + 1).map_values(|e: CatalogEntry| e.path@)
                =~= self.entries@.subrange(lo as int, i as int).map_values(
                |e: CatalogEntry| e.path@,
            ).push(self.entries@[i as int].path@));
            i = i + 1;
        }
        out
    }

    /// Atomically picks the first entry that is a video file (its extension is
    /// one of `video`), neither claimed nor already in the target format, marks
    /// it claimed, and returns its path and size. With
    /// no such entry, nothing changes and `None` comes back.
    pub fn claim_one_mismatched(&mut self, ext: &str, codec: &str, video: &Vec<String>) -> (r: Option<
        Claim,
    >)
        requires
            old(self).wf(),
        ensures
            final(self).wf(),
            final(self).view() == claim_step(old(self).view(), ext@, codec@, texts(video@)).0,
            match (r, claim_step(old(self).view(), ext@, codec@, texts(video@)).1) {
                (Some(c), Some((p, b))) => c.path@ == p && c.bytes == b,
                (None, None) => true,
                _ => false,
            },
    {
        let ghost s = self.entries@;
        let mut i: usize = 0;
        while i < self.entries.len()
            invariant
                self.entries@ == s,
                s == old(self).view(),
                paths_unique(s),
                i <= s.len(),
                forall|j: int| 0 <= j < i ==> !claimable(#[trigger] s[j], ext@, codec@, texts(video@)),
            decreases self.entries.len() - i,
        {
            let e = &self.entries[i];
            if !e.claimed && e.is_mismatched(ext, codec) && e.has_video_extension(video) {
                proof {
                    assert(claimable(s[i as int], ext@, codec@, texts(video@)));
                    assert(any_claimable(s, ext@, codec@, texts(video@)));
                    lemma_first_claimable_exists(s, ext@, codec@, texts(video@));
                    let k = first_claimable(s, ext@, codec@, texts(video@));
                    assert(!(k < i)) by {
                        if k < i {
                            assert(!claimable(s[k], ext@, codec@, texts(video@)));
                        }
                    }
                    assert(!(k > i)) by {
                        if k > i {
                            assert(!claimable(s[i as int], ext@, codec@, texts(video@)));
                        }
                    }
                    assert(k == i);
                }
                assert(first_claimable(s, ext@, codec@, texts(video@)) == i as int);
                assert(any_claimable(s, ext@, codec@, texts(video@)));
                let claim = Claim { path: e.path.clone(), bytes: e.bytes };
                set_claim(&mut self.entries, i, true);
                return Some(claim);
            }
            i = i + 1;
        }
        None
    }
}

/// Sets the claim flag of the entry at position `i` in place.
fn set_claim(v: &mut Vec<CatalogEntry>, i: usize, c: bool)
    requires
        i < old(v)@.len(),
        paths_unique(old(v)@),
    ensures
        final(v)@ == old(v)@.update(i as int, with_claim(old(v)@[i as int], c)),
        paths_unique(final(v)@),
{
    let ghost s = v@;
    v[i].claimed = c;
    assert(v@ =~= s.update(i as int, with_claim(s[i as int], c)));
    assert forall|a: int, b: int|
        0 <= a < v@.len() && 0 <= b < v@.len() && a != b implies #[trigger] v@[a].path@
        != #[trigger] v@[b].path@ by {
        assert(v@[a].path == s[a].path);
        assert(v@[b].path == s[b].path);
    }
}

/// Claim exclusivity: against a catalog with exactly one claimable entry,
/// the first of two claims wins that entry and the second finds nothing.
pub proof fn lemma_claim_exclusive(
    s: Seq<CatalogEntry>,
    ext: Seq<char>,
    codec: Seq<char>,
    video: Seq<Seq<char>>,
    k: int,
)
    requires
        0 <= k < s.len(),
        claimable(s[k], ext, codec, video),
        forall|j: int| 0 <= j < s.len() && claimable(#[trigger] s[j], ext, codec, video) ==> j == k,
    ensures
        claim_step(s, ext, codec, video).1 == Some((s[k].path@, s[k].bytes)),
        claim_step(claim_step(s, ext, codec, video).0, ext, codec, video).1 is None,
        claim_step(claim_step(s, ext, codec, video).0, ext, codec, video).0 == claim_step(s, ext, codec, video).0,
{
    assert(any_claimable(s, ext, codec, video));
    lemma_first_claimable_exists(s, ext, codec, video);
    let i = first_claimable(s, ext, codec, video);
    assert(i == k);
    let s1 = claim_step(s, ext, codec, video).0;
    assert forall|j: int| 0 <= j < s1.len() implies !claimable(#[trigger] s1[j], ext, codec, video) by {
        if j != k {
            assert(s1[j] == s[j]);
        }
    }
}

/// Removing another path's entry keeps what is found under `p`.
pub proof fn lemma_entry_after_remove(s: Seq<CatalogEntry>, j: int, p: Seq<char>)
    requires
        paths_unique(s),
        0 <= j < s.len(),
        has_path(s, p),
        s[j].path@ != p,
    ensures
        paths_unique(s.remove(j)),
        entry_at(s.remove(j), p) == entry_at(s, p),
{
    let k = index_of(s, p);
    let t = s.remove(j);
    lemma_remove_keeps_unique(s, j);
    let k2 = if k < j { k } else { k - 1 };
    assert(t[k2] == s[k]);
    assert(has_path(t, p));
    let i = index_of(t, p);
    assert(t[i].path@ == p);
    assert(i == k2);
}

pub proof fn lemma_remove_keeps_unique(s: Seq<CatalogEntry>, j: int)
    requires
        paths_unique(s),
        0 <= j < s.len(),
    ensures
        paths_unique(s.remove(j)),
        !has_path(s.remove(j), s[j].path@),
{
    let t = s.remove(j);
    assert forall|a: int, b: int|
        0 <= a < t.len() && 0 <= b < t.len() && a != b implies #[trigger] t[a].path@
        != #[trigger] t[b].path@ by {
        let a0 = if a < j { a } else { a + 1 };
        let b0 = if b < j { b } else { b + 1 };
        assert(t[a] == s[a0]);
        assert(t[b] == s[b0]);
    }
    if has_path(t, s[j].path@) {
        let i = index_of(t, s[j].path@);
        let i0 = if i < j { i } else { i + 1 };
        assert(t[i] == s[i0]);
    }
}

/// With unique paths, the entry found for a path is the one at its position.
pub proof fn lemma_index_of_unique(s: Seq<CatalogEntry>, p: Seq<char>, k: int)
    requires
        paths_unique(s),
        0 <= k < s.len(),
        s[k].path@ == p,
    ensures
        has_path(s, p),
        index_of(s, p) == k,
        entry_at(s, p) == Some(s[k]),
{
    assert(has_path(s, p));
    let i = index_of(s, p);
    assert(s[i].path@ == p);
}

/// Replacing an entry by one with the same path keeps paths unique and what
/// is found under every other path.
pub proof fn lemma_update_frame(s: Seq<CatalogEntry>, k: int, e: CatalogEntry, p: Seq<char>)
    requires
        paths_unique(s),
        0 <= k < s.len(),
        e.path@ == s[k].path@,
    ensures
        paths_unique(s.update(k, e)),
        p != e.path@ ==> entry_at(s.update(k, e), p) == entry_at(s, p),
{
    let t = s.update(k, e);
    assert forall|a: int, b: int|
        0 <= a < t.len() && 0 <= b < t.len() && a != b implies #[trigger] t[a].path@
        != #[trigger] t[b].path@ by {
        assert(t[a].path@ == s[a].path@);
        assert(t[b].path@ == s[b].path@);
    }
    if p != e.path@ {
        if has_path(s, p) {
            let i = index_of(s, p);
            assert(s[i].path@ == p);
            assert(t[i] == s[i]);
            lemma_index_of_unique(t, p, i);
        } else if has_path(t, p) {
            let i = index_of(t, p);
            assert(t[i].path@ == p);
            assert(t[i].path@ == s[i].path@);
        }
    }
}

/// Appending an entry for a new path keeps paths unique and what is found
/// under every other path.
pub proof fn lemma_push_frame(s: Seq<CatalogEntry>, e: CatalogEntry, p: Seq<char>)
    requires
        paths_unique(s),
        !has_path(s, e.path@),
    ensures
        paths_unique(s.push(e)),
        found_after_push(s, e),
        p != e.path@ ==> entry_at(s.push(e), p) == entry_at(s, p),
{
    let t = s.push(e);
    assert forall|a: int, b: int|
        0 <= a < t.len() && 0 <= b < t.len() && a != b implies #[trigger] t[a].path@
        != #[trigger] t[b].path@ by {
        if a < s.len() {
            assert(t[a] == s[a]);
        }
        if b < s.len() {
            assert(t[b] == s[b]);
        }
    }
    lemma_index_of_unique(t, e.path@, s.len() as int);
    if p != e.path@ {
        if has_path(s, p) {
            let i = index_of(s, p);
            assert(s[i].path@ == p);
            assert(t[i] == s[i]);
            lemma_index_of_unique(t, p, i);
        } else if has_path(t, p) {
            let i = index_of(t, p);
            assert(t[i].path@ == p);
            assert(t[i] == s[i]);
        }
    }
}

/// After appending an entry for a new path, that entry is found under it.
pub open spec fn found_after_push(s: Seq<CatalogEntry>, e: CatalogEntry) -> bool {
    entry_at(s.push(e), e.path@) == Some(e)
}

/// Removing an entry keeps what is found under every other path.
pub proof fn lemma_remove_frame(s: Seq<CatalogEntry>, j: int, p: Seq<char>)
    requires
        paths_unique(s),
        0 <= j < s.len(),
        s[j].path@ != p,
    ensures
        paths_unique(s.remove(j)),
        entry_at(s.remove(j), p) == entry_at(s, p),
        !has_path(s.remove(j), s[j].path@),
{
    lemma_remove_keeps_unique(s, j);
    if has_path(s, p) {
        lemma_entry_after_remove(s, j, p);
    } else if has_path(s.remove(j), p) {
        let t = s.remove(j);
        let i = index_of(t, p);
        assert(t[i].path@ == p);
        let i0 = if i < j { i } else { i + 1 };
        assert(t[i] == s[i0]);
    }
}

} // verus!
