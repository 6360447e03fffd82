use vstd::prelude::*;
use crate::catalog::{CatalogEntry, has_path, index_of, page_paths, paths_unique};

verus! {

/// How many catalog paths one page of the sweep holds.
pub const PAGE_SIZE: u64 = 100;

/// A listed path and whether it still names a regular file on disk.
#[derive(Debug)]
pub struct PathCheck {
    pub path: String,
    pub is_file: bool,
}

/// The paths of a checked page whose file is gone, in order.
pub open spec fn stale_paths(page: Seq<PathCheck>) -> Seq<Seq<char>>
    decreases page.len(),
{
    if page.len() == 0 {
        Seq::empty()
    } else {
        let rest = stale_paths(page.drop_last());
        if page.last().is_file {
            rest
        } else {
            rest.push(page.last().path@)
        }
    }
}

/// One sweep of the catalog for entries whose file has vanished: pages of
/// paths are requested at growing offsets until a page comes back empty.
pub struct CleanPass {
    offset: u64,
    limit: u64,
    done: bool,
}

impl CleanPass {
    pub closed spec fn offset(&self) -> u64 {
        self.offset
    }

    pub closed spec fn limit(&self) -> u64 {
        self.limit
    }

    pub closed spec fn done(&self) -> bool {
        self.done
    }

    /// A sweep from the first page, `PAGE_SIZE` paths at a time.
    pub fn new() -> (r: CleanPass)
        ensures
            r.offset() == 0,
            r.limit() == PAGE_SIZE,
            !r.done(),
    {
        CleanPass { offset: 0, limit: PAGE_SIZE, done: false }
    }

    /// The offset and size of the page to list next, or `None` once the
    /// sweep is over.
    pub fn next_page(&self) -> (r: Option<(u64, u64)>)
        ensures
            self.done() ==> r is None,
            !self.done() ==> r == Some((self.offset(), self.limit())),
    {
        if self.done {
            None
        } else {
            Some((self.offset, self.limit))
        }
    }

    /// Takes in the checked page at the current offset and returns the paths
    /// to delete: those whose file is gone. An empty page ends the sweep;
    /// otherwise the next page starts `limit` rows further on.
    pub fn on_page(&mut self, page: &Vec<PathCheck>) -> (r: Vec<String>)
        requires
            !old(self).done(),
        ensures
            r@.map_values(|p: String| p@) == stale_paths(page@),
            final(self).limit() == old(self).limit(),
            page@.len() == 0 ==> final(self).done(),
            page@.len() > 0 && old(self).offset() + old(self).limit() <= u64::MAX ==> {
                &&& !final(self).done()
                &&& final(self).offset() == old(self).offset() + old(self).limit()
            },
            page@.len() > 0 && old(self).offset() + old(self).limit() > u64::MAX ==> final(self).done(),
    {
        let mut gone: Vec<String> = Vec::new();
        let mut i: usize = 0;
        while i < page.len()
            invariant
                i <= page@.len(),
                gone@.map_values(|p: String| p@) == stale_paths(page@.take(i as int)),
            decreases page.len() - i,
        {
            let ghost before = gone@;
            assert(page@.take(i + 1).drop_last() =~= page@.take(i as int));
            if !page[i].is_file {
                let p = page[i].path.clone();
                gone.push(p);
                assert(gone@.map_values(|p: String| p@) =~= before.map_values(|p: String| p@).push(
                    page@[i as int].path@,
                ));
            }
            i = i + 1;
        }
        assert(page@.take(page@.len() as int) =~= page@);
        if page.len() == 0 {
            self.done = true;
        } else if self.offset > u64::MAX - self.limit {
            self.done = true;
        } else {
            self.offset = self.offset + self.limit;
        }
        gone
    }
}

// A model of sweeping a catalog `s` (in its listing order) while the files
// named by `present` exist on disk, for stating how sweeps converge.

pub open spec fn is_stale(e: CatalogEntry, present: Set<Seq<char>>) -> bool {
    !present.contains(e.path@)
}

/// How many entries of `s` have lost their file.
pub open spec fn count_stale(s: Seq<CatalogEntry>, present: Set<Seq<char>>) -> nat
    decreases s.len(),
{
    if s.len() == 0 {
        0
    } else {
        count_stale(s.drop_last(), present) + if is_stale(s.last(), present) {
            1nat
        } else {
            0nat
        }
    }
}

/// The entries of `s` whose file still exists.
pub open spec fn keep_present(s: Seq<CatalogEntry>, present: Set<Seq<char>>) -> Seq<CatalogEntry>
    decreases s.len(),
{
    if s.len() == 0 {
        s
    } else {
        let rest = keep_present(s.drop_last(), present);
        if is_stale(s.last(), present) {
            rest
        } else {
            rest.push(s.last())
        }
    }
}

pub open spec fn page_end(s: Seq<CatalogEntry>, offset: int, limit: int) -> int {
    if offset + limit < s.len() {
        offset + limit
    } else {
        s.len() as int
    }
}

/// The catalog once the stale entries of the page at `offset` are deleted.
pub open spec fn sweep_page(s: Seq<CatalogEntry>, offset: int, limit: int, present: Set<Seq<char>>) -> Seq<
    CatalogEntry,
> {
    let hi = page_end(s, offset, limit);
    s.take(offset) + keep_present(s.subrange(offset, hi), present) + s.skip(hi)
}

/// The catalog once a sweep has gone on from `offset`: pages are listed and
/// their stale entries deleted until a page comes back empty.
pub open spec fn sweep_from(s: Seq<CatalogEntry>, offset: nat, limit: nat, present: Set<Seq<char>>) -> Seq<
    CatalogEntry,
>
    decreases (if offset < s.len() {
        s.len() - offset
    } else {
        0
    }),
    when limit > 0
{
    if page_paths(s, offset as int, limit as int).len() == 0 || offset >= s.len() {
        s
    } else {
        let s2 = sweep_page(s, offset as int, limit as int, present);
        proof {
            lemma_keep_present_len(
                s.subrange(offset as int, page_end(s, offset as int, limit as int)),
                present,
            );
            assert(s2.len() <= s.len());
        }
        sweep_from(s2, offset + limit, limit, present)
    }
}

/// The catalog once one whole sweep with pages of `limit` has run.
pub open spec fn sweep(s: Seq<CatalogEntry>, limit: nat, present: Set<Seq<char>>) -> Seq<CatalogEntry> {
    sweep_from(s, 0, limit, present)
}

/// The catalog after `n` sweeps.
pub open spec fn sweeps(s: Seq<CatalogEntry>, limit: nat, present: Set<Seq<char>>, n: nat) -> Seq<
    CatalogEntry,
>
    decreases n,
{
    if n == 0 {
        s
    } else {
        sweeps(sweep(s, limit, present), limit, present, (n - 1) as nat)
    }
}

/// Keeping the present entries drops exactly the stale ones.
pub proof fn lemma_keep_present_len(s: Seq<CatalogEntry>, present: Set<Seq<char>>)
    ensures
        keep_present(s, present).len() <= s.len(),
        count_stale(keep_present(s, present), present) == 0,
        keep_present(s, present).len() + count_stale(s, present) == s.len(),
    decreases s.len(),
{
    if s.len() > 0 {
        lemma_keep_present_len(s.drop_last(), present);
        let rest = keep_present(s.drop_last(), present);
        if !is_stale(s.last(), present) {
            assert(rest.push(s.last()).drop_last() =~= rest);
        }
    }
}

proof fn lemma_count_stale_concat(a: Seq<CatalogEntry>, b: Seq<CatalogEntry>, present: Set<Seq<char>>)
    ensures
        count_stale(a + b, present) == count_stale(a, present) + count_stale(b, present),
    decreases b.len(),
{
    if b.len() == 0 {
        assert(a + b =~= a);
    } else {
        assert((a + b).drop_last() =~= a + b.drop_last());
        lemma_count_stale_concat(a, b.drop_last(), present);
    }
}

/// Count of stale entries after deleting those of one page.
proof fn lemma_sweep_page_count(s: Seq<CatalogEntry>, offset: int, limit: int, present: Set<Seq<char>>)
    requires
        0 <= offset < s.len(),
        limit > 0,
    ensures
        count_stale(sweep_page(s, offset, limit, present), present) + count_stale(
            s.subrange(offset, page_end(s, offset, limit)),
            present,
        ) == count_stale(s, present),
        sweep_page(s, offset, limit, present).len() <= s.len(),
{
    let hi = page_end(s, offset, limit);
    let page = s.subrange(offset, hi);
    lemma_keep_present_len(page, present);
    lemma_count_stale_concat(s.take(offset) + keep_present(page, present), s.skip(hi), present);
    lemma_count_stale_concat(s.take(offset), keep_present(page, present), present);
    lemma_count_stale_concat(s.take(offset) + page, s.skip(hi), present);
    lemma_count_stale_concat(s.take(offset), page, present);
    assert(s.take(offset) + page + s.skip(hi) =~= s);
}

/// A stale entry shows up in the count.
proof fn lemma_stale_counted(s: Seq<CatalogEntry>, present: Set<Seq<char>>, i: int)
    requires
        0 <= i < s.len(),
        is_stale(s[i], present),
    ensures
        count_stale(s, present) > 0,
    decreases s.len(),
{
    if i < s.len() - 1 {
        assert(s.drop_last()[i] == s[i]);
        lemma_stale_counted(s.drop_last(), present, i);
    }
}

/// A sweep never adds stale entries; and if some stale entry sits at or past
/// `offset`, it deletes at least one.
proof fn lemma_sweep_from_decreases(s: Seq<CatalogEntry>, offset: nat, limit: nat, present: Set<Seq<char>>)
    requires
        limit > 0,
    ensures
        count_stale(sweep_from(s, offset, limit, present), present) <= count_stale(s, present),
        (exists|i: int| offset <= i < s.len() && is_stale(#[trigger] s[i], present)) ==> count_stale(
            sweep_from(s, offset, limit, present),
            present,
        ) < count_stale(s, present),
    decreases (if offset < s.len() {
        s.len() - offset
    } else {
        0
    }),
{
    if page_paths(s, offset as int, limit as int).len() == 0 || offset >= s.len() {
        if offset < s.len() {
            assert(page_paths(s, offset as int, limit as int).len() == page_end(
                s,
                offset as int,
                limit as int,
            ) - offset);
        }
    } else {
        let hi = page_end(s, offset as int, limit as int);
        let page = s.subrange(offset as int, hi);
        let s2 = sweep_page(s, offset as int, limit as int, present);
        lemma_sweep_page_count(s, offset as int, limit as int, present);
        lemma_keep_present_len(page, present);
        lemma_sweep_from_decreases(s2, offset + limit, limit, present);
        if exists|i: int| offset <= i < s.len() && is_stale(#[trigger] s[i], present) {
            let i = choose|i: int| offset <= i < s.len() && is_stale(#[trigger] s[i], present);
            if i < hi {
                assert(page[i - offset] == s[i]);
                lemma_stale_counted(page, present, i - offset);
            } else if count_stale(page, present) == 0 {
                // Nothing on this page was stale: the catalog is unchanged, and
                // the stale entry lies further on.
                assert(keep_present(page, present).len() == page.len());
                lemma_keep_all(page, present);
                assert(s2 =~= s);
                assert(offset + limit <= i);
            }
        }
    }
}

/// With no stale entry, keeping the present ones keeps everything.
proof fn lemma_keep_all(s: Seq<CatalogEntry>, present: Set<Seq<char>>)
    requires
        count_stale(s, present) == 0,
    ensures
        keep_present(s, present) == s,
    decreases s.len(),
{
    if s.len() > 0 {
        lemma_keep_all(s.drop_last(), present);
        assert(s.drop_last().push(s.last()) =~= s);
    }
}

/// Cleaner convergence. A sweep that starts with stale entries in the
/// catalog deletes at least one of them, however deletions shift later pages;
/// so after as many sweeps as there are stale entries, none is left.
pub proof fn lemma_sweeps_converge(s: Seq<CatalogEntry>, limit: nat, present: Set<Seq<char>>)
    requires
        limit > 0,
    ensures
        count_stale(s, present) > 0 ==> count_stale(sweep(s, limit, present), present)
            < count_stale(s, present),
        count_stale(sweeps(s, limit, present, count_stale(s, present)), present) == 0,
    decreases count_stale(s, present),
{
    if count_stale(s, present) > 0 {
        lemma_some_stale(s, present);
        lemma_sweep_from_decreases(s, 0, limit, present);
        let s2 = sweep(s, limit, present);
        lemma_sweeps_converge(s2, limit, present);
        lemma_sweeps_extra(s2, limit, present, count_stale(s2, present), (count_stale(s, present) - 1) as nat);
    }
}

/// Further sweeps of a catalog with no stale entry leave none.
proof fn lemma_sweeps_extra(s: Seq<CatalogEntry>, limit: nat, present: Set<Seq<char>>, k: nat, n: nat)
    requires
        limit > 0,
        k <= n,
        count_stale(sweeps(s, limit, present, k), present) == 0,
    ensures
        count_stale(sweeps(s, limit, present, n), present) == 0,
    decreases n,
{
    if k == 0 {
        if n > 0 {
            let s2 = sweep(s, limit, present);
            lemma_sweep_from_decreases(s, 0, limit, present);
            assert(count_stale(s2, present) == 0);
            lemma_sweeps_extra(s2, limit, present, 0, (n - 1) as nat);
        }
    } else {
        lemma_sweeps_extra(sweep(s, limit, present), limit, present, (k - 1) as nat, (n - 1) as nat);
    }
}

/// A positive count has a stale entry behind it.
proof fn lemma_some_stale(s: Seq<CatalogEntry>, present: Set<Seq<char>>)
    requires
        count_stale(s, present) > 0,
    ensures
        exists|i: int| 0 <= i < s.len() && is_stale(#[trigger] s[i], present),
    decreases s.len(),
{
    if is_stale(s.last(), present) {
        assert(is_stale(s[s.len() - 1], present));
    } else {
        lemma_some_stale(s.drop_last(), present);
        let i = choose|i: int| 0 <= i < s.drop_last().len() && is_stale(#[trigger] s.drop_last()[i], present);
        assert(s[i] == s.drop_last()[i]);
    }
}

/// The catalog after deleting the entries of `paths` one after another, as
/// `Catalog::delete` does for each.
pub open spec fn delete_paths(s: Seq<CatalogEntry>, paths: Seq<Seq<char>>) -> Seq<CatalogEntry>
    decreases paths.len(),
{
    if paths.len() == 0 {
        s
    } else {
        let t = delete_paths(s, paths.drop_last());
        if has_path(t, paths.last()) {
            t.remove(index_of(t, paths.last()))
        } else {
            t
        }
    }
}

/// `checks` are the page of `limit` paths at `offset`, each with whether its
/// file is among `present`.
pub open spec fn checks_of_page(
    checks: Seq<PathCheck>,
    s: Seq<CatalogEntry>,
    offset: int,
    limit: int,
    present: Set<Seq<char>>,
) -> bool {
    &&& checks.len() == page_paths(s, offset, limit).len()
    &&& forall|i: int|
        0 <= i < checks.len() ==> (#[trigger] checks[i]).path@ == page_paths(s, offset, limit)[i]
            && checks[i].is_file == present.contains(checks[i].path@)
}

proof fn lemma_keep_present_from(x: Seq<CatalogEntry>, present: Set<Seq<char>>, k: int)
    requires
        0 <= k < keep_present(x, present).len(),
    ensures
        exists|i: int| 0 <= i < x.len() && x[i] == #[trigger] keep_present(x, present)[k],
    decreases x.len(),
{
    let rest = keep_present(x.drop_last(), present);
    if k < rest.len() {
        lemma_keep_present_from(x.drop_last(), present, k);
        let i = choose|i: int| 0 <= i < x.drop_last().len() && x.drop_last()[i] == rest[k];
        assert(x[i] == x.drop_last()[i]);
    } else {
        assert(x[x.len() - 1] == keep_present(x, present)[k]);
    }
}

/// Deleting the paths that `on_page` reports for a checked page, one by one,
/// leaves exactly the catalog that `sweep_page` describes.
pub proof fn lemma_page_deletions(
    s: Seq<CatalogEntry>,
    offset: int,
    limit: int,
    present: Set<Seq<char>>,
    checks: Seq<PathCheck>,
)
    requires
        paths_unique(s),
        0 <= offset < s.len(),
        limit > 0,
        checks_of_page(checks, s, offset, limit, present),
    ensures
        delete_paths(s, stale_paths(checks)) == sweep_page(s, offset, limit, present),
{
    let hi = page_end(s, offset, limit);
    let page = s.subrange(offset, hi);
    assert(checks.len() == page.len());
    assert forall|i: int| 0 <= i < checks.len() implies (#[trigger] checks[i]).path@ == page[i].path@
        && checks[i].is_file == !is_stale(page[i], present) by {
        assert(page_paths(s, offset, limit)[i] == page[i].path@);
    }
    lemma_page_deletions_prefix(s, offset, hi, present, checks, checks.len() as int);
    assert(checks.take(checks.len() as int) =~= checks);
    assert(page.take(page.len() as int) =~= page);
}

proof fn lemma_page_deletions_prefix(
    s: Seq<CatalogEntry>,
    lo: int,
    hi: int,
    present: Set<Seq<char>>,
    checks: Seq<PathCheck>,
    j: int,
)
    requires
        paths_unique(s),
        0 <= lo <= hi <= s.len(),
        checks.len() == hi - lo,
        forall|i: int|
            0 <= i < checks.len() ==> (#[trigger] checks[i]).path@ == s[lo + i].path@
                && checks[i].is_file == !is_stale(s[lo + i], present),
        0 <= j <= checks.len(),
    ensures
        delete_paths(s, stale_paths(checks.take(j))) == s.take(lo) + keep_present(
            s.subrange(lo, hi).take(j),
            present,
        ) + s.skip(lo + j),
    decreases j,
{
    let page = s.subrange(lo, hi);
    if j == 0 {
        assert(checks.take(0) =~= Seq::<PathCheck>::empty());
        assert(page.take(0) =~= Seq::<CatalogEntry>::empty());
        assert(s.take(lo) + Seq::<CatalogEntry>::empty() + s.skip(lo) =~= s);
    } else {
        let i = j - 1;
        lemma_page_deletions_prefix(s, lo, hi, present, checks, i);
        let before = stale_paths(checks.take(i));
        let kept = keep_present(page.take(i), present);
        let t = s.take(lo) + kept + s.skip(lo + i);
        assert(checks.take(j).drop_last() =~= checks.take(i));
        assert(page.take(j).drop_last() =~= page.take(i));
        assert(checks.take(j).last() == checks[i]);
        assert(page.take(j).last() == s[lo + i]);
        assert(checks[i].path@ == s[lo + i].path@);
        lemma_keep_present_len(page.take(i), present);
        if checks[i].is_file {
            assert(stale_paths(checks.take(j)) == before);
            assert(keep_present(page.take(j), present) == kept.push(s[lo + i]));
            assert(t =~= s.take(lo) + kept.push(s[lo + i]) + s.skip(lo + j));
        } else {
            let p = s[lo + i].path@;
            assert(stale_paths(checks.take(j)) == before.push(p));
            assert(stale_paths(checks.take(j)).drop_last() =~= before);
            assert(keep_present(page.take(j), present) == kept);
            let at = lo + kept.len();
            assert(t[at] == s[lo + i]);
            assert forall|q: int| 0 <= q < t.len() && #[trigger] t[q].path@ == p implies q == at by {
                if q < lo {
                    assert(t[q] == s[q]);
                } else if q < at {
                    lemma_keep_present_from(page.take(i), present, q - lo);
                    let w = choose|w: int|
                        0 <= w < page.take(i).len() && page.take(i)[w] == #[trigger] kept[q - lo];
                    assert(t[q] == kept[q - lo]);
                    assert(page.take(i)[w] == s[lo + w]);
                } else if q > at {
                    assert(t[q] == s[lo + i + (q - at)]);
                }
            }
            assert(has_path(t, p));
            let idx = index_of(t, p);
            assert(t[idx].path@ == p);
            assert(idx == at);
            assert(t.remove(at) =~= s.take(lo) + kept + s.skip(lo + j));
        }
    }
}

} // verus!
