use vstd::prelude::*;

verus! {

/// One entry of a directory listing, with its own file type: a symbolic link
/// is reported as a link, not as what it points to.
#[derive(Debug)]
pub struct DirItem {
    pub path: String,
    pub is_symlink: bool,
    pub is_dir: bool,
    pub is_file: bool,
}

/// What the walk does with a directory entry.
#[derive(Clone, Copy, Debug, PartialEq, Eq, Structural)]
pub enum WalkStep {
    /// A directory: list it later.
    Descend,
    /// A regular file: reconcile it.
    Visit,
    /// A symbolic link or a special file: neither followed nor recorded.
    Skip,
}

pub open spec fn step_of(d: DirItem) -> WalkStep {
    if d.is_symlink {
        WalkStep::Skip
    } else if d.is_dir {
        WalkStep::Descend
    } else if d.is_file {
        WalkStep::Visit
    } else {
        WalkStep::Skip
    }
}

/// The paths of the entries of `items` whose step is `step`, in order.
pub open spec fn paths_with_step(items: Seq<DirItem>, step: WalkStep) -> Seq<Seq<char>>
    decreases items.len(),
{
    if items.len() == 0 {
        Seq::empty()
    } else {
        let rest = paths_with_step(items.drop_last(), step);
        if step_of(items.last()) == step {
            rest.push(items.last().path@)
        } else {
            rest
        }
    }
}

/// Symbolic links are skipped whatever they point to; directories are
/// descended into; regular files are visited; anything else is skipped.
pub fn classify(item: &DirItem) -> (r: WalkStep)
    ensures
        r == step_of(*item),
        item.is_symlink ==> r == WalkStep::Skip,
{
    if item.is_symlink {
        WalkStep::Skip
    } else if item.is_dir {
        WalkStep::Descend
    } else if item.is_file {
        WalkStep::Visit
    } else {
        WalkStep::Skip
    }
}

/// A depth-first walk of a directory tree: the directories still to list.
pub struct Walk {
    pending: Vec<String>,
}

impl Walk {
    pub closed spec fn view(&self) -> Seq<Seq<char>> {
        self.pending@.map_values(|p: String| p@)
    }

    /// A walk from `root`; with a root that is not a directory (an unmounted
    /// volume, say) there is nothing to list.
    pub fn new(root: String, root_is_dir: bool) -> (r: Walk)
        ensures
            root_is_dir ==> r.view() == seq![root@],
            !root_is_dir ==> r.view() == Seq::<Seq<char>>::empty(),
    {
        let mut pending: Vec<String> = Vec::new();
        if root_is_dir {
            pending.push(root);
            assert(pending@.map_values(|p: String| p@) =~= seq![root@]);
        } else {
            assert(pending@.map_values(|p: String| p@) =~= Seq::<Seq<char>>::empty());
        }
        Walk { pending }
    }

    pub fn is_done(&self) -> (r: bool)
        ensures
            r == (self.view().len() == 0),
    {
        self.pending.len() == 0
    }

    /// The next directory to list, taken off the walk.
    pub fn next_dir(&mut self) -> (r: Option<String>)
        ensures
            old(self).view().len() == 0 ==> r is None && final(self).view() == old(self).view(),
            old(self).view().len() > 0 ==> r is Some && r->Some_0@ == old(self).view().last()
                && final(self).view() == old(self).view().drop_last(),
    {
        let ghost before = self.pending@;
        let r = self.pending.pop();
        proof {
            if before.len() > 0 {
                assert(self.pending@.map_values(|p: String| p@) =~= before.map_values(
                    |p: String| p@,
                ).drop_last());
            }
        }
        r
    }

    /// Takes in the listing of a directory: queues its subdirectories and
    /// returns its regular files, each in listing order.
    pub fn on_listing(&mut self, items: &Vec<DirItem>) -> (r: Vec<String>)
        ensures
            r@.map_values(|p: String| p@) == paths_with_step(items@, WalkStep::Visit),
            final(self).view() == old(self).view() + paths_with_step(items@, WalkStep::Descend),
    {
        let mut files: Vec<String> = Vec::new();
        let ghost start = self.view();
        let mut i: usize = 0;
        while i < items.len()
            invariant
                i <= items@.len(),
                files@.map_values(|p: String| p@) == paths_with_step(
                    items@.take(i as int),
                    WalkStep::Visit,
                ),
                self.view() == start + paths_with_step(items@.take(i as int), WalkStep::Descend),
            decreases items.len() - i,
        {
            let item = &items[i];
            let ghost before_files = files@;
            let ghost before_pending = self.pending@;
            assert(items@.take(i + 1).drop_last() =~= items@.take(i as int));
            match classify(item) {
                WalkStep::Visit => {
                    let p = item.path.clone();
                    files.push(p);
                    assert(files@.map_values(|p: String| p@) =~= before_files.map_values(
                        |p: String| p@,
                    ).push(item.path@));
                },
                WalkStep::Descend => {
                    let p = item.path.clone();
                    self.pending.push(p);
                    assert(self.pending@.map_values(|p: String| p@) =~= before_pending.map_values(
                        |p: String| p@,
                    ).push(item.path@));
                    assert(self.view() =~= start + paths_with_step(
                        items@.take(i + 1),
                        WalkStep::Descend,
                    ));
                },
                WalkStep::Skip => {},
            }
            i = i + 1;
        }
        assert(items@.take(items@.len() as int) =~= items@);
        files
    }
}

/// Symbolic links are never cataloged: every path that the walk hands out
/// for reconciling is that of a listed entry which is a regular file and not
/// a symbolic link.
pub proof fn lemma_visited_paths_are_regular_files(items: Seq<DirItem>, k: int)
    requires
        0 <= k < paths_with_step(items, WalkStep::Visit).len(),
    ensures
        exists|i: int|
            0 <= i < items.len() && (#[trigger] items[i]).path@ == paths_with_step(
                items,
                WalkStep::Visit,
            )[k] && !items[i].is_symlink && items[i].is_file,
    decreases items.len(),
{
    let rest = paths_with_step(items.drop_last(), WalkStep::Visit);
    if k < rest.len() {
        lemma_visited_paths_are_regular_files(items.drop_last(), k);
        let i = choose|i: int|
            0 <= i < items.drop_last().len() && (#[trigger] items.drop_last()[i]).path@ == rest[k]
                && !items.drop_last()[i].is_symlink && items.drop_last()[i].is_file;
        assert(items[i] == items.drop_last()[i]);
    } else {
        assert(items[items.len() - 1] == items.last());
    }
}

} // verus!
