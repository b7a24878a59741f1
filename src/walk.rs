use vstd::prelude::*;
use std::collections::VecDeque;

verus! {

/// The kind of a directory entry, as far as the walk cares.
#[derive(PartialEq, Eq, Structural, Clone, Copy, Debug)]
pub enum EntryKind {
    Directory,
    File,
    /// A symbolic link whose target is a directory.
    LinkToDirectory,
    /// A symbolic link whose target is a file.
    LinkToFile,
    /// A symbolic link whose target is neither, or cannot be examined.
    LinkToOther,
    /// Anything else, or an entry whose kind cannot be determined.
    Other,
}

pub open spec fn is_dir_kind(k: EntryKind) -> bool {
    k == EntryKind::Directory || k == EntryKind::LinkToDirectory
}

pub open spec fn is_file_kind(k: EntryKind) -> bool {
    k == EntryKind::File || k == EntryKind::LinkToFile
}

/// What the walk did with one entry.
#[derive(PartialEq, Eq, Structural, Clone, Copy, Debug)]
pub enum Step<P> {
    /// A file: the caller visits it now.
    Visit(P),
    /// A directory: it waits at the back of the queue.
    Queued,
    /// Neither: the caller reports it and goes on.
    Skipped(P),
}

/// The files that one listing hands to the visitor, in listing order.
pub open spec fn files_of<P>(entries: Seq<(P, EntryKind)>) -> Seq<P>
    decreases entries.len(),
{
    if entries.len() == 0 {
        Seq::empty()
    } else {
        let (p, k) = entries.last();
        let before = files_of(entries.drop_last());
        if is_file_kind(k) {
            before.push(p)
        } else {
            before
        }
    }
}

/// The directories that one listing puts in the queue, in listing order.
pub open spec fn dirs_of<P>(entries: Seq<(P, EntryKind)>) -> Seq<P>
    decreases entries.len(),
{
    if entries.len() == 0 {
        Seq::empty()
    } else {
        let (p, k) = entries.last();
        let before = dirs_of(entries.drop_last());
        if is_dir_kind(k) {
            before.push(p)
        } else {
            before
        }
    }
}

/// A tree as the walk sees it: each directory's listing, in enumeration
/// order. A directory without a listing could not be read and is passed over.
pub open spec fn listing<P>(tree: Map<P, Seq<(P, EntryKind)>>, d: P) -> Seq<(P, EntryKind)> {
    if tree.contains_key(d) {
        tree[d]
    } else {
        Seq::empty()
    }
}

/// The files visited when the directories of `queue` are walked, at most
/// `fuel` of them.
pub open spec fn walk_visits<P>(tree: Map<P, Seq<(P, EntryKind)>>, queue: Seq<P>, fuel: nat) -> Seq<
    P,
>
    decreases fuel,
{
    if fuel == 0 || queue.len() == 0 {
        Seq::empty()
    } else {
        let d = queue[0];
        files_of(listing(tree, d)) + walk_visits(
            tree,
            queue.drop_first() + dirs_of(listing(tree, d)),
            (fuel - 1) as nat,
        )
    }
}

/// The state of a breadth-first walk: the directories still to be listed.
pub struct Walker<P> {
    queue: VecDeque<P>,
}

impl<P> Walker<P> {
    pub closed spec fn pending(&self) -> Seq<P> {
        self.queue@
    }

    /// A walk that starts at `root`, which must be a directory.
    pub fn new(root: P) -> (w: Walker<P>)
        ensures
            w.pending() == seq![root],
    {
        let mut queue = VecDeque::new();
        queue.push_back(root);
        Walker { queue }
    }

    /// The next directory to list, taken from the front of the queue; `None`
    /// once the walk is over.
    pub fn next_dir(&mut self) -> (r: Option<P>)
        ensures
            old(self).pending().len() == 0 ==> {
                &&& r.is_none()
                &&& final(self).pending() == old(self).pending()
            },
            old(self).pending().len() > 0 ==> {
                &&& r == Some(old(self).pending()[0])
                &&& final(self).pending() == old(self).pending().drop_first()
            },
    {
        self.queue.pop_front()
    }

    /// Takes one entry of the directory being listed: a directory joins the
    /// back of the queue, a file is handed back to be visited, anything else
    /// is handed back to be reported.
    pub fn on_entry(&mut self, path: P, kind: EntryKind) -> (r: Step<P>)
        ensures
            is_dir_kind(kind) ==> {
                &&& r == Step::<P>::Queued
                &&& final(self).pending() == old(self).pending().push(path)
            },
            is_file_kind(kind) ==> {
                &&& r == Step::Visit(path)
                &&& final(self).pending() == old(self).pending()
            },
            !is_dir_kind(kind) && !is_file_kind(kind) ==> {
                &&& r == Step::Skipped(path)
                &&& final(self).pending() == old(self).pending()
            },
    {
        match kind {
            EntryKind::Directory | EntryKind::LinkToDirectory => {
                self.queue.push_back(path);
                Step::Queued
            },
            EntryKind::File | EntryKind::LinkToFile => Step::Visit(path),
            _ => Step::Skipped(path),
        }
    }

    /// Lists one whole directory: the files to visit, in listing order; its
    /// subdirectories join the back of the queue in the same order.
    pub fn on_listing(&mut self, entries: Vec<(P, EntryKind)>) -> (r: Vec<P>)
        ensures
            r@ == files_of(entries@),
            final(self).pending() == old(self).pending() + dirs_of(entries@),
    {
        let ghost all = entries@;
        let mut files: Vec<P> = Vec::new();
        let mut rest = entries;
        let n = rest.len();
        let mut i: usize = 0;
        assert(all.subrange(0, 0) =~= Seq::<(P, EntryKind)>::empty());
        assert(self.pending() =~= old(self).pending() + dirs_of(all.subrange(0, 0)));
        while rest.len() > 0
            invariant
                n == all.len(),
                i + rest@.len() == all.len(),
                rest@ == all.subrange(i as int, all.len() as int),
                files@ == files_of(all.subrange(0, i as int)),
                self.pending() == old(self).pending() + dirs_of(all.subrange(0, i as int)),
            decreases rest.len(),
        {
            let (p, k) = rest.remove(0);
            let ghost e = (p, k);
            assert(e == all[i as int]);
            assert(all.subrange(0, i + 1).drop_last() =~= all.subrange(0, i as int));
            match self.on_entry(p, k) {
                Step::Visit(q) => files.push(q),
                _ => {},
            }
            i = i + 1;
            assert(self.pending() =~= old(self).pending() + dirs_of(all.subrange(0, i as int)));
        }
        assert(all.subrange(0, i as int) =~= all);
        files
    }
}

/// Walking a queue lists its front directory first: the files directly in
/// it come before anything found in a directory queued behind it or below it.
pub proof fn lemma_front_directory_first<P>(
    tree: Map<P, Seq<(P, EntryKind)>>,
    queue: Seq<P>,
    fuel: nat,
)
    requires
        queue.len() > 0,
    ensures
        walk_visits(tree, queue, fuel + 1) == files_of(listing(tree, queue[0])) + walk_visits(
            tree,
            queue.drop_first() + dirs_of(listing(tree, queue[0])),
            fuel,
        ),
{
}

/// From a single root, the files listed directly in the root are visited
/// first, before any file of any of its subdirectories.
pub proof fn lemma_root_files_first<P>(tree: Map<P, Seq<(P, EntryKind)>>, root: P, fuel: nat)
    ensures
        walk_visits(tree, seq![root], fuel + 1) == files_of(listing(tree, root)) + walk_visits(
            tree,
            dirs_of(listing(tree, root)),
            fuel,
        ),
{
    assert(seq![root].drop_first() + dirs_of(listing(tree, root)) =~= dirs_of(listing(tree, root)));
}

/// `x` is listed, at position `i`, in the listing of `d`.
pub open spec fn listed_at<P>(tree: Map<P, Seq<(P, EntryKind)>>, d: P, i: int, x: P) -> bool {
    tree.contains_key(d) && 0 <= i < tree[d].len() && tree[d][i].0 == x
}

/// `x` is listed in some directory of the tree.
pub open spec fn is_listed<P>(tree: Map<P, Seq<(P, EntryKind)>>, x: P) -> bool {
    exists|d: P, i: int| #[trigger] listed_at(tree, d, i, x)
}

/// The listings form a tree below `root`: `root` is listed nowhere, and no
/// path is listed twice, neither in two directories nor twice in one.
pub open spec fn is_tree<P>(tree: Map<P, Seq<(P, EntryKind)>>, root: P) -> bool {
    &&& forall|d: P, i: int, x: P| #[trigger] listed_at(tree, d, i, x) ==> x != root
    &&& forall|d1: P, i1: int, d2: P, i2: int, x: P|
        #[trigger] listed_at(tree, d1, i1, x) && #[trigger] listed_at(tree, d2, i2, x) ==> d1 == d2
            && i1 == i2
}

spec fn has_file_entry<P>(entries: Seq<(P, EntryKind)>, x: P) -> bool {
    exists|i: int| 0 <= i < entries.len() && is_file_kind(entries[i].1) && #[trigger] entries[i].0 == x
}

spec fn has_dir_entry<P>(entries: Seq<(P, EntryKind)>, x: P) -> bool {
    exists|i: int| 0 <= i < entries.len() && is_dir_kind(entries[i].1) && #[trigger] entries[i].0 == x
}

proof fn lemma_files_listed<P>(entries: Seq<(P, EntryKind)>)
    ensures
        forall|k: int|
            0 <= k < files_of(entries).len() ==> has_file_entry(entries, #[trigger] files_of(entries)[k]),
        (forall|i: int, j: int|
            0 <= i < entries.len() && 0 <= j < entries.len() && entries[i].0 == entries[j].0
                ==> i == j) ==> files_of(entries).no_duplicates(),
    decreases entries.len(),
{
    if entries.len() > 0 {
        let init = entries.drop_last();
        lemma_files_listed(init);
        let f = files_of(entries);
        assert(f == if is_file_kind(entries.last().1) {
            files_of(init).push(entries.last().0)
        } else {
            files_of(init)
        });
        assert forall|k: int| 0 <= k < f.len() implies has_file_entry(entries, #[trigger] f[k]) by {
            if k < files_of(init).len() {
                let i = choose|i: int|
                    0 <= i < init.len() && is_file_kind(init[i].1) && init[i].0 == files_of(init)[k];
                assert(entries[i] == init[i]);
            } else {
                assert(entries[entries.len() - 1].0 == f[k]);
            }
        }
        if forall|i: int, j: int|
            0 <= i < entries.len() && 0 <= j < entries.len() && entries[i].0 == entries[j].0
                ==> i == j {
            assert forall|i: int, j: int|
                0 <= i < init.len() && 0 <= j < init.len() && init[i].0 == init[j].0 implies i
                == j by {
                assert(entries[i] == init[i] && entries[j] == init[j]);
            }
            if is_file_kind(entries.last().1) {
                assert forall|k: int| 0 <= k < files_of(init).len() implies files_of(init)[k]
                    != entries.last().0 by {
                    let i = choose|i: int|
                        0 <= i < init.len() && is_file_kind(init[i].1) && init[i].0 == files_of(init)[k];
                    assert(entries[i] == init[i]);
                }
            }
        }
    }
}

proof fn lemma_dirs_listed<P>(entries: Seq<(P, EntryKind)>)
    ensures
        forall|k: int|
            0 <= k < dirs_of(entries).len() ==> has_dir_entry(entries, #[trigger] dirs_of(entries)[k]),
        (forall|i: int, j: int|
            0 <= i < entries.len() && 0 <= j < entries.len() && entries[i].0 == entries[j].0
                ==> i == j) ==> dirs_of(entries).no_duplicates(),
    decreases entries.len(),
{
    if entries.len() > 0 {
        let init = entries.drop_last();
        lemma_dirs_listed(init);
        let f = dirs_of(entries);
        assert(f == if is_dir_kind(entries.last().1) {
            dirs_of(init).push(entries.last().0)
        } else {
            dirs_of(init)
        });
        assert forall|k: int| 0 <= k < f.len() implies has_dir_entry(entries, #[trigger] f[k]) by {
            if k < dirs_of(init).len() {
                let i = choose|i: int|
                    0 <= i < init.len() && is_dir_kind(init[i].1) && init[i].0 == dirs_of(init)[k];
                assert(entries[i] == init[i]);
            } else {
                assert(entries[entries.len() - 1].0 == f[k]);
            }
        }
        if forall|i: int, j: int|
            0 <= i < entries.len() && 0 <= j < entries.len() && entries[i].0 == entries[j].0
                ==> i == j {
            assert forall|i: int, j: int|
                0 <= i < init.len() && 0 <= j < init.len() && init[i].0 == init[j].0 implies i
                == j by {
                assert(entries[i] == init[i] && entries[j] == init[j]);
            }
            if is_dir_kind(entries.last().1) {
                assert forall|k: int| 0 <= k < dirs_of(init).len() implies dirs_of(init)[k]
                    != entries.last().0 by {
                    let i = choose|i: int|
                        0 <= i < init.len() && is_dir_kind(init[i].1) && init[i].0 == dirs_of(init)[k];
                    assert(entries[i] == init[i]);
                }
            }
        }
    }
}

/// What holds of the queue and of the directories already listed, at every
/// point of a walk from `root` over a tree.
spec fn walk_state<P>(tree: Map<P, Seq<(P, EntryKind)>>, root: P, queue: Seq<P>, done: Set<P>) -> bool {
    &&& queue.no_duplicates()
    &&& forall|k: int| 0 <= k < queue.len() ==> !done.contains(#[trigger] queue[k])
    &&& forall|x: P|
        (queue.contains(x) || done.contains(x)) && x != root ==> exists|d: P, i: int|
            done.contains(d) && #[trigger] listed_at(tree, d, i, x)
}

proof fn lemma_listing_distinct<P>(tree: Map<P, Seq<(P, EntryKind)>>, root: P, d: P)
    requires
        is_tree(tree, root),
    ensures
        forall|i: int, j: int|
            0 <= i < listing(tree, d).len() && 0 <= j < listing(tree, d).len() && listing(tree, d)[i].0
                == listing(tree, d)[j].0 ==> i == j,
{
    let entries = listing(tree, d);
    assert forall|i: int, j: int|
        0 <= i < entries.len() && 0 <= j < entries.len() && entries[i].0 == entries[j].0 implies i
        == j by {
        assert(listed_at(tree, d, i, entries[i].0));
        assert(listed_at(tree, d, j, entries[i].0));
    }
}

/// Listing the front directory of the queue keeps the walk's state.
proof fn lemma_walk_state_step<P>(
    tree: Map<P, Seq<(P, EntryKind)>>,
    root: P,
    queue: Seq<P>,
    done: Set<P>,
)
    requires
        is_tree(tree, root),
        walk_state(tree, root, queue, done),
        queue.len() > 0,
    ensures
        walk_state(
            tree,
            root,
            queue.drop_first() + dirs_of(listing(tree, queue[0])),
            done.insert(queue[0]),
        ),
{
    let d = queue[0];
    let entries = listing(tree, d);
    let next = queue.drop_first() + dirs_of(entries);
    let done2 = done.insert(d);
    lemma_listing_distinct(tree, root, d);
    lemma_dirs_listed(entries);
    let dirs = dirs_of(entries);
    assert(!done.contains(queue[0]));
        // A directory listed in `d` is new to the walk.
        assert forall|k: int| 0 <= k < dirs.len() implies !queue.contains(#[trigger] dirs[k])
            && !done.contains(dirs[k]) by {
            let i = choose|i: int| 0 <= i < entries.len() && is_dir_kind(entries[i].1) && entries[i].0 == dirs[k];
            assert(listed_at(tree, d, i, dirs[k]));
            if queue.contains(dirs[k]) || done.contains(dirs[k]) {
                let (d1, i1) = choose|d1: P, i1: int|
                    done.contains(d1) && #[trigger] listed_at(tree, d1, i1, dirs[k]);
                assert(d1 == d);
            }
        }
        assert(walk_state(tree, root, next, done2)) by {
            assert forall|a: int, b: int| 0 <= a < b < next.len() implies next[a] != next[b] by {
                if b >= queue.len() - 1 && a < queue.len() - 1 {
                    assert(queue.contains(next[a]));
                    assert(!queue.contains(dirs[b - (queue.len() - 1)]));
                } else if a < queue.len() - 1 {
                    assert(next[a] == queue[a + 1] && next[b] == queue[b + 1]);
                }
            }
            assert forall|k: int| 0 <= k < next.len() implies !done2.contains(#[trigger] next[k]) by {
                if k < queue.len() - 1 {
                    assert(next[k] == queue[k + 1]);
                } else {
                    assert(next[k] == dirs[k - (queue.len() - 1)]);
                    assert(queue.contains(d));
                }
            }
            assert forall|x: P|
                (next.contains(x) || done2.contains(x)) && x != root implies exists|d1: P, i: int|
                done2.contains(d1) && #[trigger] listed_at(tree, d1, i, x) by {
                if done.contains(x) || queue.contains(x) {
                    let (d1, i1) = choose|d1: P, i1: int|
                        done.contains(d1) && #[trigger] listed_at(tree, d1, i1, x);
                    assert(done2.contains(d1));
                } else if x == d {
                    assert(queue.contains(x));
                } else {
                    let k = choose|k: int| 0 <= k < next.len() && next[k] == x;
                    if k < queue.len() - 1 {
                        assert(queue.contains(queue[k + 1]));
                    } else {
                        let j = k - (queue.len() - 1);
                        assert(dirs[j] == x);
                        let i = choose|i: int| 0 <= i < entries.len() && is_dir_kind(entries[i].1) && entries[i].0 == dirs[j];
                        assert(listed_at(tree, d, i, x));
                    }
                }
            }
        }
}

/// `x` is listed in some directory outside `done`.
spec fn listed_outside<P>(tree: Map<P, Seq<(P, EntryKind)>>, done: Set<P>, x: P) -> bool {
    exists|d: P, i: int| !done.contains(d) && #[trigger] listed_at(tree, d, i, x)
}

proof fn lemma_walk_distinct<P>(
    tree: Map<P, Seq<(P, EntryKind)>>,
    root: P,
    queue: Seq<P>,
    done: Set<P>,
    fuel: nat,
)
    requires
        is_tree(tree, root),
        walk_state(tree, root, queue, done),
    ensures
        walk_visits(tree, queue, fuel).no_duplicates(),
        forall|k: int|
            0 <= k < walk_visits(tree, queue, fuel).len() ==> listed_outside(
                tree,
                done,
                #[trigger] walk_visits(tree, queue, fuel)[k],
            ),
    decreases fuel,
{
    if fuel > 0 && queue.len() > 0 {
        let d = queue[0];
        let entries = listing(tree, d);
        let next = queue.drop_first() + dirs_of(entries);
        let done2 = done.insert(d);
        lemma_listing_distinct(tree, root, d);
        lemma_files_listed(entries);
        lemma_walk_state_step(tree, root, queue, done);
        lemma_walk_distinct(tree, root, next, done2, (fuel - 1) as nat);
        let files = files_of(entries);
        let rest = walk_visits(tree, next, (fuel - 1) as nat);
        let all = walk_visits(tree, queue, fuel);
        assert(all == files + rest);
        assert forall|k: int| 0 <= k < all.len() implies listed_outside(
            tree,
            done,
            #[trigger] all[k],
        ) by {
            if k < files.len() {
                let i = choose|i: int| 0 <= i < entries.len() && is_file_kind(entries[i].1) && entries[i].0 == files[k];
                assert(all[k] == files[k]);
                assert(listed_at(tree, d, i, all[k]));
            } else {
                assert(all[k] == rest[k - files.len()]);
                assert(listed_outside(tree, done2, rest[k - files.len()]));
                let (d1, i1) = choose|d1: P, i1: int|
                    !done2.contains(d1) && #[trigger] listed_at(tree, d1, i1, rest[k - files.len()]);
                assert(!done.contains(d1));
            }
        }
        assert forall|a: int, b: int| 0 <= a < b < all.len() implies all[a] != all[b] by {
            if a < files.len() && b < files.len() {
                assert(all[a] == files[a] && all[b] == files[b]);
            } else if b >= files.len() && a >= files.len() {
                assert(all[a] == rest[a - files.len()] && all[b] == rest[b - files.len()]);
            } else {
                let i = choose|i: int| 0 <= i < entries.len() && is_file_kind(entries[i].1) && entries[i].0 == files[a];
                assert(all[a] == files[a]);
                assert(all[b] == rest[b - files.len()]);
                assert(listed_outside(tree, done2, rest[b - files.len()]));
                let (d1, i1) = choose|d1: P, i1: int|
                    !done2.contains(d1) && #[trigger] listed_at(tree, d1, i1, rest[b - files.len()]);
                if all[a] == all[b] {
                    assert(listed_at(tree, d, i, all[a]));
                    assert(listed_at(tree, d1, i1, all[a]));
                }
            }
        }
    }
}

/// On a tree, a walk from `root` never visits a file twice, however far it
/// goes; each path it visits is listed as a file in a directory below `root`.
pub proof fn lemma_walk_visits_each_file_at_most_once<P>(
    tree: Map<P, Seq<(P, EntryKind)>>,
    root: P,
    fuel: nat,
)
    requires
        is_tree(tree, root),
    ensures
        walk_visits(tree, seq![root], fuel).no_duplicates(),
        forall|k: int|
            0 <= k < walk_visits(tree, seq![root], fuel).len() ==> is_file_below(
                tree,
                root,
                #[trigger] walk_visits(tree, seq![root], fuel)[k],
            ),
{
    let q = seq![root];
    assert forall|x: P| (q.contains(x) || Set::<P>::empty().contains(x)) && x != root implies exists|
        d: P,
        i: int,
    | Set::<P>::empty().contains(d) && #[trigger] listed_at(tree, d, i, x) by {
        assert(q.contains(x) ==> q[0] == x);
    }
    lemma_walk_distinct(tree, root, q, Set::empty(), fuel);
    assert forall|k: int| 0 <= k < q.len() implies reached_below(tree, root, #[trigger] q[k], 0) by {
        assert(q[k] == root);
        assert(reaches(tree, root, root, 0));
    }
    lemma_walk_visits_below(tree, root, q, fuel, 0);
    let v = walk_visits(tree, q, fuel);
    assert forall|k: int| 0 <= k < v.len() implies is_file_below(tree, root, #[trigger] v[k]) by {
        assert(file_below_depth(tree, root, v[k], 0));
        let n = choose|n: nat| n >= 0 && #[trigger] file_at_depth(tree, root, v[k], n);
    }
}

/// The walk of `queue` has ended within `fuel` directory listings.
pub open spec fn walk_ends<P>(tree: Map<P, Seq<(P, EntryKind)>>, queue: Seq<P>, fuel: nat) -> bool
    decreases fuel,
{
    if queue.len() == 0 {
        true
    } else if fuel == 0 {
        false
    } else {
        walk_ends(
            tree,
            queue.drop_first() + dirs_of(listing(tree, queue[0])),
            (fuel - 1) as nat,
        )
    }
}

/// `to` is reached from the directory `from` through `n` nested directories
/// (or links to directories).
pub open spec fn reaches<P>(tree: Map<P, Seq<(P, EntryKind)>>, from: P, to: P, n: nat) -> bool
    decreases n,
{
    if n == 0 {
        from == to
    } else {
        exists|i: int|
            0 <= i < listing(tree, from).len() && is_dir_kind(listing(tree, from)[i].1) && reaches(
                tree,
                #[trigger] listing(tree, from)[i].0,
                to,
                (n - 1) as nat,
            )
    }
}

proof fn lemma_listed_kinds<P>(entries: Seq<(P, EntryKind)>, i: int)
    requires
        0 <= i < entries.len(),
    ensures
        is_file_kind(entries[i].1) ==> files_of(entries).contains(entries[i].0),
        is_dir_kind(entries[i].1) ==> dirs_of(entries).contains(entries[i].0),
    decreases entries.len(),
{
    let init = entries.drop_last();
    if i < entries.len() - 1 {
        lemma_listed_kinds(init, i);
        assert(init[i] == entries[i]);
        if is_file_kind(entries[i].1) {
            let k = choose|k: int| 0 <= k < files_of(init).len() && files_of(init)[k] == entries[i].0;
            assert(files_of(entries)[k] == entries[i].0);
        }
        if is_dir_kind(entries[i].1) {
            let k = choose|k: int| 0 <= k < dirs_of(init).len() && dirs_of(init)[k] == entries[i].0;
            assert(dirs_of(entries)[k] == entries[i].0);
        }
    } else {
        if is_file_kind(entries[i].1) {
            assert(files_of(entries).last() == entries[i].0);
        }
        if is_dir_kind(entries[i].1) {
            assert(dirs_of(entries).last() == entries[i].0);
        }
    }
}

/// A walk that has ended has visited every file listed in every directory
/// reached from its queue, at any depth.
pub proof fn lemma_ended_walk_visits_every_file<P>(
    tree: Map<P, Seq<(P, EntryKind)>>,
    queue: Seq<P>,
    fuel: nat,
    start: P,
    dir: P,
    n: nat,
    i: int,
)
    requires
        walk_ends(tree, queue, fuel),
        queue.contains(start),
        reaches(tree, start, dir, n),
        0 <= i < listing(tree, dir).len(),
        is_file_kind(listing(tree, dir)[i].1),
    ensures
        walk_visits(tree, queue, fuel).contains(listing(tree, dir)[i].0),
    decreases fuel, n,
{
    let d = queue[0];
    let next = queue.drop_first() + dirs_of(listing(tree, d));
    let files = files_of(listing(tree, d));
    let rest = walk_visits(tree, next, (fuel - 1) as nat);
    assert(walk_visits(tree, queue, fuel) == files + rest);
    let x = listing(tree, dir)[i].0;
    if start != d {
        let k = choose|k: int| 0 <= k < queue.len() && queue[k] == start;
        assert(next[k - 1] == start);
        lemma_ended_walk_visits_every_file(tree, next, (fuel - 1) as nat, start, dir, n, i);
        let j = choose|j: int| 0 <= j < rest.len() && rest[j] == x;
        assert((files + rest)[files.len() + j] == x);
    } else if n == 0 {
        lemma_listed_kinds(listing(tree, d), i);
        let j = choose|j: int| 0 <= j < files.len() && files[j] == x;
        assert((files + rest)[j] == x);
    } else {
        let c = choose|c: int|
            0 <= c < listing(tree, d).len() && is_dir_kind(listing(tree, d)[c].1) && reaches(
                tree,
                #[trigger] listing(tree, d)[c].0,
                dir,
                (n - 1) as nat,
            );
        let child = listing(tree, d)[c].0;
        lemma_listed_kinds(listing(tree, d), c);
        let m = choose|m: int|
            0 <= m < dirs_of(listing(tree, d)).len() && dirs_of(listing(tree, d))[m] == child;
        assert(next[queue.len() - 1 + m] == child);
        lemma_ended_walk_visits_every_file(
            tree,
            next,
            (fuel - 1) as nat,
            child,
            dir,
            (n - 1) as nat,
            i,
        );
        let j = choose|j: int| 0 <= j < rest.len() && rest[j] == x;
        assert((files + rest)[files.len() + j] == x);
    }
}

proof fn lemma_walk_ends_within<P>(
    tree: Map<P, Seq<(P, EntryKind)>>,
    root: P,
    paths: Set<P>,
    queue: Seq<P>,
    done: Set<P>,
    fuel: nat,
)
    requires
        is_tree(tree, root),
        walk_state(tree, root, queue, done),
        paths.finite(),
        paths.contains(root),
        forall|x: P| #[trigger] is_listed(tree, x) ==> paths.contains(x),
        done.subset_of(paths),
        forall|k: int| 0 <= k < queue.len() ==> paths.contains(#[trigger] queue[k]),
        fuel + done.len() >= paths.len(),
    ensures
        walk_ends(tree, queue, fuel),
    decreases fuel,
{
    vstd::set_lib::lemma_len_subset(done, paths);
    if queue.len() > 0 {
        let d = queue[0];
        let entries = listing(tree, d);
        let next = queue.drop_first() + dirs_of(entries);
        let done2 = done.insert(d);
        assert(!done.contains(d));
        assert(done2.len() == done.len() + 1);
        vstd::set_lib::lemma_len_subset(done2, paths);
        lemma_walk_state_step(tree, root, queue, done);
        lemma_dirs_listed(entries);
        assert forall|k: int| 0 <= k < next.len() implies paths.contains(#[trigger] next[k]) by {
            if k < queue.len() - 1 {
                assert(next[k] == queue[k + 1]);
            } else {
                let x = dirs_of(entries)[k - (queue.len() - 1)];
                assert(next[k] == x);
                let i = choose|i: int| 0 <= i < entries.len() && is_dir_kind(entries[i].1) && entries[i].0 == x;
                assert(listed_at(tree, d, i, x));
                assert(is_listed(tree, x));
            }
        }
        lemma_walk_ends_within(tree, root, paths, next, done2, (fuel - 1) as nat);
    }
}

/// On a finite tree, whose paths all lie in `paths`, a walk from `root` ends
/// within as many directory listings as there are paths.
pub proof fn lemma_walk_ends_on_finite_tree<P>(
    tree: Map<P, Seq<(P, EntryKind)>>,
    root: P,
    paths: Set<P>,
)
    requires
        is_tree(tree, root),
        paths.finite(),
        paths.contains(root),
        forall|x: P| #[trigger] is_listed(tree, x) ==> paths.contains(x),
    ensures
        walk_ends(tree, seq![root], paths.len()),
{
    let q = seq![root];
    assert forall|x: P| (q.contains(x) || Set::<P>::empty().contains(x)) && x != root implies exists|
        d: P,
        i: int,
    | Set::<P>::empty().contains(d) && #[trigger] listed_at(tree, d, i, x) by {
        assert(q.contains(x) ==> q[0] == x);
    }
    lemma_walk_ends_within(tree, root, paths, q, Set::empty(), paths.len());
}

/// `x` is listed as a file in a directory that `root` reaches through `n`
/// nested directories.
pub open spec fn file_at_depth<P>(tree: Map<P, Seq<(P, EntryKind)>>, root: P, x: P, n: nat) -> bool {
    exists|d: P, i: int|
        #![trigger reaches(tree, root, d, n), listing(tree, d)[i]]
        reaches(tree, root, d, n) && 0 <= i < listing(tree, d).len() && is_file_kind(
            listing(tree, d)[i].1,
        ) && listing(tree, d)[i].0 == x
}

/// `x` is listed as a file in a directory below `root`, at any depth.
pub open spec fn is_file_below<P>(tree: Map<P, Seq<(P, EntryKind)>>, root: P, x: P) -> bool {
    exists|n: nat| #[trigger] file_at_depth(tree, root, x, n)
}

/// `root` reaches the directory `x` through `min` or more nested directories.
pub open spec fn reached_below<P>(tree: Map<P, Seq<(P, EntryKind)>>, root: P, x: P, min: nat) -> bool {
    exists|n: nat| n >= min && #[trigger] reaches(tree, root, x, n)
}

/// `x` is listed as a file at depth `min` or more below `root`.
pub open spec fn file_below_depth<P>(tree: Map<P, Seq<(P, EntryKind)>>, root: P, x: P, min: nat) -> bool {
    exists|n: nat| n >= min && #[trigger] file_at_depth(tree, root, x, n)
}

/// A directory listed in a directory reached in `n` steps is reached in
/// `n + 1`.
proof fn lemma_reaches_extend<P>(tree: Map<P, Seq<(P, EntryKind)>>, from: P, d: P, n: nat, i: int)
    requires
        reaches(tree, from, d, n),
        0 <= i < listing(tree, d).len(),
        is_dir_kind(listing(tree, d)[i].1),
    ensures
        reaches(tree, from, listing(tree, d)[i].0, n + 1),
    decreases n,
{
    let c = listing(tree, d)[i].0;
    if n == 0 {
        assert(reaches(tree, c, c, 0));
        assert(reaches(tree, from, c, 1));
    } else {
        let j = choose|j: int|
            0 <= j < listing(tree, from).len() && is_dir_kind(listing(tree, from)[j].1) && reaches(
                tree,
                #[trigger] listing(tree, from)[j].0,
                d,
                (n - 1) as nat,
            );
        lemma_reaches_extend(tree, listing(tree, from)[j].0, d, (n - 1) as nat, i);
        assert(reaches(tree, listing(tree, from)[j].0, c, n));
    }
}

/// Every file that a walk visits lies at depth `min` or more below `root`,
/// when every directory of its queue does.
proof fn lemma_walk_visits_below<P>(
    tree: Map<P, Seq<(P, EntryKind)>>,
    root: P,
    queue: Seq<P>,
    fuel: nat,
    min: nat,
)
    requires
        forall|k: int|
            0 <= k < queue.len() ==> reached_below(tree, root, #[trigger] queue[k], min),
    ensures
        forall|k: int|
            0 <= k < walk_visits(tree, queue, fuel).len() ==> file_below_depth(
                tree,
                root,
                #[trigger] walk_visits(tree, queue, fuel)[k],
                min,
            ),
    decreases fuel,
{
    if fuel > 0 && queue.len() > 0 {
        let d = queue[0];
        let entries = listing(tree, d);
        let next = queue.drop_first() + dirs_of(entries);
        assert(reached_below(tree, root, queue[0], min));
        let n0 = choose|n: nat| n >= min && #[trigger] reaches(tree, root, queue[0], n);
        lemma_files_listed(entries);
        lemma_dirs_listed(entries);
        assert forall|k: int| 0 <= k < next.len() implies reached_below(
            tree,
            root,
            #[trigger] next[k],
            min,
        ) by {
            if k < queue.len() - 1 {
                assert(next[k] == queue[k + 1]);
                assert(reached_below(tree, root, queue[k + 1], min));
            } else {
                let x = dirs_of(entries)[k - (queue.len() - 1)];
                assert(next[k] == x);
                assert(has_dir_entry(entries, x));
                let i = choose|i: int|
                    0 <= i < entries.len() && is_dir_kind(entries[i].1) && #[trigger] entries[i].0 == x;
                lemma_reaches_extend(tree, root, d, n0, i);
                assert(reaches(tree, root, x, n0 + 1));
            }
        }
        lemma_walk_visits_below(tree, root, next, (fuel - 1) as nat, min);
        let files = files_of(entries);
        let rest = walk_visits(tree, next, (fuel - 1) as nat);
        let all = walk_visits(tree, queue, fuel);
        assert(all == files + rest);
        assert forall|k: int| 0 <= k < all.len() implies file_below_depth(
            tree,
            root,
            #[trigger] all[k],
            min,
        ) by {
            if k < files.len() {
                assert(all[k] == files[k]);
                assert(has_file_entry(entries, files[k]));
                let i = choose|i: int|
                    0 <= i < entries.len() && is_file_kind(entries[i].1) && #[trigger] entries[i].0
                        == files[k];
                assert(listing(tree, d)[i].0 == all[k]);
                assert(file_at_depth(tree, root, all[k], n0));
            } else {
                assert(all[k] == rest[k - files.len()]);
                assert(file_below_depth(tree, root, rest[k - files.len()], min));
            }
        }
    }
}

/// The files that a walk from `root` visits, before the first file of any
/// subdirectory, are exactly the files listed directly in `root`, in listing
/// order; every file visited after them lies in a subdirectory, at depth one
/// or more.
pub proof fn lemma_root_files_before_subdirectories<P>(
    tree: Map<P, Seq<(P, EntryKind)>>,
    root: P,
    fuel: nat,
)
    ensures
        walk_visits(tree, seq![root], fuel + 1) == files_of(listing(tree, root)) + walk_visits(
            tree,
            dirs_of(listing(tree, root)),
            fuel,
        ),
        forall|k: int|
            0 <= k < walk_visits(tree, dirs_of(listing(tree, root)), fuel).len() ==> file_below_depth(
                tree,
                root,
                #[trigger] walk_visits(tree, dirs_of(listing(tree, root)), fuel)[k],
                1,
            ),
{
    lemma_root_files_first(tree, root, fuel);
    let entries = listing(tree, root);
    let q = dirs_of(entries);
    lemma_dirs_listed(entries);
    assert forall|k: int| 0 <= k < q.len() implies reached_below(tree, root, #[trigger] q[k], 1) by {
        assert(has_dir_entry(entries, q[k]));
        let i = choose|i: int|
            0 <= i < entries.len() && is_dir_kind(entries[i].1) && #[trigger] entries[i].0 == q[k];
        assert(reaches(tree, root, root, 0));
        lemma_reaches_extend(tree, root, root, 0, i);
        assert(reaches(tree, root, q[k], 1));
    }
    lemma_walk_visits_below(tree, root, q, fuel, 1);
}

/// On a finite tree, a walk from `root` visits every file of every directory
/// reached from `root`, at any depth, and visits none twice.
pub proof fn lemma_walk_visits_every_file_exactly_once<P>(
    tree: Map<P, Seq<(P, EntryKind)>>,
    root: P,
    paths: Set<P>,
)
    requires
        is_tree(tree, root),
        paths.finite(),
        paths.contains(root),
        forall|x: P| #[trigger] is_listed(tree, x) ==> paths.contains(x),
    ensures
        walk_visits(tree, seq![root], paths.len()).no_duplicates(),
        forall|dir: P, n: nat, i: int|
            #![trigger reaches(tree, root, dir, n), listing(tree, dir)[i]]
            reaches(tree, root, dir, n) && 0 <= i < listing(tree, dir).len() && is_file_kind(
                listing(tree, dir)[i].1,
            ) ==> walk_visits(tree, seq![root], paths.len()).contains(listing(tree, dir)[i].0),
        forall|x: P|
            #[trigger] walk_visits(tree, seq![root], paths.len()).contains(x) <==> is_file_below(
                tree,
                root,
                x,
            ),
{
    lemma_walk_visits_each_file_at_most_once(tree, root, paths.len());
    lemma_walk_ends_on_finite_tree(tree, root, paths);
    assert forall|dir: P, n: nat, i: int|
        #![trigger reaches(tree, root, dir, n), listing(tree, dir)[i]]
        reaches(tree, root, dir, n) && 0 <= i < listing(tree, dir).len() && is_file_kind(
            listing(tree, dir)[i].1,
        ) implies walk_visits(tree, seq![root], paths.len()).contains(listing(tree, dir)[i].0) by {
        assert(seq![root][0] == root);
        lemma_ended_walk_visits_every_file(tree, seq![root], paths.len(), root, dir, n, i);
    }
    let v = walk_visits(tree, seq![root], paths.len());
    assert(reaches(tree, root, root, 0));
    assert forall|k: int| 0 <= k < seq![root].len() implies reached_below(
        tree,
        root,
        #[trigger] seq![root][k],
        0,
    ) by {
        assert(seq![root][k] == root);
    }
    lemma_walk_visits_below(tree, root, seq![root], paths.len(), 0);
    assert forall|x: P| #[trigger] v.contains(x) <==> is_file_below(tree, root, x) by {
        if v.contains(x) {
            let k = choose|k: int| 0 <= k < v.len() && v[k] == x;
            assert(file_below_depth(tree, root, v[k], 0));
            let n = choose|n: nat| n >= 0 && #[trigger] file_at_depth(tree, root, v[k], n);
            assert(file_at_depth(tree, root, x, n));
        }
        if is_file_below(tree, root, x) {
            let n = choose|n: nat| #[trigger] file_at_depth(tree, root, x, n);
            let (dir, i) = choose|dir: P, i: int|
                #![trigger reaches(tree, root, dir, n), listing(tree, dir)[i]]
                reaches(tree, root, dir, n) && 0 <= i < listing(tree, dir).len() && is_file_kind(
                    listing(tree, dir)[i].1,
                ) && listing(tree, dir)[i].0 == x;
            assert(reaches(tree, root, dir, n) && listing(tree, dir)[i].0 == x);
        }
    }
}


/// A directory reached in `n + 1` steps is listed in one reached in `n`.
proof fn lemma_reaches_last_step<P>(tree: Map<P, Seq<(P, EntryKind)>>, from: P, d: P, n: nat)
    requires
        reaches(tree, from, d, n + 1),
    ensures
        exists|p: P, i: int|
            #![trigger reaches(tree, from, p, n), listing(tree, p)[i]]
            reaches(tree, from, p, n) && 0 <= i < listing(tree, p).len() && is_dir_kind(
                listing(tree, p)[i].1,
            ) && listing(tree, p)[i].0 == d,
    decreases n,
{
    let j = choose|j: int|
        0 <= j < listing(tree, from).len() && is_dir_kind(listing(tree, from)[j].1) && reaches(
            tree,
            #[trigger] listing(tree, from)[j].0,
            d,
            n,
        );
    let c = listing(tree, from)[j].0;
    if n == 0 {
        assert(reaches(tree, from, from, 0));
    } else {
        lemma_reaches_last_step(tree, c, d, (n - 1) as nat);
        let (p, i) = choose|p: P, i: int|
            #![trigger reaches(tree, c, p, (n - 1) as nat), listing(tree, p)[i]]
            reaches(tree, c, p, (n - 1) as nat) && 0 <= i < listing(tree, p).len() && is_dir_kind(
                listing(tree, p)[i].1,
            ) && listing(tree, p)[i].0 == d;
        assert(reaches(tree, from, p, n));
    }
}

/// On a tree, a directory lies at one depth only below the root.
proof fn lemma_depth_unique<P>(tree: Map<P, Seq<(P, EntryKind)>>, root: P, d: P, n: nat, m: nat)
    requires
        is_tree(tree, root),
        reaches(tree, root, d, n),
        reaches(tree, root, d, m),
    ensures
        n == m,
    decreases n,
{
    if n > 0 {
        lemma_reaches_last_step(tree, root, d, (n - 1) as nat);
        let (p, i) = choose|p: P, i: int|
            #![trigger reaches(tree, root, p, (n - 1) as nat), listing(tree, p)[i]]
            reaches(tree, root, p, (n - 1) as nat) && 0 <= i < listing(tree, p).len() && is_dir_kind(
                listing(tree, p)[i].1,
            ) && listing(tree, p)[i].0 == d;
        assert(listed_at(tree, p, i, d));
        if m == 0 {
            assert(d == root);
        } else {
            lemma_reaches_last_step(tree, root, d, (m - 1) as nat);
            let (q, j) = choose|q: P, j: int|
                #![trigger reaches(tree, root, q, (m - 1) as nat), listing(tree, q)[j]]
                reaches(tree, root, q, (m - 1) as nat) && 0 <= j < listing(tree, q).len()
                    && is_dir_kind(listing(tree, q)[j].1) && listing(tree, q)[j].0 == d;
            assert(listed_at(tree, q, j, d));
            lemma_depth_unique(tree, root, p, (n - 1) as nat, (m - 1) as nat);
        }
    } else if m > 0 {
        lemma_reaches_last_step(tree, root, d, (m - 1) as nat);
        let (q, j) = choose|q: P, j: int|
            #![trigger reaches(tree, root, q, (m - 1) as nat), listing(tree, q)[j]]
            reaches(tree, root, q, (m - 1) as nat) && 0 <= j < listing(tree, q).len() && is_dir_kind(
                listing(tree, q)[j].1,
            ) && listing(tree, q)[j].0 == d;
        assert(listed_at(tree, q, j, d));
    }
}

/// On a tree, a file lies at one depth only below the root.
proof fn lemma_file_depth_unique<P>(tree: Map<P, Seq<(P, EntryKind)>>, root: P, x: P, n: nat, m: nat)
    requires
        is_tree(tree, root),
        file_at_depth(tree, root, x, n),
        file_at_depth(tree, root, x, m),
    ensures
        n == m,
{
    let (d, i) = choose|d: P, i: int|
        #![trigger reaches(tree, root, d, n), listing(tree, d)[i]]
        reaches(tree, root, d, n) && 0 <= i < listing(tree, d).len() && is_file_kind(
            listing(tree, d)[i].1,
        ) && listing(tree, d)[i].0 == x;
    let (e, j) = choose|e: P, j: int|
        #![trigger reaches(tree, root, e, m), listing(tree, e)[j]]
        reaches(tree, root, e, m) && 0 <= j < listing(tree, e).len() && is_file_kind(
            listing(tree, e)[j].1,
        ) && listing(tree, e)[j].0 == x;
    assert(listed_at(tree, d, i, x));
    assert(listed_at(tree, e, j, x));
    lemma_depth_unique(tree, root, d, n, m);
}


/// Files come out of a walk in order of depth, when the queue's directories
/// lie at depths `depths`, in order, spanning at most one level.
proof fn lemma_walk_depth_order<P>(
    tree: Map<P, Seq<(P, EntryKind)>>,
    root: P,
    queue: Seq<P>,
    depths: Seq<nat>,
    fuel: nat,
)
    requires
        is_tree(tree, root),
        depths.len() == queue.len(),
        forall|k: int| 0 <= k < queue.len() ==> reaches(tree, root, queue[k], #[trigger] depths[k]),
        forall|a: int, b: int| 0 <= a < b < depths.len() ==> depths[a] <= depths[b],
        forall|k: int| 0 <= k < depths.len() ==> #[trigger] depths[k] <= depths[0] + 1,
    ensures
        forall|a: int, b: int, na: nat, nb: nat|
            #![trigger file_at_depth(tree, root, walk_visits(tree, queue, fuel)[a], na), file_at_depth(tree, root, walk_visits(tree, queue, fuel)[b], nb)]
            0 <= a < b < walk_visits(tree, queue, fuel).len() && file_at_depth(
                tree,
                root,
                walk_visits(tree, queue, fuel)[a],
                na,
            ) && file_at_depth(tree, root, walk_visits(tree, queue, fuel)[b], nb) ==> na <= nb,
        forall|k: int, n: nat|
            0 <= k < walk_visits(tree, queue, fuel).len() && #[trigger] file_at_depth(
                tree,
                root,
                walk_visits(tree, queue, fuel)[k],
                n,
            ) ==> n >= depths[0],
    decreases fuel,
{
    if fuel > 0 && queue.len() > 0 {
        let d = queue[0];
        let n0 = depths[0];
        let entries = listing(tree, d);
        let dirs = dirs_of(entries);
        let next = queue.drop_first() + dirs;
        let nd = depths.drop_first() + Seq::new(dirs.len(), |_i: int| n0 + 1);
        lemma_files_listed(entries);
        lemma_dirs_listed(entries);
        assert(reaches(tree, root, d, depths[0]));
        assert forall|k: int| 0 <= k < next.len() implies reaches(
            tree,
            root,
            next[k],
            #[trigger] nd[k],
        ) by {
            if k < queue.len() - 1 {
                assert(next[k] == queue[k + 1] && nd[k] == depths[k + 1]);
            } else {
                let x = dirs[k - (queue.len() - 1)];
                assert(next[k] == x && nd[k] == n0 + 1);
                assert(has_dir_entry(entries, x));
                let i = choose|i: int|
                    0 <= i < entries.len() && is_dir_kind(entries[i].1) && #[trigger] entries[i].0 == x;
                lemma_reaches_extend(tree, root, d, n0, i);
            }
        }
        assert forall|a: int, b: int| 0 <= a < b < nd.len() implies nd[a] <= nd[b] by {
            if b < queue.len() - 1 {
                assert(nd[a] == depths[a + 1] && nd[b] == depths[b + 1]);
            } else if a < queue.len() - 1 {
                assert(nd[a] == depths[a + 1] && depths[a + 1] <= depths[0] + 1);
            }
        }
        assert forall|k: int| 0 <= k < nd.len() implies #[trigger] nd[k] <= nd[0] + 1 by {
            if queue.len() > 1 {
                assert(nd[0] == depths[1] && depths[0] <= depths[1]);
                if k < queue.len() - 1 {
                    assert(nd[k] == depths[k + 1] && depths[k + 1] <= depths[0] + 1);
                }
            }
        }
        lemma_walk_depth_order(tree, root, next, nd, (fuel - 1) as nat);
        let files = files_of(entries);
        let rest = walk_visits(tree, next, (fuel - 1) as nat);
        let all = walk_visits(tree, queue, fuel);
        assert(all == files + rest);
        if next.len() > 0 {
            assert(nd[0] >= n0) by {
                if queue.len() > 1 {
                    assert(nd[0] == depths[1]);
                }
            }
        }
        // Each file listed in `d` lies at depth `n0` and no other.
        assert forall|k: int, n: nat|
            0 <= k < files.len() && #[trigger] file_at_depth(tree, root, files[k], n) implies n
            == n0 by {
            assert(has_file_entry(entries, files[k]));
            let i = choose|i: int|
                0 <= i < entries.len() && is_file_kind(entries[i].1) && #[trigger] entries[i].0
                    == files[k];
            assert(listing(tree, d)[i].0 == files[k]);
            assert(file_at_depth(tree, root, files[k], n0));
            lemma_file_depth_unique(tree, root, files[k], n, n0);
        }
        assert forall|k: int, n: nat|
            0 <= k < all.len() && #[trigger] file_at_depth(tree, root, all[k], n) implies n
            >= depths[0] by {
            if k < files.len() {
                assert(all[k] == files[k]);
                assert(file_at_depth(tree, root, files[k], n));
            } else {
                assert(all[k] == rest[k - files.len()]);
                assert(file_at_depth(tree, root, rest[k - files.len()], n));
            }
        }
        assert forall|a: int, b: int, na: nat, nb: nat|
            0 <= a < b < all.len() && #[trigger] file_at_depth(tree, root, all[a], na)
                && #[trigger] file_at_depth(tree, root, all[b], nb) implies na <= nb by {
            if b < files.len() {
                assert(all[a] == files[a] && all[b] == files[b]);
                assert(file_at_depth(tree, root, files[a], na));
                assert(file_at_depth(tree, root, files[b], nb));
            } else if a < files.len() {
                assert(all[a] == files[a] && all[b] == rest[b - files.len()]);
                assert(file_at_depth(tree, root, files[a], na));
                assert(file_at_depth(tree, root, rest[b - files.len()], nb));
            } else {
                assert(all[a] == rest[a - files.len()] && all[b] == rest[b - files.len()]);
                assert(file_at_depth(tree, root, rest[a - files.len()], na));
                assert(file_at_depth(tree, root, rest[b - files.len()], nb));
            }
        }
    }
}

/// On a tree, a walk from `root` visits files level by level: a file visited
/// before another lies no deeper below `root` than it.
pub proof fn lemma_walk_in_depth_order<P>(tree: Map<P, Seq<(P, EntryKind)>>, root: P, fuel: nat)
    requires
        is_tree(tree, root),
    ensures
        forall|a: int, b: int, na: nat, nb: nat|
            #![trigger file_at_depth(tree, root, walk_visits(tree, seq![root], fuel)[a], na), file_at_depth(tree, root, walk_visits(tree, seq![root], fuel)[b], nb)]
            0 <= a < b < walk_visits(tree, seq![root], fuel).len() && file_at_depth(
                tree,
                root,
                walk_visits(tree, seq![root], fuel)[a],
                na,
            ) && file_at_depth(tree, root, walk_visits(tree, seq![root], fuel)[b], nb) ==> na
                <= nb,
{
    let depths: Seq<nat> = seq![0nat];
    assert(reaches(tree, root, root, 0));
    assert(seq![root][0] == root);
    lemma_walk_depth_order(tree, root, seq![root], depths, fuel);
}

} // verus!
