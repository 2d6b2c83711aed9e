use vstd::prelude::*;

verus! {

/// One child of a listed directory.
pub struct DirEntry {
    pub path: String,
    pub is_dir: bool,
}

/// A listed child as plain values: its path and whether it is a directory.
pub type EntryModel = (Seq<char>, bool);

/// The model of a directory listing.
pub open spec fn listing_view(entries: Seq<DirEntry>) -> Seq<EntryModel> {
    entries.map_values(|e: DirEntry| (e.path@, e.is_dir))
}

/// The paths of the non-directory entries of a listing, in listing order.
pub open spec fn file_paths(listing: Seq<EntryModel>) -> Seq<Seq<char>>
    decreases listing.len(),
{
    if listing.len() == 0 {
        Seq::empty()
    } else {
        let rest = file_paths(listing.drop_last());
        if listing.last().1 {
            rest
        } else {
            rest.push(listing.last().0)
        }
    }
}

/// The paths of the directory entries of a listing, in listing order.
pub open spec fn dir_paths(listing: Seq<EntryModel>) -> Seq<Seq<char>>
    decreases listing.len(),
{
    if listing.len() == 0 {
        Seq::empty()
    } else {
        let rest = dir_paths(listing.drop_last());
        if listing.last().1 {
            rest.push(listing.last().0)
        } else {
            rest
        }
    }
}

/// The state of an enumeration: directories still to be listed, and the
/// non-directory paths found so far.
pub struct WalkModel {
    pub recurse: bool,
    pub pending: Seq<Seq<char>>,
    pub files: Seq<Seq<char>>,
}

impl WalkModel {
    /// Only the root is to be listed, and nothing is found yet.
    pub open spec fn start(root: Seq<char>, recurse: bool) -> WalkModel {
        WalkModel { recurse, pending: seq![root], files: Seq::empty() }
    }

    /// The directory whose listing the walk waits for, if any.
    pub open spec fn next_dir(self) -> Option<Seq<char>> {
        if self.pending.len() == 0 {
            None
        } else {
            Some(self.pending.last())
        }
    }

    /// Takes the listing of `next_dir`: its files are found; its
    /// subdirectories are queued when recursing and skipped otherwise.
    pub open spec fn step(self, listing: Seq<EntryModel>) -> WalkModel {
        WalkModel {
            recurse: self.recurse,
            pending: self.pending.drop_last() + if self.recurse {
                dir_paths(listing)
            } else {
                Seq::empty()
            },
            files: self.files + file_paths(listing),
        }
    }
}

/// Enumerates the non-directory entries below a root. The walk says which
/// directory to list next and is handed its listing; a listing that cannot
/// be read ends the whole enumeration with that error, at the caller.
pub struct Walk {
    recurse: bool,
    pending: Vec<String>,
    files: Vec<String>,
}

impl View for Walk {
    type V = WalkModel;

    closed spec fn view(&self) -> WalkModel {
        WalkModel {
            recurse: self.recurse,
            pending: self.pending@.map_values(|s: String| s@),
            files: self.files@.map_values(|s: String| s@),
        }
    }
}

impl Walk {
    /// A walk from `root`, descending into subdirectories when `recurse`.
    pub fn new(root: String, recurse: bool) -> (r: Walk)
        ensures
            r@ == WalkModel::start(root@, recurse),
    {
        let mut pending: Vec<String> = Vec::new();
        pending.push(root);
        let r = Walk { recurse, pending, files: Vec::new() };
        assert(r@.pending =~= seq![root@]);
        assert(r@.files =~= Seq::<Seq<char>>::empty());
        r
    }

    /// The directory to list next; `None` once the walk is complete.
    pub fn next_dir(&self) -> (r: Option<String>)
        ensures
            r matches Some(s) ==> self@.next_dir() == Some(s@),
            r is None ==> self@.next_dir() is None,
    {
        let n = self.pending.len();
        if n == 0 {
            None
        } else {
            Some(self.pending[n - 1].clone())
        }
    }

    /// Takes the listing of the directory that `next_dir` named.
    pub fn on_listing(&mut self, entries: Vec<DirEntry>)
        requires
            old(self)@.pending.len() > 0,
        ensures
            final(self)@ == old(self)@.step(listing_view(entries@)),
    {
        let ghost start = self@;
        let ghost es = entries@;
        self.pending.pop();
        let ghost dirs_before = self@.pending;
        assert(dirs_before =~= start.pending.drop_last());
        let mut rest = entries;
        let mut stack: Vec<DirEntry> = Vec::new();
        while rest.len() > 0
            invariant
                rest@.len() + stack@.len() == es.len(),
                rest@ == es.subrange(0, rest@.len() as int),
                forall|k: int| 0 <= k < stack@.len() ==> stack@[k] == es[es.len() - 1 - k],
            decreases rest@.len(),
        {
            let e = rest.pop().unwrap();
            stack.push(e);
            assert(rest@ =~= es.subrange(0, rest@.len() as int));
        }
        assert(listing_view(es.subrange(0, 0)) =~= Seq::<EntryModel>::empty());
        while stack.len() > 0
            invariant
                stack@.len() <= es.len(),
                forall|k: int| 0 <= k < stack@.len() ==> stack@[k] == es[es.len() - 1 - k],
                self.recurse == start.recurse,
                self@.files == start.files + file_paths(
                    listing_view(es.subrange(0, es.len() - stack@.len())),
                ),
                self@.pending == dirs_before + if start.recurse {
                    dir_paths(listing_view(es.subrange(0, es.len() - stack@.len())))
                } else {
                    Seq::empty()
                },
            decreases stack@.len(),
        {
            let e = stack.pop().unwrap();
            let ghost n = es.len() - stack@.len();
            let ghost lv = listing_view(es.subrange(0, n));
            assert(lv.drop_last() =~= listing_view(es.subrange(0, n - 1)));
            assert(lv.last() == (e.path@, e.is_dir));
            let ghost files_before = self@.files;
            let ghost pending_before = self@.pending;
            if e.is_dir {
                if self.recurse {
                    self.pending.push(e.path);
                    assert(self@.pending =~= pending_before.push(e.path@));
                }
            } else {
                self.files.push(e.path);
                assert(self@.files =~= files_before.push(e.path@));
            }
        }
        assert(es.subrange(0, es.len() as int) =~= es);
    }

    /// Whether every directory to be listed has been.
    pub fn is_done(&self) -> (r: bool)
        ensures
            r == self@.next_dir() is None,
    {
        self.pending.len() == 0
    }

    /// The non-directory paths found, in the order they were found.
    pub fn into_files(self) -> (r: Vec<String>)
        ensures
            r@.map_values(|s: String| s@) == self@.files,
    {
        self.files
    }
}

/// Without recursion the walk ends after the root's listing, having found
/// exactly the root's non-directory children, in listing order.
pub proof fn lemma_shallow_walk(root: Seq<char>, listing: Seq<EntryModel>)
    ensures
        WalkModel::start(root, false).step(listing).next_dir() is None,
        WalkModel::start(root, false).step(listing).files == file_paths(listing),
        forall|p: Seq<char>| #[trigger] file_paths(listing).contains(p) <==> exists|i: int|
            0 <= i < listing.len() && !listing[i].1 && listing[i].0 == p,
{
    let w = WalkModel::start(root, false).step(listing);
    assert(w.pending =~= Seq::<Seq<char>>::empty());
    assert(w.files =~= file_paths(listing));
    assert forall|p: Seq<char>| #[trigger] file_paths(listing).contains(p) <==> exists|i: int|
        0 <= i < listing.len() && !listing[i].1 && listing[i].0 == p by {
        lemma_file_paths_members(listing, p);
    }
}

proof fn lemma_file_paths_members(listing: Seq<EntryModel>, p: Seq<char>)
    ensures
        file_paths(listing).contains(p) <==> exists|i: int|
            0 <= i < listing.len() && !listing[i].1 && listing[i].0 == p,
    decreases listing.len(),
{
    if listing.len() > 0 {
        let d = listing.drop_last();
        lemma_file_paths_members(d, p);
        let f = file_paths(listing);
        let g = file_paths(d);
        if f.contains(p) {
            let k = choose|k: int| 0 <= k < f.len() && f[k] == p;
            if k < g.len() {
                assert(g[k] == p);
                let i = choose|i: int| 0 <= i < d.len() && !d[i].1 && d[i].0 == p;
                assert(listing[i] == d[i]);
            } else {
                assert(!listing[listing.len() - 1].1);
            }
        }
        if exists|i: int| 0 <= i < listing.len() && !listing[i].1 && listing[i].0 == p {
            let i = choose|i: int| 0 <= i < listing.len() && !listing[i].1 && listing[i].0 == p;
            if i < d.len() {
                assert(d[i] == listing[i]);
                assert(g.contains(p));
                let k = choose|k: int| 0 <= k < g.len() && g[k] == p;
                assert(f[k] == p);
            } else {
                assert(f[f.len() - 1] == p);
            }
        }
    }
}

/// A directory tree as the file system would list it.
pub enum Tree {
    File(Seq<char>),
    Dir(Seq<char>, Seq<Tree>),
}

impl Tree {
    /// The path the tree's root is listed under.
    pub open spec fn path(self) -> Seq<char> {
        match self {
            Tree::File(p) => p,
            Tree::Dir(p, _) => p,
        }
    }

    /// Whether the tree's root is a directory.
    pub open spec fn is_dir(self) -> bool {
        self is Dir
    }
}

/// How a directory with children `cs` is listed.
pub open spec fn listing_of(cs: Seq<Tree>) -> Seq<EntryModel> {
    cs.map_values(|c: Tree| (c.path(), c.is_dir()))
}

/// The subdirectories among `cs`, in order.
pub open spec fn subdirs(cs: Seq<Tree>) -> Seq<Tree>
    decreases cs.len(),
{
    if cs.len() == 0 {
        Seq::empty()
    } else {
        let rest = subdirs(cs.drop_last());
        if cs.last().is_dir() {
            rest.push(cs.last())
        } else {
            rest
        }
    }
}

/// The paths of the trees `ts`, in order.
pub open spec fn paths_of(ts: Seq<Tree>) -> Seq<Seq<char>> {
    ts.map_values(|t: Tree| t.path())
}

/// Every non-directory path in `t`, each as often as it occurs.
pub open spec fn files_of(t: Tree) -> Seq<Seq<char>>
    decreases t,
{
    match t {
        Tree::File(p) => seq![p],
        Tree::Dir(_, cs) => files_in(cs),
    }
}

/// Every non-directory path in the trees `ts`.
pub open spec fn files_in(ts: Seq<Tree>) -> Seq<Seq<char>>
    decreases ts,
{
    if ts.len() == 0 {
        Seq::empty()
    } else {
        files_in(ts.subrange(0, ts.len() - 1)) + files_of(ts[ts.len() - 1])
    }
}

/// The number of nodes of `t`.
pub open spec fn tree_size(t: Tree) -> nat
    decreases t,
{
    match t {
        Tree::File(_) => 1,
        Tree::Dir(_, cs) => 1 + trees_size(cs),
    }
}

/// The number of nodes of the trees `ts`.
pub open spec fn trees_size(ts: Seq<Tree>) -> nat
    decreases ts,
{
    if ts.len() == 0 {
        0
    } else {
        trees_size(ts.subrange(0, ts.len() - 1)) + tree_size(ts[ts.len() - 1])
    }
}

proof fn lemma_trees_size_concat(a: Seq<Tree>, b: Seq<Tree>)
    ensures
        trees_size(a + b) == trees_size(a) + trees_size(b),
    decreases b.len(),
{
    if b.len() == 0 {
        assert(a + b =~= a);
    } else {
        let b1 = b.drop_last();
        lemma_trees_size_concat(a, b1);
        assert((a + b).subrange(0, (a + b).len() - 1) =~= a + b1);
        assert(b.subrange(0, b.len() - 1) =~= b1);
        assert((a + b)[(a + b).len() - 1] == b[b.len() - 1]);
    }
}

proof fn lemma_subdirs_size(cs: Seq<Tree>)
    ensures
        trees_size(subdirs(cs)) <= trees_size(cs),
    decreases cs.len(),
{
    if cs.len() > 0 {
        let d = cs.drop_last();
        lemma_subdirs_size(d);
        assert(cs.subrange(0, cs.len() - 1) =~= d);
        if cs.last().is_dir() {
            let sd = subdirs(d);
            assert(sd.push(cs.last()).subrange(0, sd.len() as int) =~= sd);
        }
    }
}

/// Listing the children of a directory in another order changes neither
/// the files below them nor their size.
proof fn lemma_children_reordered(a: Seq<Tree>, b: Seq<Tree>)
    requires
        a.to_multiset() == b.to_multiset(),
    ensures
        files_in(a).to_multiset() == files_in(b).to_multiset(),
        trees_size(a) == trees_size(b),
    decreases a.len(),
{
    broadcast use vstd::seq_lib::group_to_multiset_ensures;
    broadcast use vstd::seq_lib::lemma_multiset_commutative;
    broadcast use vstd::multiset::group_multiset_axioms;

    if a.len() == 0 {
        assert(b.to_multiset().len() == 0);
        assert(b =~= a);
    } else {
        let x = a.last();
        let a1 = a.drop_last();
        assert(a1.push(x) =~= a);
        assert(a.to_multiset().count(x) > 0);
        assert(b.contains(x));
        let j = choose|j: int| 0 <= j < b.len() && b[j] == x;
        let b1 = b.remove(j);
        assert(b1.to_multiset() =~= a1.to_multiset());
        lemma_children_reordered(a1, b1);
        let l = b.subrange(0, j);
        let r = b.subrange(j + 1, b.len() as int);
        assert(b =~= l + seq![x] + r);
        assert(b1 =~= l + r);
        lemma_files_in_concat(l + seq![x], r);
        lemma_files_in_concat(l, seq![x]);
        lemma_files_in_concat(l, r);
        lemma_trees_size_concat(l + seq![x], r);
        lemma_trees_size_concat(l, seq![x]);
        lemma_trees_size_concat(l, r);
        assert(seq![x].subrange(0, 0) =~= Seq::<Tree>::empty());
        assert(files_in(Seq::<Tree>::empty()) =~= Seq::<Seq<char>>::empty());
        assert(files_in(seq![x]) =~= files_of(x));
        assert(seq![x][0] == x);
        assert(trees_size(Seq::<Tree>::empty()) == 0);
        assert(trees_size(seq![x]) == trees_size(seq![x].subrange(0, 0)) + tree_size(seq![x][0]));
        assert(trees_size(seq![x]) == tree_size(x));
        assert(a.subrange(0, a.len() - 1) =~= a1);
        assert(files_in(a).to_multiset() =~= files_in(b).to_multiset());
    }
}

/// A recursive walk over `t` is in a consistent state: the pending
/// directories are the subtrees `stack`, and what is found so far together
/// with the files under `stack` is the files of `t`, each exactly as often.
pub open spec fn walk_covers(w: WalkModel, stack: Seq<Tree>, t: Tree) -> bool {
    &&& w.recurse
    &&& forall|i: int| 0 <= i < stack.len() ==> (#[trigger] stack[i]).is_dir()
    &&& w.pending == paths_of(stack)
    &&& (w.files + files_in(stack)).to_multiset() == files_of(t).to_multiset()
}

proof fn lemma_files_in_concat(a: Seq<Tree>, b: Seq<Tree>)
    ensures
        files_in(a + b) == files_in(a) + files_in(b),
    decreases b.len(),
{
    if b.len() == 0 {
        assert(a + b =~= a);
        assert(files_in(a) + files_in(b) =~= files_in(a));
    } else {
        let b1 = b.drop_last();
        lemma_files_in_concat(a, b1);
        assert((a + b).subrange(0, (a + b).len() - 1) =~= a + b1);
        assert(b.subrange(0, b.len() - 1) =~= b1);
        assert((a + b)[(a + b).len() - 1] == b[b.len() - 1]);
        assert(files_in(a + b) =~= files_in(a) + files_in(b));
    }
}

proof fn lemma_listing_split(cs: Seq<Tree>)
    ensures
        files_in(cs).to_multiset() == (file_paths(listing_of(cs)) + files_in(
            subdirs(cs),
        )).to_multiset(),
        dir_paths(listing_of(cs)) == paths_of(subdirs(cs)),
        forall|i: int| 0 <= i < subdirs(cs).len() ==> (#[trigger] subdirs(cs)[i]).is_dir(),
    decreases cs.len(),
{
    broadcast use vstd::seq_lib::lemma_multiset_commutative;
    broadcast use vstd::multiset::group_multiset_axioms;

    if cs.len() == 0 {
        assert(listing_of(cs) =~= Seq::<EntryModel>::empty());
        assert(paths_of(subdirs(cs)) =~= Seq::<Seq<char>>::empty());
    } else {
        let d = cs.drop_last();
        let c = cs.last();
        lemma_listing_split(d);
        assert(cs.subrange(0, cs.len() - 1) =~= d);
        assert(listing_of(cs).drop_last() =~= listing_of(d));
        assert(listing_of(cs).last() == (c.path(), c.is_dir()));
        let fp = file_paths(listing_of(d));
        let sd = subdirs(d);
        if c.is_dir() {
            assert(subdirs(cs) == sd.push(c));
            assert(sd.push(c).subrange(0, sd.len() as int) =~= sd);
            assert(files_in(sd.push(c)) == files_in(sd) + files_of(c));
            assert(paths_of(sd.push(c)) =~= paths_of(sd).push(c.path()));
            assert(files_in(cs).to_multiset() =~= (fp + files_in(sd.push(c))).to_multiset());
        } else {
            let p = c->File_0;
            assert(files_of(c) == seq![p]);
            assert(file_paths(listing_of(cs)) == fp.push(p));
            assert(fp.push(p) =~= fp + seq![p]);
            assert(files_in(cs).to_multiset() =~= (fp.push(p) + files_in(sd)).to_multiset());
        }
    }
}

/// A recursive walk over the directory tree `t` starts out consistent.
pub proof fn lemma_deep_walk_start(t: Tree)
    requires
        t.is_dir(),
    ensures
        walk_covers(WalkModel::start(t.path(), true), seq![t], t),
{
    let w = WalkModel::start(t.path(), true);
    let st = seq![t];
    assert(paths_of(st) =~= seq![t.path()]);
    assert(st.subrange(0, 0) =~= Seq::<Tree>::empty());
    assert(files_in(Seq::<Tree>::empty()) =~= Seq::<Seq<char>>::empty());
    assert(st[0] == t);
    assert(files_in(st) =~= files_in(st.subrange(0, 0)) + files_of(st[0]));
    assert(files_in(st) =~= files_of(t));
    assert(w.files + files_in(st) =~= files_of(t));
}

/// Handing the walk the listing of the directory it asks for, with the
/// entries in any order, keeps it consistent: the files of that directory
/// are found and its subdirectories take its place among the pending ones.
pub proof fn lemma_deep_walk_step(w: WalkModel, stack: Seq<Tree>, t: Tree, children: Seq<Tree>)
    requires
        walk_covers(w, stack, t),
        stack.len() > 0,
        children.to_multiset() == (stack.last()->Dir_1).to_multiset(),
    ensures
        w.next_dir() == Some(stack.last().path()),
        walk_covers(w.step(listing_of(children)), stack.drop_last() + subdirs(children), t),
{
    broadcast use vstd::seq_lib::lemma_multiset_commutative;
    broadcast use vstd::multiset::group_multiset_axioms;

    let top = stack.last();
    assert(stack[stack.len() - 1].is_dir());
    let cs = top->Dir_1;
    let rest = stack.drop_last();
    let ds = subdirs(children);
    let w2 = w.step(listing_of(children));
    let st2 = rest + ds;
    lemma_listing_split(children);
    lemma_children_reordered(cs, children);
    lemma_files_in_concat(rest, ds);
    assert(stack.subrange(0, stack.len() - 1) =~= rest);
    assert(files_of(top) == files_in(cs));
    assert(files_in(stack) == files_in(stack.subrange(0, stack.len() - 1)) + files_of(
        stack[stack.len() - 1],
    ));
    assert(files_in(stack) == files_in(rest) + files_in(cs));
    assert(w.pending.drop_last() =~= paths_of(rest));
    assert(paths_of(st2) =~= paths_of(rest) + paths_of(ds));
    assert forall|i: int| 0 <= i < st2.len() implies (#[trigger] st2[i]).is_dir() by {
        if i < rest.len() {
            assert(st2[i] == stack[i]);
        } else {
            assert(st2[i] == ds[i - rest.len()]);
        }
    }
    let fp = file_paths(listing_of(children));
    assert(w2.files + files_in(st2) == w.files + fp + (files_in(rest) + files_in(ds)));
    assert((w2.files + files_in(st2)).to_multiset() =~= (w.files + files_in(stack)).to_multiset());
}

/// `order` lists every directory's children, in some order of its own.
pub open spec fn lists_children(order: spec_fn(Tree) -> Seq<Tree>) -> bool {
    forall|d: Tree| d is Dir ==> (#[trigger] order(d)).to_multiset() == (d->Dir_1).to_multiset()
}

/// A whole recursive walk from the pending subtrees `stack`, where each
/// directory is listed with its children in the order `order` gives.
pub open spec fn deep_walk(w: WalkModel, stack: Seq<Tree>, order: spec_fn(Tree) -> Seq<Tree>) -> WalkModel
    decreases trees_size(stack),
    via deep_walk_decreases
{
    if stack.len() == 0 {
        w
    } else {
        let top = stack.last();
        if top is Dir && order(top).to_multiset() == (top->Dir_1).to_multiset() {
            deep_walk(
                w.step(listing_of(order(top))),
                stack.drop_last() + subdirs(order(top)),
                order,
            )
        } else {
            w
        }
    }
}

proof fn lemma_walk_step_shrinks(stack: Seq<Tree>, children: Seq<Tree>)
    requires
        stack.len() > 0,
        stack.last() is Dir,
        children.to_multiset() == (stack.last()->Dir_1).to_multiset(),
    ensures
        trees_size(stack.drop_last() + subdirs(children)) < trees_size(stack),
{
    let top = stack.last();
    let cs = top->Dir_1;
    let rest = stack.drop_last();
    assert(stack.subrange(0, stack.len() - 1) =~= rest);
    assert(tree_size(top) == 1 + trees_size(cs));
    lemma_children_reordered(cs, children);
    lemma_subdirs_size(children);
    lemma_trees_size_concat(rest, subdirs(children));
}

#[via_fn]
proof fn deep_walk_decreases(w: WalkModel, stack: Seq<Tree>, order: spec_fn(Tree) -> Seq<Tree>) {
    if stack.len() > 0 {
        let top = stack.last();
        if top is Dir && order(top).to_multiset() == (top->Dir_1).to_multiset() {
            lemma_walk_step_shrinks(stack, order(top));
        }
    }
}

proof fn lemma_deep_walk_from(
    w: WalkModel,
    stack: Seq<Tree>,
    t: Tree,
    order: spec_fn(Tree) -> Seq<Tree>,
)
    requires
        walk_covers(w, stack, t),
        lists_children(order),
    ensures
        walk_covers(deep_walk(w, stack, order), Seq::empty(), t),
    decreases trees_size(stack),
{
    if stack.len() == 0 {
        assert(stack =~= Seq::<Tree>::empty());
    } else {
        let top = stack.last();
        assert(stack[stack.len() - 1].is_dir());
        assert(order(top).to_multiset() == (top->Dir_1).to_multiset());
        lemma_walk_step_shrinks(stack, order(top));
        lemma_deep_walk_step(w, stack, t, order(top));
        lemma_deep_walk_from(
            w.step(listing_of(order(top))),
            stack.drop_last() + subdirs(order(top)),
            t,
            order,
        );
    }
}

/// A whole recursive walk over the directory tree `t`, whose listings come
/// in any order, ends having found every non-directory path of the tree
/// exactly as often as it occurs there, and nothing else: no directory, and
/// no path twice when the tree's file paths are distinct.
pub proof fn lemma_deep_walk(t: Tree, order: spec_fn(Tree) -> Seq<Tree>)
    requires
        t.is_dir(),
        lists_children(order),
    ensures
        deep_walk(WalkModel::start(t.path(), true), seq![t], order).next_dir() is None,
        deep_walk(WalkModel::start(t.path(), true), seq![t], order).files.to_multiset()
            == files_of(t).to_multiset(),
        forall|p: Seq<char>| #[trigger]
            deep_walk(WalkModel::start(t.path(), true), seq![t], order).files.contains(p)
                <==> files_of(t).contains(p),
        files_of(t).no_duplicates() ==> deep_walk(
            WalkModel::start(t.path(), true),
            seq![t],
            order,
        ).files.no_duplicates(),
{
    broadcast use vstd::seq_lib::group_to_multiset_ensures;

    let w = deep_walk(WalkModel::start(t.path(), true), seq![t], order);
    lemma_deep_walk_start(t);
    lemma_deep_walk_from(WalkModel::start(t.path(), true), seq![t], t, order);
    lemma_deep_walk_done(w, t);
    assert forall|p: Seq<char>| #[trigger] w.files.contains(p) <==> files_of(t).contains(p) by {
        assert(w.files.to_multiset().count(p) == files_of(t).to_multiset().count(p));
    }
    if files_of(t).no_duplicates() {
        files_of(t).lemma_multiset_has_no_duplicates();
        w.files.lemma_multiset_has_no_duplicates_conv();
    }
}

/// The files a recursive walk finds do not depend on the order in which
/// directories list their entries: two runs over the same tree find the
/// same paths, each as often; only the order may differ.
pub proof fn lemma_deep_walk_order_irrelevant(
    t: Tree,
    o1: spec_fn(Tree) -> Seq<Tree>,
    o2: spec_fn(Tree) -> Seq<Tree>,
)
    requires
        t.is_dir(),
        lists_children(o1),
        lists_children(o2),
    ensures
        deep_walk(WalkModel::start(t.path(), true), seq![t], o1).files.to_multiset()
            == deep_walk(WalkModel::start(t.path(), true), seq![t], o2).files.to_multiset(),
{
    lemma_deep_walk(t, o1);
    lemma_deep_walk(t, o2);
}

/// When a recursive walk over `t` is complete it has found every
/// non-directory path of the tree exactly as often as it occurs there, in
/// whatever order the listings came.
pub proof fn lemma_deep_walk_done(w: WalkModel, t: Tree)
    requires
        walk_covers(w, Seq::empty(), t),
    ensures
        w.next_dir() is None,
        w.files.to_multiset() == files_of(t).to_multiset(),
{
    assert(w.pending =~= Seq::<Seq<char>>::empty());
    assert(w.files + files_in(Seq::<Tree>::empty()) =~= w.files);
}

} // verus!
