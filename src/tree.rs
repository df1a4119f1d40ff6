//! The whole walk over a file tree, as a model: the walker's steps, driven
//! to the end over a tree given as a map from each directory's path to its
//! listing, hand out exactly what a recursive depth-first walk hands out,
//! though the walker itself never recurses.
use vstd::prelude::*;
use crate::traverse::{lemma_listing_walk, path_of, pending_after, queued_after, yielded, yields, Entry, EntryKind};

verus! {

/// A walk's state: the directories still to visit, and the entries of the
/// open listing not yet seen.
pub type WalkState = (Seq<Seq<char>>, Seq<Entry>);

/// The subdirectories of a listing, in listing order.
pub open spec fn subdirs(listing: Seq<Entry>) -> Seq<Seq<char>> {
    listing.filter(|e: Entry| e.kind == EntryKind::Dir).map_values(|e: Entry| path_of(e))
}

/// One step of the walk over `tree`: see the next entry of the open listing;
/// or, with the listing exhausted, open the directory on top of the stack;
/// or, with nothing left, stay put. Second, the paths handed out.
pub open spec fn walk_step(
    tree: Map<Seq<char>, Seq<Entry>>,
    filter: Option<Seq<Seq<char>>>,
    st: WalkState,
) -> (WalkState, Seq<Seq<char>>) {
    if st.1.len() > 0 {
        let e = st.1[0];
        (
            (queued_after(st.0, e), st.1.drop_first()),
            if yields(filter, e) { seq![e.path@] } else { Seq::empty() },
        )
    } else if st.0.len() > 0 {
        ((st.0.drop_last(), tree[st.0.last()]), Seq::empty())
    } else {
        (st, Seq::empty())
    }
}

/// `n` steps of the walk, and all that they hand out.
pub open spec fn walk_steps(
    tree: Map<Seq<char>, Seq<Entry>>,
    filter: Option<Seq<Seq<char>>>,
    st: WalkState,
    n: nat,
) -> (WalkState, Seq<Seq<char>>)
    decreases n,
{
    if n == 0 {
        (st, Seq::empty())
    } else {
        let first = walk_step(tree, filter, st);
        let rest = walk_steps(tree, filter, first.0, (n - 1) as nat);
        (rest.0, first.1 + rest.1)
    }
}

/// `dir` is a directory of `tree`, and so is every directory below it, at
/// most `h` levels deep.
pub open spec fn finite_below(tree: Map<Seq<char>, Seq<Entry>>, dir: Seq<char>, h: nat) -> bool
    decreases h,
{
    if h == 0 {
        false
    } else {
        &&& tree.contains_key(dir)
        &&& forall|i: int|
            0 <= i < subdirs(tree[dir]).len() ==> finite_below(
                tree,
                #[trigger] subdirs(tree[dir])[i],
                (h - 1) as nat,
            )
    }
}

/// What a recursive depth-first walk of `dir` hands out: the admitted files
/// of its listing, then the walks of its subdirectories, last one first.
pub open spec fn dfs(
    tree: Map<Seq<char>, Seq<Entry>>,
    filter: Option<Seq<Seq<char>>>,
    dir: Seq<char>,
    h: nat,
) -> Seq<Seq<char>>
    decreases h, 0nat,
{
    if h == 0 {
        Seq::empty()
    } else {
        yielded(filter, tree[dir]) + dfs_all(tree, filter, subdirs(tree[dir]), (h - 1) as nat)
    }
}

/// The recursive walks of `dirs`, last one first.
pub open spec fn dfs_all(
    tree: Map<Seq<char>, Seq<Entry>>,
    filter: Option<Seq<Seq<char>>>,
    dirs: Seq<Seq<char>>,
    h: nat,
) -> Seq<Seq<char>>
    decreases h, dirs.len(),
{
    if dirs.len() == 0 {
        Seq::empty()
    } else {
        dfs(tree, filter, dirs.last(), h) + dfs_all(tree, filter, dirs.drop_last(), h)
    }
}

/// The number of steps the walker takes over `dir` once its listing is open.
pub open spec fn dfs_steps(tree: Map<Seq<char>, Seq<Entry>>, dir: Seq<char>, h: nat) -> nat
    decreases h, 0nat,
{
    if h == 0 {
        0
    } else {
        tree[dir].len() + dfs_all_steps(tree, subdirs(tree[dir]), (h - 1) as nat)
    }
}

/// The number of steps the walker takes over `dirs` waiting on its stack.
pub open spec fn dfs_all_steps(tree: Map<Seq<char>, Seq<Entry>>, dirs: Seq<Seq<char>>, h: nat) -> nat
    decreases h, dirs.len(),
{
    if dirs.len() == 0 {
        0
    } else {
        1 + dfs_steps(tree, dirs.last(), h) + dfs_all_steps(tree, dirs.drop_last(), h)
    }
}

proof fn lemma_steps_compose(
    tree: Map<Seq<char>, Seq<Entry>>,
    filter: Option<Seq<Seq<char>>>,
    st: WalkState,
    a: nat,
    b: nat,
)
    ensures
        walk_steps(tree, filter, st, a + b) == (
            walk_steps(tree, filter, walk_steps(tree, filter, st, a).0, b).0,
            walk_steps(tree, filter, st, a).1 + walk_steps(
                tree,
                filter,
                walk_steps(tree, filter, st, a).0,
                b,
            ).1,
        ),
    decreases a,
{
    if a == 0 {
        assert(Seq::<Seq<char>>::empty() + walk_steps(tree, filter, st, b).1 =~= walk_steps(
            tree,
            filter,
            st,
            b,
        ).1);
    } else {
        let s1 = walk_step(tree, filter, st);
        lemma_steps_compose(tree, filter, s1.0, (a - 1) as nat, b);
        assert((a + b - 1) as nat == ((a - 1) as nat + b) as nat);
        let x = walk_steps(tree, filter, s1.0, (a - 1) as nat);
        let y = walk_steps(tree, filter, x.0, b);
        assert(s1.1 + (x.1 + y.1) =~= (s1.1 + x.1) + y.1);
    }
}

proof fn lemma_listing_steps(
    tree: Map<Seq<char>, Seq<Entry>>,
    filter: Option<Seq<Seq<char>>>,
    pending: Seq<Seq<char>>,
    listing: Seq<Entry>,
    k: nat,
)
    requires
        k <= listing.len(),
    ensures
        walk_steps(tree, filter, (pending, listing), k) == (
            (pending_after(pending, listing.take(k as int)), listing.skip(k as int)),
            yielded(filter, listing.take(k as int)),
        ),
    decreases k,
{
    if k == 0 {
        assert(listing.skip(0) =~= listing);
        assert(listing.take(0) =~= Seq::<Entry>::empty());
    } else {
        let j = (k - 1) as nat;
        lemma_listing_steps(tree, filter, pending, listing, j);
        lemma_steps_compose(tree, filter, (pending, listing), j, 1);
        let mid = walk_steps(tree, filter, (pending, listing), j).0;
        assert(listing.take(k as int).drop_last() =~= listing.take(j as int));
        assert(listing.take(k as int).last() == listing[j as int]);
        assert(mid.1[0] == listing[j as int]);
        assert(mid.1.drop_first() =~= listing.skip(k as int));
        let one = walk_steps(tree, filter, mid, 1);
        assert(walk_steps(tree, filter, walk_step(tree, filter, mid).0, 0).1 =~= Seq::<
            Seq<char>,
        >::empty());
        assert(one.1 =~= walk_step(tree, filter, mid).1);
        let prev = yielded(filter, listing.take(j as int));
        if yields(filter, listing[j as int]) {
            assert(prev + seq![listing[j as int].path@] =~= prev.push(listing[j as int].path@));
        } else {
            assert(prev + Seq::<Seq<char>>::empty() =~= prev);
        }
    }
}

proof fn lemma_dfs(
    tree: Map<Seq<char>, Seq<Entry>>,
    filter: Option<Seq<Seq<char>>>,
    dir: Seq<char>,
    h: nat,
    pending: Seq<Seq<char>>,
)
    requires
        finite_below(tree, dir, h),
    ensures
        walk_steps(tree, filter, (pending, tree[dir]), dfs_steps(tree, dir, h)) == (
            (pending, Seq::<Entry>::empty()),
            dfs(tree, filter, dir, h),
        ),
    decreases h, 0nat,
{
    let listing = tree[dir];
    let n = listing.len();
    lemma_listing_steps(tree, filter, pending, listing, n);
    assert(listing.take(n as int) =~= listing);
    assert(listing.skip(n as int) =~= Seq::<Entry>::empty());
    lemma_listing_walk(pending, filter, listing);
    let subs = subdirs(listing);
    let hs = (h - 1) as nat;
    assert forall|i: int| 0 <= i < subs.len() implies finite_below(tree, #[trigger] subs[i], hs) by {
    }
    lemma_dfs_all(tree, filter, subs, hs, pending);
    lemma_steps_compose(tree, filter, (pending, listing), n, dfs_all_steps(tree, subs, hs));
}

proof fn lemma_dfs_all(
    tree: Map<Seq<char>, Seq<Entry>>,
    filter: Option<Seq<Seq<char>>>,
    dirs: Seq<Seq<char>>,
    h: nat,
    pending: Seq<Seq<char>>,
)
    requires
        forall|i: int| 0 <= i < dirs.len() ==> finite_below(tree, #[trigger] dirs[i], h),
    ensures
        walk_steps(tree, filter, (pending + dirs, Seq::<Entry>::empty()), dfs_all_steps(tree, dirs, h))
            == ((pending, Seq::<Entry>::empty()), dfs_all(tree, filter, dirs, h)),
    decreases h, dirs.len(),
{
    if dirs.len() == 0 {
        assert(pending + dirs =~= pending);
    } else {
        let last = dirs.last();
        let rest = dirs.drop_last();
        assert(finite_below(tree, dirs[dirs.len() - 1], h));
        assert forall|i: int| 0 <= i < rest.len() implies finite_below(tree, #[trigger] rest[i], h) by {
            assert(rest[i] == dirs[i]);
        }
        let st0 = (pending + dirs, Seq::<Entry>::empty());
        assert((pending + dirs).drop_last() =~= pending + rest);
        let st1 = (pending + rest, tree[last]);
        assert(walk_step(tree, filter, st0) == (st1, Seq::<Seq<char>>::empty()));
        assert(walk_steps(tree, filter, st0, 1) == (st1, Seq::<Seq<char>>::empty())) by {
            assert(walk_steps(tree, filter, st1, 0) == (st1, Seq::<Seq<char>>::empty()));
            assert(Seq::<Seq<char>>::empty() + Seq::<Seq<char>>::empty() =~= Seq::<
                Seq<char>,
            >::empty());
        }
        lemma_dfs(tree, filter, last, h, pending + rest);
        lemma_dfs_all(tree, filter, rest, h, pending);
        let a = dfs_steps(tree, last, h);
        let b = dfs_all_steps(tree, rest, h);
        lemma_steps_compose(tree, filter, st1, a, b);
        lemma_steps_compose(tree, filter, st0, 1, a + b);
        assert(1 + a + b == dfs_all_steps(tree, dirs, h));
        assert(Seq::<Seq<char>>::empty() + (dfs(tree, filter, last, h) + dfs_all(
            tree,
            filter,
            rest,
            h,
        )) =~= dfs_all(tree, filter, dirs, h));
    }
}

/// A walk of `roots` over a finite tree, started as the walker starts it
/// (the first root's listing open, the other roots waiting), ends with
/// nothing pending after handing out exactly what recursive depth-first walks
/// of the roots hand out: the admitted regular files of each directory below
/// them, one directory after another, and nothing else. From there it takes
/// no more steps.
pub proof fn lemma_walk_matches_recursive(
    tree: Map<Seq<char>, Seq<Entry>>,
    filter: Option<Seq<Seq<char>>>,
    roots: Seq<Seq<char>>,
    h: nat,
)
    requires
        roots.len() > 0,
        forall|i: int| 0 <= i < roots.len() ==> finite_below(tree, #[trigger] roots[i], h),
    ensures
        walk_steps(
            tree,
            filter,
            (roots.drop_first(), tree[roots[0]]),
            dfs_steps(tree, roots[0], h) + dfs_all_steps(tree, roots.drop_first(), h),
        ) == (
            (Seq::<Seq<char>>::empty(), Seq::<Entry>::empty()),
            dfs(tree, filter, roots[0], h) + dfs_all(tree, filter, roots.drop_first(), h),
        ),
        walk_step(tree, filter, (Seq::<Seq<char>>::empty(), Seq::<Entry>::empty())) == (
            (Seq::<Seq<char>>::empty(), Seq::<Entry>::empty()),
            Seq::<Seq<char>>::empty(),
        ),
{
    let rest = roots.drop_first();
    assert(finite_below(tree, roots[0], h));
    assert forall|i: int| 0 <= i < rest.len() implies finite_below(tree, #[trigger] rest[i], h) by {
        assert(rest[i] == roots[i + 1]);
    }
    let empty = Seq::<Seq<char>>::empty();
    assert(empty + rest =~= rest);
    lemma_dfs(tree, filter, roots[0], h, empty + rest);
    lemma_dfs_all(tree, filter, rest, h, empty);
    lemma_steps_compose(
        tree,
        filter,
        (rest, tree[roots[0]]),
        dfs_steps(tree, roots[0], h),
        dfs_all_steps(tree, rest, h),
    );
}

} // verus!
