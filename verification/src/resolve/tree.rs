//! Crate-style module paths: a breadth-first walk of the `mod` declarations
//! from the entry file.

use vstd::prelude::*;
use crate::resolve::db::Module;
use crate::resolve::parse::{children_linked, find_file, ids_unique, links_of, ParsedFile};

verus! {

/// The path of a child module `name` of the module at `parent`: the name
/// alone under the crate root (whose path is empty), else `parent::name`.
pub open spec fn join_path(parent: Seq<char>, name: Seq<char>) -> Seq<char> {
    if parent.len() == 0 {
        name
    } else {
        parent + seq![':', ':'] + name
    }
}

/// The path of a child is the parent's whole path, `::` and the child's
/// name, or the name alone under the crate root; so the parent's path is a
/// prefix of it, and the name ends it.
pub proof fn lemma_join_path_extends(parent: Seq<char>, name: Seq<char>)
    ensures
        parent.len() == 0 ==> join_path(parent, name) == name,
        parent.len() > 0 ==> join_path(parent, name) == parent + seq![':', ':'] + name,
        parent.len() > 0 ==> join_path(parent, name).subrange(0, parent.len() as int) == parent,
        join_path(parent, name).len() >= name.len(),
        join_path(parent, name).subrange(join_path(parent, name).len() - name.len(), join_path(parent, name).len() as int) == name,
{
    let j = join_path(parent, name);
    if parent.len() > 0 {
        assert(j.subrange(0, parent.len() as int) =~= parent);
        assert(j.subrange(j.len() - name.len(), j.len() as int) =~= name);
    } else {
        assert(j.subrange(0, j.len() as int) =~= name);
    }
}

/// Number of `true` entries.
pub open spec fn count_true(s: Seq<bool>) -> nat
    decreases s.len(),
{
    if s.len() == 0 {
        0
    } else {
        count_true(s.drop_last()) + if s.last() { 1nat } else { 0nat }
    }
}

proof fn lemma_count_true_bounded(s: Seq<bool>)
    ensures
        count_true(s) <= s.len(),
    decreases s.len(),
{
    if s.len() > 0 {
        lemma_count_true_bounded(s.drop_last());
    }
}

proof fn lemma_count_true_none(s: Seq<bool>)
    requires
        forall|j: int| 0 <= j < s.len() ==> !s[j],
    ensures
        count_true(s) == 0,
    decreases s.len(),
{
    if s.len() > 0 {
        lemma_count_true_none(s.drop_last());
    }
}

proof fn lemma_count_true_set(s: Seq<bool>, j: int)
    requires
        0 <= j < s.len(),
        !s[j],
    ensures
        count_true(s.update(j, true)) == count_true(s) + 1,
    decreases s.len(),
{
    let t = s.update(j, true);
    if j == s.len() - 1 {
        assert(t.drop_last() =~= s.drop_last());
    } else {
        assert(t.drop_last() =~= s.drop_last().update(j, true));
        lemma_count_true_set(s.drop_last(), j);
    }
}

/// Module `j` hangs below its recorded parent `par[j]` through the
/// declaration `via[j]` of that parent, its path extends the parent's path by
/// the declared name, and the parent is strictly closer to the entry.
pub(crate) open spec fn parent_ok(
    parsed: Seq<ParsedFile>,
    reached: Seq<bool>,
    paths: Seq<String>,
    par: Seq<int>,
    via: Seq<int>,
    depth: Seq<nat>,
    j: int,
) -> bool {
    let p = par[j];
    let k = via[j];
    &&& 0 <= p < parsed.len()
    &&& reached[p]
    &&& 0 <= k < links_of(parsed, p).len()
    &&& links_of(parsed, p)[k].1 == j
    &&& paths[j]@ == join_path(paths[p]@, links_of(parsed, p)[k].0)
    &&& depth[p] < depth[j]
}

/// Every reached module but the entry has a parent as `parent_ok` says.
pub(crate) open spec fn tree_ok(
    parsed: Seq<ParsedFile>,
    reached: Seq<bool>,
    paths: Seq<String>,
    entry: int,
    par: Seq<int>,
    via: Seq<int>,
    depth: Seq<nat>,
) -> bool {
    &&& par.len() == parsed.len()
    &&& via.len() == parsed.len()
    &&& depth.len() == parsed.len()
    &&& forall|j: int| 0 <= j < parsed.len() && #[trigger] reached[j] && j != entry
        ==> parent_ok(parsed, reached, paths, par, via, depth, j)
}

/// Every file that module `i` links to is reached.
pub(crate) open spec fn closed_at(parsed: Seq<ParsedFile>, reached: Seq<bool>, i: int) -> bool {
    forall|k: int| 0 <= k < links_of(parsed, i).len() ==> reached[(#[trigger] links_of(parsed, i)[k]).1]
}

/// The parents are the ones a breadth-first walk gives: the entry is at
/// depth 0, every other reached module is one deeper than its parent, and no
/// reached module that links to it is shallower than its parent.
pub(crate) open spec fn bfs_ok(parsed: Seq<ParsedFile>, reached: Seq<bool>, entry: int, par: Seq<int>, depth: Seq<nat>) -> bool {
    &&& depth[entry] == 0
    &&& forall|j: int| 0 <= j < parsed.len() && #[trigger] reached[j] && j != entry ==> depth[j] == depth[par[j]] + 1
    &&& forall|q: int, k: int| 0 <= q < parsed.len() && reached[q] && 0 <= k < links_of(parsed, q).len()
        && (#[trigger] links_of(parsed, q)[k]).1 != entry
        ==> depth[par[links_of(parsed, q)[k].1]] <= depth[q]
}

/// What the walk from the entry establishes.
pub(crate) open spec fn walk_done(parsed: Seq<ParsedFile>, reached: Seq<bool>, paths: Seq<String>, entry: int) -> bool {
    &&& reached.len() == parsed.len()
    &&& paths.len() == parsed.len()
    &&& reached[entry]
    &&& paths[entry]@.len() == 0
    &&& forall|i: int| 0 <= i < parsed.len() && #[trigger] reached[i] ==> closed_at(parsed, reached, i)
    &&& exists|par: Seq<int>, via: Seq<int>, depth: Seq<nat>| tree_ok(parsed, reached, paths, entry, par, via, depth)
        && bfs_ok(parsed, reached, entry, par, depth)
}

/// The breadth-first facts of the walk between steps: depths along the
/// queue never decrease and grow by at most one from the head on, every
/// reached module but the entry is one deeper than its parent, which is
/// queued at or before the head, and no dequeued module links to a module
/// whose parent is deeper than itself.
#[verifier::opaque]
pub(crate) open spec fn bfs_state(
    parsed: Seq<ParsedFile>,
    reached: Seq<bool>,
    queue: Seq<usize>,
    head: int,
    entry: int,
    par: Seq<int>,
    depth: Seq<nat>,
) -> bool {
    &&& depth.len() == parsed.len()
    &&& par.len() == parsed.len()
    &&& depth[entry] == 0
    &&& forall|a: int, b: int| 0 <= a <= b < queue.len() ==> depth[#[trigger] queue[a] as int] <= depth[#[trigger] queue[b] as int]
    &&& forall|a: int, b: int| head <= a <= b < queue.len() ==> depth[#[trigger] queue[b] as int] <= depth[#[trigger] queue[a] as int] + 1
    &&& forall|j: int| 0 <= j < parsed.len() && #[trigger] reached[j] && j != entry ==> {
        &&& depth[j] == depth[par[j]] + 1
        &&& exists|a: int| 0 <= a <= head && a < queue.len() && #[trigger] queue[a] as int == par[j]
    }
    &&& forall|a: int, k: int| 0 <= a < head && a < queue.len() && 0 <= k < links_of(parsed, queue[a] as int).len()
        && (#[trigger] links_of(parsed, queue[a] as int)[k]).1 != entry
        ==> depth[par[links_of(parsed, queue[a] as int)[k].1]] <= depth[queue[a] as int]
}

/// No link among the first `k` of module `cur` goes to a module whose
/// parent is deeper than `cur`.
#[verifier::opaque]
pub(crate) open spec fn cur_links_ok(parsed: Seq<ParsedFile>, cur: int, k: int, entry: int, par: Seq<int>, depth: Seq<nat>) -> bool {
    forall|k2: int| 0 <= k2 < k && (#[trigger] links_of(parsed, cur)[k2]).1 != entry
        ==> depth[par[links_of(parsed, cur)[k2].1]] <= depth[cur]
}

/// Reaching an unreached module `j` through link `k` of the module `cur` at
/// the head keeps the breadth-first facts.
#[verifier::rlimit(60)]
proof fn lemma_bfs_discover(
    parsed: Seq<ParsedFile>,
    reached: Seq<bool>,
    queue: Seq<usize>,
    head: int,
    entry: int,
    par: Seq<int>,
    depth: Seq<nat>,
    cur: int,
    k: int,
)
    requires
        links_in_range(parsed),
        parsed.len() <= usize::MAX,
        reached.len() == parsed.len(),
        forall|q: int| 0 <= q < queue.len() ==> (#[trigger] queue[q]) < parsed.len() && reached[queue[q] as int],
        forall|j: int| 0 <= j < parsed.len() && #[trigger] reached[j] && j != entry ==> 0 <= par[j] < parsed.len() && reached[par[j]],
        bfs_state(parsed, reached, queue, head, entry, par, depth),
        dequeued_closed(parsed, reached, queue, head),
        0 <= head < queue.len(),
        cur == queue[head] as int,
        0 <= k < links_of(parsed, cur).len(),
        !reached[links_of(parsed, cur)[k].1],
        0 <= entry < parsed.len(),
        reached[entry],
        cur_links_ok(parsed, cur, k, entry, par, depth),
        forall|k2: int| 0 <= k2 < k ==> reached[(#[trigger] links_of(parsed, cur)[k2]).1],
    ensures
        ({
            let j = links_of(parsed, cur)[k].1;
            let r2 = reached.update(j, true);
            let q2 = queue.push(j as usize);
            let par2 = par.update(j, cur);
            let d2 = depth.update(j, depth[cur] + 1);
            &&& bfs_state(parsed, r2, q2, head, entry, par2, d2)
            &&& cur_links_ok(parsed, cur, k + 1, entry, par2, d2)
        }),
{
    reveal(bfs_state);
    reveal(cur_links_ok);
    let n = parsed.len();
    let j = links_of(parsed, cur)[k].1;
    assert(0 <= links_of(parsed, cur)[k].1 < n);
    assert((j as usize) as int == j);
    let r2 = reached.update(j, true);
    let q2 = queue.push(j as usize);
    let par2 = par.update(j, cur);
    let d2 = depth.update(j, depth[cur] + 1);
    assert(j != entry);
    // j is not queued, so the depths of queued modules stay
    assert forall|a: int| 0 <= a < queue.len() implies queue[a] as int != j by {
        assert(reached[queue[a] as int]);
    }
    assert forall|a: int| 0 <= a < queue.len() implies #[trigger] d2[queue[a] as int] == depth[queue[a] as int] by {
        assert(queue[a] as int != j);
    }
    assert(q2[queue.len() as int] as int == j);
    assert forall|a: int, b: int| 0 <= a <= b < q2.len() implies d2[#[trigger] q2[a] as int] <= d2[#[trigger] q2[b] as int] by {
        if b < queue.len() {
            assert(q2[a] == queue[a] && q2[b] == queue[b]);
            assert(depth[queue[a] as int] <= depth[queue[b] as int]);
        } else {
            assert(q2[a] == queue[a] || a == queue.len());
            if a < queue.len() {
                assert(q2[a] == queue[a]);
                if a >= head {
                    assert(depth[queue[a] as int] <= depth[queue[head] as int] + 1);
                } else {
                    assert(depth[queue[a] as int] <= depth[queue[head] as int]);
                }
            }
        }
    }
    assert forall|a: int, b: int| head <= a <= b < q2.len() implies d2[#[trigger] q2[b] as int] <= d2[#[trigger] q2[a] as int] + 1 by {
        if b < queue.len() {
            assert(q2[a] == queue[a] && q2[b] == queue[b]);
            assert(depth[queue[b] as int] <= depth[queue[a] as int] + 1);
        } else if a < queue.len() {
            assert(q2[a] == queue[a]);
            assert(depth[queue[head] as int] <= depth[queue[a] as int]);
        }
    }
    assert forall|x: int| 0 <= x < n && #[trigger] r2[x] && x != entry implies {
        &&& d2[x] == d2[par2[x]] + 1
        &&& exists|a: int| 0 <= a <= head && a < q2.len() && #[trigger] q2[a] as int == par2[x]
    } by {
        if x == j {
            assert(q2[head] as int == cur);
            assert(cur != j);
        } else {
            assert(reached[x]);
            assert(reached[par[x]]);
            assert(par[x] != j);
            let a = choose|a: int| 0 <= a <= head && a < queue.len() && #[trigger] queue[a] as int == par[x];
            assert(q2[a] == queue[a]);
        }
    }
    assert forall|a: int, kk: int| 0 <= a < head && a < q2.len() && 0 <= kk < links_of(parsed, q2[a] as int).len()
        && (#[trigger] links_of(parsed, q2[a] as int)[kk]).1 != entry
        implies d2[par2[links_of(parsed, q2[a] as int)[kk].1]] <= d2[q2[a] as int] by {
        assert(q2[a] == queue[a]);
        let qa = queue[a] as int;
        let t = links_of(parsed, qa)[kk].1;
        assert(closed_at(parsed, reached, qa));
        assert(reached[t]);
        assert(t != j);
        assert(reached[par[t]]);
        assert(par[t] != j);
        assert(depth[par[t]] <= depth[qa]);
    }
    assert forall|k2: int| 0 <= k2 < k + 1 && (#[trigger] links_of(parsed, cur)[k2]).1 != entry
        implies d2[par2[links_of(parsed, cur)[k2].1]] <= d2[cur] by {
        let t = links_of(parsed, cur)[k2].1;
        assert(cur != j);
        if k2 < k {
            assert(reached[t]);
            assert(t != j);
            assert(reached[par[t]]);
            assert(par[t] != j);
        }
    }
    assert(d2[entry] == 0);
    assert(d2.len() == n && par2.len() == n);
    assert(bfs_state(parsed, r2, q2, head, entry, par2, d2));
    assert(cur_links_ok(parsed, cur, k + 1, entry, par2, d2));
}

/// The breadth-first facts hold when only the entry is reached and queued.
proof fn lemma_bfs_init(parsed: Seq<ParsedFile>, reached: Seq<bool>, queue: Seq<usize>, entry: int, par: Seq<int>, depth: Seq<nat>)
    requires
        0 <= entry < parsed.len(),
        queue == seq![entry as usize],
        (entry as usize) as int == entry,
        reached.len() == parsed.len(),
        forall|j: int| 0 <= j < parsed.len() && j != entry ==> !reached[j],
        depth == Seq::new(parsed.len(), |j: int| 0nat),
        par.len() == parsed.len(),
    ensures
        bfs_state(parsed, reached, queue, 0, entry, par, depth),
        cur_links_ok(parsed, entry, 0, entry, par, depth),
{
    reveal(bfs_state);
    reveal(cur_links_ok);
    assert forall|j: int| 0 <= j < parsed.len() && #[trigger] reached[j] && j != entry implies {
        &&& depth[j] == depth[par[j]] + 1
        &&& exists|a: int| 0 <= a <= 0 && a < queue.len() && #[trigger] queue[a] as int == par[j]
    } by {
        assert(!reached[j]);
    }
}

/// When every queued module is dequeued, the parents are the ones a
/// breadth-first walk gives.
proof fn lemma_bfs_done(parsed: Seq<ParsedFile>, reached: Seq<bool>, queue: Seq<usize>, entry: int, par: Seq<int>, depth: Seq<nat>)
    requires
        parsed.len() <= usize::MAX,
        bfs_state(parsed, reached, queue, queue.len() as int, entry, par, depth),
        forall|j: int| 0 <= j < parsed.len() && #[trigger] reached[j] ==> queue.contains(j as usize),
        forall|q: int| 0 <= q < queue.len() ==> (#[trigger] queue[q]) < parsed.len(),
    ensures
        bfs_ok(parsed, reached, entry, par, depth),
{
    reveal(bfs_state);
    assert forall|q: int, k: int| 0 <= q < parsed.len() && reached[q] && 0 <= k < links_of(parsed, q).len()
        && (#[trigger] links_of(parsed, q)[k]).1 != entry
        implies depth[par[links_of(parsed, q)[k].1]] <= depth[q] by {
        let w = choose|w: int| 0 <= w < queue.len() && queue[w] == q as usize;
        assert(queue[w] as int == q);
        assert(links_of(parsed, queue[w] as int)[k] == links_of(parsed, q)[k]);
    }
}

/// No link is done yet.
proof fn lemma_cur_links_none(parsed: Seq<ParsedFile>, cur: int, entry: int, par: Seq<int>, depth: Seq<nat>)
    ensures
        cur_links_ok(parsed, cur, 0, entry, par, depth),
{
    reveal(cur_links_ok);
}

/// Once every link of the module at the head is done, the head moves on.
proof fn lemma_bfs_advance(
    parsed: Seq<ParsedFile>,
    reached: Seq<bool>,
    queue: Seq<usize>,
    head: int,
    entry: int,
    par: Seq<int>,
    depth: Seq<nat>,
)
    requires
        bfs_state(parsed, reached, queue, head, entry, par, depth),
        0 <= head < queue.len(),
        cur_links_ok(parsed, queue[head] as int, links_of(parsed, queue[head] as int).len() as int, entry, par, depth),
    ensures
        bfs_state(parsed, reached, queue, head + 1, entry, par, depth),
{
    reveal(bfs_state);
    reveal(cur_links_ok);
    assert forall|a: int, b: int| head + 1 <= a <= b < queue.len() implies depth[#[trigger] queue[b] as int] <= depth[#[trigger] queue[a] as int] + 1 by {
        assert(depth[queue[b] as int] <= depth[queue[head] as int] + 1);
        assert(depth[queue[head] as int] <= depth[queue[a] as int]);
    }
    assert forall|a: int, k: int| 0 <= a < head + 1 && a < queue.len() && 0 <= k < links_of(parsed, queue[a] as int).len()
        && (#[trigger] links_of(parsed, queue[a] as int)[k]).1 != entry
        implies depth[par[links_of(parsed, queue[a] as int)[k].1]] <= depth[queue[a] as int] by {
        if a == head {
            assert(links_of(parsed, queue[head] as int)[k] == links_of(parsed, queue[a] as int)[k]);
        }
    }
    assert forall|j: int| 0 <= j < parsed.len() && #[trigger] reached[j] && j != entry implies {
        &&& depth[j] == depth[par[j]] + 1
        &&& exists|a: int| 0 <= a <= head + 1 && a < queue.len() && #[trigger] queue[a] as int == par[j]
    } by {
        let a = choose|a: int| 0 <= a <= head && a < queue.len() && #[trigger] queue[a] as int == par[j];
    }
}

/// A link of the module at the head to a module already reached keeps the
/// breadth-first facts of the head's links.
proof fn lemma_bfs_seen(
    parsed: Seq<ParsedFile>,
    reached: Seq<bool>,
    queue: Seq<usize>,
    head: int,
    entry: int,
    par: Seq<int>,
    depth: Seq<nat>,
    cur: int,
    k: int,
)
    requires
        links_in_range(parsed),
        reached.len() == parsed.len(),
        bfs_state(parsed, reached, queue, head, entry, par, depth),
        0 <= head < queue.len(),
        0 <= cur < parsed.len(),
        cur == queue[head] as int,
        0 <= k < links_of(parsed, cur).len(),
        reached[links_of(parsed, cur)[k].1],
        cur_links_ok(parsed, cur, k, entry, par, depth),
    ensures
        cur_links_ok(parsed, cur, k + 1, entry, par, depth),
{
    reveal(bfs_state);
    reveal(cur_links_ok);
    let t = links_of(parsed, cur)[k].1;
    assert(0 <= links_of(parsed, cur)[k].1 < parsed.len());
    if t != entry {
        let a = choose|a: int| 0 <= a <= head && a < queue.len() && #[trigger] queue[a] as int == par[t];
        assert(depth[queue[a] as int] <= depth[queue[head] as int]);
    }
}

/// Every declaration link points at a parsed file.
pub(crate) open spec fn links_in_range(parsed: Seq<ParsedFile>) -> bool {
    forall|i: int, k: int| 0 <= i < parsed.len() && 0 <= k < links_of(parsed, i).len()
        ==> 0 <= (#[trigger] links_of(parsed, i)[k]).1 < parsed.len()
}

/// The state of the breadth-first walk between steps.
pub(crate) open spec fn walk_state(
    parsed: Seq<ParsedFile>,
    reached: Seq<bool>,
    paths: Seq<String>,
    queue: Seq<usize>,
    entry: int,
    par: Seq<int>,
    via: Seq<int>,
    depth: Seq<nat>,
) -> bool {
    let n = parsed.len();
    &&& reached.len() == n
    &&& paths.len() == n
    &&& 0 <= entry < n
    &&& reached[entry]
    &&& paths[entry]@.len() == 0
    &&& tree_ok(parsed, reached, paths, entry, par, via, depth)
    &&& forall|q: int| 0 <= q < queue.len() ==> (#[trigger] queue[q]) < n && reached[queue[q] as int]
    &&& queue.no_duplicates()
    &&& forall|j: int| 0 <= j < n && #[trigger] reached[j] ==> queue.contains(j as usize)
    &&& queue.len() == count_true(reached)
}

/// The modules dequeued so far have all their links reached.
pub(crate) open spec fn dequeued_closed(parsed: Seq<ParsedFile>, reached: Seq<bool>, queue: Seq<usize>, head: int) -> bool {
    forall|q: int| 0 <= q < head ==> closed_at(parsed, reached, #[trigger] queue[q] as int)
}

proof fn lemma_links_in_range(parsed: Seq<ParsedFile>, modules: Seq<Module>)
    requires
        modules.len() == parsed.len(),
        forall|i: int| 0 <= i < modules.len() ==> children_linked((#[trigger] modules[i]).children@, parsed, i),
    ensures
        links_in_range(parsed),
{
    assert forall|i: int, k: int| 0 <= i < parsed.len() && 0 <= k < links_of(parsed, i).len()
        implies 0 <= (#[trigger] links_of(parsed, i)[k]).1 < parsed.len() by {
        assert(children_linked(modules[i].children@, parsed, i));
        assert(modules[i].children@[k] == modules[i].children@[k]);
    }
}

proof fn lemma_reach_tree(
    parsed: Seq<ParsedFile>,
    reached: Seq<bool>,
    paths: Seq<String>,
    entry: int,
    par: Seq<int>,
    via: Seq<int>,
    depth: Seq<nat>,
    cur: int,
    k: int,
    p: String,
)
    requires
        reached.len() == parsed.len(),
        paths.len() == parsed.len(),
        0 <= entry < parsed.len(),
        reached[entry],
        tree_ok(parsed, reached, paths, entry, par, via, depth),
        links_in_range(parsed),
        0 <= cur < parsed.len(),
        reached[cur],
        0 <= k < links_of(parsed, cur).len(),
        !reached[links_of(parsed, cur)[k].1],
        p@ == join_path(paths[cur]@, links_of(parsed, cur)[k].0),
    ensures
        ({
            let j = links_of(parsed, cur)[k].1;
            tree_ok(parsed, reached.update(j, true), paths.update(j, p), entry,
                par.update(j, cur), via.update(j, k), depth.update(j, depth[cur] + 1))
        }),
{
    let n = parsed.len();
    let j = links_of(parsed, cur)[k].1;
    let r2 = reached.update(j, true);
    let p2 = paths.update(j, p);
    let par2 = par.update(j, cur);
    let via2 = via.update(j, k);
    let d2 = depth.update(j, depth[cur] + 1);
    assert(parent_ok(parsed, r2, p2, par2, via2, d2, j));
    assert forall|x: int| 0 <= x < n && #[trigger] r2[x] && x != entry implies parent_ok(parsed, r2, p2, par2, via2, d2, x) by {
        if x != j {
            assert(reached[x]);
            assert(parent_ok(parsed, reached, paths, par, via, depth, x));
            assert(par[x] != j);
        }
    }
}

proof fn lemma_reach_queue(parsed: Seq<ParsedFile>, reached: Seq<bool>, queue: Seq<usize>, j: usize)
    requires
        reached.len() == parsed.len(),
        0 <= j < parsed.len(),
        !reached[j as int],
        forall|q: int| 0 <= q < queue.len() ==> (#[trigger] queue[q]) < parsed.len() && reached[queue[q] as int],
        queue.no_duplicates(),
        forall|y: int| 0 <= y < parsed.len() && #[trigger] reached[y] ==> queue.contains(y as usize),
        queue.len() == count_true(reached),
    ensures
        ({
            let r2 = reached.update(j as int, true);
            let q2 = queue.push(j as usize);
            &&& forall|q: int| 0 <= q < q2.len() ==> (#[trigger] q2[q]) < parsed.len() && r2[q2[q] as int]
            &&& q2.no_duplicates()
            &&& forall|y: int| 0 <= y < parsed.len() && #[trigger] r2[y] ==> q2.contains(y as usize)
            &&& q2.len() == count_true(r2)
        }),
{
    let r2 = reached.update(j as int, true);
    let q2 = queue.push(j as usize);
    lemma_count_true_set(reached, j as int);
    if queue.contains(j) {
        let w = choose|w: int| 0 <= w < queue.len() && queue[w] == j;
        assert(reached[queue[w] as int]);
    }
    assert forall|q: int| 0 <= q < q2.len() implies (#[trigger] q2[q]) < parsed.len() && r2[q2[q] as int] by {
        if q < queue.len() {
            assert(q2[q] == queue[q]);
        }
    }
    assert forall|y: int| 0 <= y < parsed.len() && #[trigger] r2[y] implies q2.contains(y as usize) by {
        if y != j {
            assert(reached[y]);
            assert(queue.contains(y as usize));
            let w = choose|w: int| 0 <= w < queue.len() && queue[w] == y as usize;
            assert(q2[w] == y as usize);
        } else {
            assert(q2[queue.len() as int] == j as usize);
        }
    }
}

proof fn lemma_reach_closed(parsed: Seq<ParsedFile>, reached: Seq<bool>, queue: Seq<usize>, head: int, j: usize)
    requires
        links_in_range(parsed),
        forall|q: int| 0 <= q < queue.len() ==> (#[trigger] queue[q]) < parsed.len(),
        reached.len() == parsed.len(),
        0 <= j < parsed.len(),
        0 <= head <= queue.len(),
        dequeued_closed(parsed, reached, queue, head),
    ensures
        dequeued_closed(parsed, reached.update(j as int, true), queue.push(j), head),
{
    let r2 = reached.update(j as int, true);
    let q2 = queue.push(j);
    assert forall|q: int| 0 <= q < head implies closed_at(parsed, r2, #[trigger] q2[q] as int) by {
        assert(q2[q] == queue[q]);
        let qi = queue[q] as int;
        assert(closed_at(parsed, reached, qi));
        assert forall|kk: int| 0 <= kk < links_of(parsed, qi).len() implies r2[(#[trigger] links_of(parsed, qi)[kk]).1] by {
            assert(0 <= links_of(parsed, qi)[kk].1 < parsed.len());
            assert(reached[links_of(parsed, qi)[kk].1]);
        }
    }
}

/// `parent::name`, or `name` under the crate root.
fn join_path_exec(parent: &String, name: &String) -> (r: String)
    ensures
        r@ == join_path(parent@, name@),
{
    if parent.as_str().is_empty() {
        name.clone()
    } else {
        let mut r = parent.clone();
        r.append("::");
        r.append(name.as_str());
        proof {
            reveal_strlit("::");
        }
        r
    }
}

/// Pass 3: walks the module graph breadth-first from the entry file and
/// gives each module it reaches its crate-style path: empty for the entry,
/// `name` or `parent::name` for a module first reached through the
/// declaration `mod name;` of `parent`.
#[verifier::rlimit(100)]
#[verifier::spinoff_prover]
pub(crate) fn assign_paths(parsed: &Vec<ParsedFile>, modules: &Vec<Module>, entry: usize) -> (r: (Vec<bool>, Vec<String>))
    requires
        ids_unique(parsed@),
        modules@.len() == parsed@.len(),
        entry < parsed@.len(),
        forall|i: int| 0 <= i < modules@.len() ==> {
            &&& (#[trigger] modules@[i]).id == parsed@[i].id
            &&& children_linked(modules@[i].children@, parsed@, i)
        },
    ensures
        walk_done(parsed@, r.0@, r.1@, entry as int),
{
    let n = parsed.len();
    proof {
        lemma_links_in_range(parsed@, modules@);
    }
    let mut reached: Vec<bool> = Vec::new();
    let mut paths: Vec<String> = Vec::new();
    let mut i: usize = 0;
    while i < n
        invariant
            n == parsed@.len(),
            i <= n,
            reached@.len() == i,
            paths@.len() == i,
            forall|j: int| 0 <= j < i ==> !(#[trigger] reached@[j]),
            forall|j: int| 0 <= j < i ==> (#[trigger] paths@[j])@.len() == 0,
        decreases n - i,
    {
        reached.push(false);
        paths.push(String::new());
        i = i + 1;
    }
    proof {
        lemma_count_true_none(reached@);
        lemma_count_true_set(reached@, entry as int);
    }
    let ghost none = reached@;
    reached.set(entry, true);
    let mut queue: Vec<usize> = Vec::new();
    queue.push(entry);
    let mut head: usize = 0;
    let ghost mut par: Seq<int> = Seq::new(n as nat, |j: int| 0);
    let ghost mut via: Seq<int> = Seq::new(n as nat, |j: int| 0);
    let ghost mut depth: Seq<nat> = Seq::new(n as nat, |j: int| 0nat);
    proof {
        assert(queue@[0] == entry);
        assert forall|j: int| 0 <= j < n && #[trigger] reached@[j] implies queue@.contains(j as usize) by {
            if j != entry {
                assert(!none[j]);
            }
        }
        assert forall|j: int| 0 <= j < n && #[trigger] reached@[j] && j != entry
            implies parent_ok(parsed@, reached@, paths@, par, via, depth, j) by {
            assert(!none[j]);
        }
        assert(queue@ =~= seq![entry]);
        assert forall|j: int| 0 <= j < n && j != entry implies !reached@[j] by {
            assert(!none[j]);
        }
        lemma_bfs_init(parsed@, reached@, queue@, entry as int, par, depth);
    }
    while head < queue.len()
        invariant
            n == parsed@.len(),
            ids_unique(parsed@),
            modules@.len() == n,
            forall|i: int| 0 <= i < modules@.len() ==> {
                &&& (#[trigger] modules@[i]).id == parsed@[i].id
                &&& children_linked(modules@[i].children@, parsed@, i)
            },
            links_in_range(parsed@),
            walk_state(parsed@, reached@, paths@, queue@, entry as int, par, via, depth),
            dequeued_closed(parsed@, reached@, queue@, head as int),
            head <= queue@.len(),
            bfs_state(parsed@, reached@, queue@, head as int, entry as int, par, depth),
        decreases n - head,
    {
        proof {
            lemma_count_true_bounded(reached@);
        }
        let cur = queue[head];
        proof {
            lemma_cur_links_none(parsed@, cur as int, entry as int, par, depth);
        }
        let children = &modules[cur].children;
        assert(children_linked(modules@[cur as int].children@, parsed@, cur as int));
        let mut k: usize = 0;
        while k < children.len()
            invariant
                n == parsed@.len(),
                ids_unique(parsed@),
                modules@.len() == n,
                links_in_range(parsed@),
                cur < n,
                cur == queue@[head as int],
                head < queue@.len(),
                children_linked(children@, parsed@, cur as int),
                k <= children@.len(),
                walk_state(parsed@, reached@, paths@, queue@, entry as int, par, via, depth),
                dequeued_closed(parsed@, reached@, queue@, head as int),
                forall|k2: int| 0 <= k2 < k ==> reached@[(#[trigger] links_of(parsed@, cur as int)[k2]).1],
                bfs_state(parsed@, reached@, queue@, head as int, entry as int, par, depth),
                cur_links_ok(parsed@, cur as int, k as int, entry as int, par, depth),
                entry < n,
            decreases children.len() - k,
        {
            let ghost links = links_of(parsed@, cur as int);
            let ghost reached_before = reached@;
            let ghost target = links[k as int].1;
            assert(children@[k as int].1 == parsed@[target].id);
            match find_file(parsed, children[k].1.hash_value()) {
                Some(j) => {
                    assert(j as int == target) by {
                        if j as int != target {
                            if j < target {
                                assert(parsed@[j as int].id.id_hash() != parsed@[target].id.id_hash());
                            } else {
                                assert(parsed@[target].id.id_hash() != parsed@[j as int].id.id_hash());
                            }
                        }
                    }
                    if !reached[j] {
                        let p = join_path_exec(&paths[cur], &children[k].0);
                        proof {
                            assert forall|x: int| 0 <= x < n && #[trigger] reached@[x] && x != entry
                                implies 0 <= par[x] < n && reached@[par[x]] by {
                                assert(parent_ok(parsed@, reached@, paths@, par, via, depth, x));
                            }
                            lemma_bfs_discover(parsed@, reached@, queue@, head as int, entry as int, par, depth, cur as int, k as int);
                            lemma_reach_tree(parsed@, reached@, paths@, entry as int, par, via, depth,
                                cur as int, k as int, p);
                            lemma_reach_queue(parsed@, reached@, queue@, j);
                            lemma_reach_closed(parsed@, reached@, queue@, head as int, j);
                            par = par.update(j as int, cur as int);
                            via = via.update(j as int, k as int);
                            depth = depth.update(j as int, depth[cur as int] + 1);
                        }
                        reached.set(j, true);
                        paths.set(j, p);
                        queue.push(j);
                    }
                },
                None => {
                    assert(parsed@[target].id.id_hash() == children@[k as int].1.id_hash());
                },
            }
            proof {
                if reached_before[target] {
                    lemma_bfs_seen(parsed@, reached@, queue@, head as int, entry as int, par, depth, cur as int, k as int);
                }
            }
            proof {
                assert(reached@[target]);
                assert(forall|t: int| 0 <= t < n && reached_before[t] ==> reached@[t]);
                assert forall|k2: int| 0 <= k2 < k + 1 implies reached@[(#[trigger] links_of(parsed@, cur as int)[k2]).1] by {
                    if k2 < k {
                        assert(reached_before[links[k2].1]);
                    }
                }
            }
            k = k + 1;
        }
        assert(closed_at(parsed@, reached@, cur as int));
        proof {
            assert(links_of(parsed@, cur as int).len() == children@.len());
            lemma_bfs_advance(parsed@, reached@, queue@, head as int, entry as int, par, depth);
        }
        head = head + 1;
    }
    proof {
        assert forall|i: int| 0 <= i < parsed@.len() && #[trigger] reached@[i] implies closed_at(parsed@, reached@, i) by {
            let w = choose|w: int| 0 <= w < queue@.len() && queue@[w] == i as usize;
            assert(closed_at(parsed@, reached@, queue@[w] as int));
        }
        lemma_bfs_done(parsed@, reached@, queue@, entry as int, par, depth);
    }
    (reached, paths)
}

} // verus!
