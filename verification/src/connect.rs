//! Edge-connectivity of an arrangement under Mutter's adjacency relation.
use vstd::prelude::*;
use crate::geometry::Rect;

verus! {

/// `path` walks from rectangle `path[0]` to `path.last()` through
/// rectangles that pairwise share a border.
pub open spec fn is_path(rects: Seq<Rect>, path: Seq<int>) -> bool {
    &&& path.len() > 0
    &&& forall|k: int| 0 <= k < path.len() ==> 0 <= #[trigger] path[k] < rects.len()
    &&& forall|k: int|
        0 <= k < path.len() - 1 ==> #[trigger] rects[path[k]].adjacent_spec(rects[path[k + 1]])
}

/// Rectangle `j` can be reached from rectangle 0.
pub open spec fn reachable(rects: Seq<Rect>, j: int) -> bool {
    exists|path: Seq<int>| #[trigger] is_path(rects, path) && path[0] == 0 && path.last() == j
}

/// Every rectangle can be reached from the first one.
pub open spec fn all_reachable(rects: Seq<Rect>) -> bool {
    forall|j: int| 0 <= j < rects.len() ==> #[trigger] reachable(rects, j)
}

proof fn lemma_reachable_start(rects: Seq<Rect>)
    requires
        rects.len() > 0,
    ensures
        reachable(rects, 0),
{
    let path = seq![0int];
    assert(is_path(rects, path));
}

proof fn lemma_reachable_step(rects: Seq<Rect>, i: int, j: int)
    requires
        reachable(rects, i),
        0 <= j < rects.len(),
        rects[i].adjacent_spec(rects[j]),
    ensures
        reachable(rects, j),
{
    let path = choose|path: Seq<int>| #[trigger] is_path(rects, path) && path[0] == 0 && path.last() == i;
    let p2 = path.push(j);
    assert forall|k: int| 0 <= k < p2.len() - 1 implies #[trigger] rects[p2[k]].adjacent_spec(
        rects[p2[k + 1]],
    ) by {
        if k < path.len() - 1 {
            assert(p2[k] == path[k] && p2[k + 1] == path[k + 1]);
        }
    }
    assert(is_path(rects, p2));
    assert(p2[0] == 0 && p2.last() == j);
}

/// A set that holds rectangle 0 and is closed under adjacency holds every
/// reachable rectangle.
proof fn lemma_closed_contains_reachable(rects: Seq<Rect>, visited: Seq<bool>, j: int)
    requires
        visited.len() == rects.len(),
        rects.len() > 0,
        visited[0],
        forall|a: int, b: int|
            0 <= a < rects.len() && 0 <= b < rects.len() && visited[a] && #[trigger] rects[a].adjacent_spec(
                #[trigger] rects[b],
            ) ==> visited[b],
        reachable(rects, j),
    ensures
        visited[j],
{
    let path = choose|path: Seq<int>| #[trigger] is_path(rects, path) && path[0] == 0 && path.last() == j;
    lemma_path_visited(rects, visited, path, path.len() - 1);
}

proof fn lemma_path_visited(rects: Seq<Rect>, visited: Seq<bool>, path: Seq<int>, k: int)
    requires
        visited.len() == rects.len(),
        is_path(rects, path),
        visited[path[0]],
        0 <= k < path.len(),
        forall|a: int, b: int|
            0 <= a < rects.len() && 0 <= b < rects.len() && visited[a] && #[trigger] rects[a].adjacent_spec(
                #[trigger] rects[b],
            ) ==> visited[b],
    ensures
        visited[path[k]],
    decreases k,
{
    if k > 0 {
        lemma_path_visited(rects, visited, path, k - 1);
        assert(rects[path[k - 1]].adjacent_spec(rects[path[k - 1 + 1]]));
        assert(0 <= path[k - 1] < rects.len());
        assert(0 <= path[k] < rects.len());
    }
}

/// True when every rectangle is connected to every other through shared
/// borders (the empty arrangement counts as connected).
pub fn all_connected(rects: &[Rect]) -> (r: bool)
    ensures
        r == (rects@.len() == 0 || all_reachable(rects@)),
{
    let n = rects.len();
    if n == 0 {
        return true;
    }
    let ghost rs = rects@;
    let mut visited: Vec<bool> = Vec::new();
    let mut t: usize = 0;
    while t < n
        invariant
            n == rs.len(),
            t <= n,
            visited@.len() == t,
            forall|k: int| 0 <= k < t ==> visited@[k] == (k == 0),
        decreases n - t,
    {
        visited.push(t == 0);
        t += 1;
    }
    let mut stack: Vec<usize> = Vec::new();
    stack.push(0);
    proof {
        lemma_reachable_start(rs);
        lemma_filter_len_le(visited@);
        assert(stack@[0] == 0);
        assert(stack@.contains(0usize));
    }
    while stack.len() > 0
        invariant
            n == rs.len(),
            n > 0,
            rects@ == rs,
            visited@.len() == n,
            visited@[0],
            visited@.filter(|v: bool| v).len() <= n,
            forall|k: int| 0 <= k < n && #[trigger] visited@[k] ==> reachable(rs, k),
            forall|k: int| 0 <= k < stack@.len() ==> #[trigger] stack@[k] < n,
            forall|k: int| 0 <= k < stack@.len() ==> #[trigger] visited@[stack@[k] as int],
            forall|a: int, b: int|
                0 <= a < n && 0 <= b < n && visited@[a] && !stack@.contains(a as usize)
                    && #[trigger] rs[a].adjacent_spec(#[trigger] rs[b]) ==> visited@[b],
        decreases n - visited@.filter(|v: bool| v).len(), stack@.len(),
    {
        let ghost visited_before = visited@;
        let ghost stack_before = stack@;
        let i = stack.pop().unwrap();
        assert(stack_before[stack_before.len() - 1] == i);
        let ghost stack_mid = stack@;
        let mut j: usize = 0;
        while j < n
            invariant
                n == rs.len(),
                rects@ == rs,
                i < n,
                visited@.len() == n,
                visited@[0],
                visited@[i as int],
                j <= n,
                forall|k: int| 0 <= k < n && #[trigger] visited@[k] ==> reachable(rs, k),
                forall|k: int| 0 <= k < n && visited_before[k] ==> #[trigger] visited@[k],
                forall|k: int| 0 <= k < stack@.len() ==> #[trigger] stack@[k] < n,
                forall|k: int| 0 <= k < stack@.len() ==> #[trigger] visited@[stack@[k] as int],
                forall|k: int| 0 <= k < stack_mid.len() ==> stack_mid[k] == #[trigger] stack@[k],
                stack@.len() >= stack_mid.len(),
                forall|k: int|
                    0 <= k < n && visited@[k] && !visited_before[k] ==> #[trigger] stack@.contains(
                        k as usize,
                    ),
                forall|b: int| 0 <= b < j && rs[i as int].adjacent_spec(#[trigger] rs[b]) ==> visited@[b],
                visited_before.filter(|v: bool| v).len() <= visited@.filter(|v: bool| v).len(),
                visited@.filter(|v: bool| v).len() <= n,
                stack@.len() == stack_mid.len() || visited_before.filter(|v: bool| v).len()
                    < visited@.filter(|v: bool| v).len(),
                visited_before.len() == n,
            decreases n - j,
        {
            if !visited[j] && rects[i].is_adjacent_to(&rects[j]) {
                proof {
                    lemma_reachable_step(rs, i as int, j as int);
                }
                let ghost vprev = visited@;
                visited.set(j, true);
                proof {
                    lemma_filter_grows(vprev, j as int);
                }
                let ghost sprev = stack@;
                stack.push(j);
                assert(stack@[stack@.len() - 1] == j);
                proof {
                    assert forall|k: int|
                        0 <= k < n && visited@[k] && !visited_before[k] implies #[trigger] stack@.contains(
                        k as usize,
                    ) by {
                        if k != j {
                            assert(visited@[k] == vprev[k]);
                            assert(sprev.contains(k as usize));
                            let t = choose|t: int| 0 <= t < sprev.len() && sprev[t] == k as usize;
                            assert(stack@[t] == k as usize);
                        }
                    }
                }
            }
            j += 1;
        }
        proof {
            assert forall|a: int, b: int|
                0 <= a < n && 0 <= b < n && visited@[a] && !stack@.contains(a as usize)
                    && #[trigger] rs[a].adjacent_spec(#[trigger] rs[b]) implies visited@[b] by {
                if a == i {
                } else if visited_before[a] {
                    if stack_before.contains(a as usize) {
                        let k = choose|k: int| 0 <= k < stack_before.len() && stack_before[k] == a as usize;
                        if k < stack_before.len() - 1 {
                            assert(stack_mid[k] == a as usize);
                            assert(stack@[k] == a as usize);
                            assert(stack@.contains(a as usize));
                        }
                    }
                } else {
                    assert(stack@.contains(a as usize));
                }
            }
        }
    }
    proof {
        assert forall|a: int, b: int|
            0 <= a < n && 0 <= b < n && visited@[a] && #[trigger] rs[a].adjacent_spec(
                #[trigger] rs[b],
            ) implies visited@[b] by {
            assert(!stack@.contains(a as usize));
        }
    }
    let mut all = true;
    let mut k: usize = 0;
    while k < n
        invariant
            n == rs.len(),
            visited@.len() == n,
            k <= n,
            all == forall|t: int| 0 <= t < k ==> visited@[t],
        decreases n - k,
    {
        if !visited[k] {
            all = false;
        }
        k += 1;
    }
    proof {
        if all {
            assert forall|t: int| 0 <= t < rs.len() implies #[trigger] reachable(rs, t) by {
                assert(visited@[t]);
            }
        } else {
            let t = choose|t: int| 0 <= t < n && !visited@[t];
            if reachable(rs, t) {
                lemma_closed_contains_reachable(rs, visited@, t);
            }
        }
    }
    all
}

proof fn lemma_filter_grows(v: Seq<bool>, j: int)
    requires
        0 <= j < v.len(),
        !v[j],
    ensures
        v.update(j, true).filter(|b: bool| b).len() == v.filter(|b: bool| b).len() + 1,
        v.update(j, true).filter(|b: bool| b).len() <= v.len(),
    decreases v.len(),
{
    let u = v.update(j, true);
    reveal_with_fuel(Seq::filter, 2);
    if j == v.len() - 1 {
        assert(u.drop_last() =~= v.drop_last());
        lemma_filter_len_le(v.drop_last());
    } else {
        lemma_filter_grows(v.drop_last(), j);
        assert(u.drop_last() =~= v.drop_last().update(j, true));
        assert(u.last() == v.last());
    }
}

proof fn lemma_filter_len_le(v: Seq<bool>)
    ensures
        v.filter(|b: bool| b).len() <= v.len(),
    decreases v.len(),
{
    reveal_with_fuel(Seq::filter, 2);
    if v.len() > 0 {
        lemma_filter_len_le(v.drop_last());
    }
}

} // verus!
