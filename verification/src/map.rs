//! Decisions behind the relay map: point colours and which points overlap.

use vstd::prelude::*;

verus! {

/// What a click on the map asks for: the code of the POP to toggle.
#[derive(Debug, Default)]
pub struct MapInteraction {
    pub clicked: Option<String>,
}

/// The colour of a POP's point as red, green and blue: allowed POPs green,
/// POPs without relays grey, blocked Valve primary (tier 0) POPs blue, other
/// blocked POPs amber.
pub fn pop_color(selected: bool, has_relays: bool, tier: u8) -> (c: (u8, u8, u8))
    ensures
        selected ==> c == (78u8, 206u8, 118u8),
        !selected && !has_relays ==> c == (120u8, 130u8, 136u8),
        !selected && has_relays && tier == 0 ==> c == (69u8, 160u8, 238u8),
        !selected && has_relays && tier != 0 ==> c == (235u8, 181u8, 82u8),
{
    if selected {
        (78, 206, 118)
    } else if !has_relays {
        (120, 130, 136)
    } else if tier == 0 {
        (69, 160, 238)
    } else {
        (235, 181, 82)
    }
}

/// The relation is a square table over `0..near.len()`.
pub open spec fn is_square(near: Seq<Vec<bool>>) -> bool {
    forall|i: int| 0 <= i < near.len() ==> (#[trigger] near[i])@.len() == near.len()
}

/// The relation is symmetric.
pub open spec fn is_symmetric(near: Seq<Vec<bool>>) -> bool {
    forall|i: int, j: int| 0 <= i < near.len() && 0 <= j < near.len() ==> (#[trigger] near[i])@[j] == (#[trigger] near[j])@[i]
}

/// `p` is a walk along the relation.
pub open spec fn is_walk(near: Seq<Vec<bool>>, p: Seq<int>) -> bool {
    &&& p.len() > 0
    &&& forall|k: int| 0 <= k < p.len() ==> 0 <= #[trigger] p[k] < near.len()
    &&& forall|k: int| #![trigger p[k]] 0 <= k < p.len() - 1 ==> near[p[k]]@[p[k + 1]]
}

/// `b` can be reached from `a` by a walk along the relation.
pub open spec fn reachable(near: Seq<Vec<bool>>, a: int, b: int) -> bool {
    exists|p: Seq<int>| #[trigger] is_walk(near, p) && p[0] == a && p.last() == b
}

/// `v` belongs to group `g`.
pub open spec fn in_group(groups: Seq<Vec<usize>>, g: int, v: int) -> bool {
    exists|k: int| 0 <= k < groups[g]@.len() && groups[g]@[k] == v
}

proof fn lemma_reachable_self(near: Seq<Vec<bool>>, a: int)
    requires
        0 <= a < near.len(),
    ensures
        reachable(near, a, a),
{
    let p = seq![a];
    assert(is_walk(near, p));
    assert(is_walk(near, p) && p[0] == a && p.last() == a);
}

proof fn lemma_reachable_step(near: Seq<Vec<bool>>, a: int, b: int, c: int)
    requires
        reachable(near, a, b),
        0 <= b < near.len(),
        0 <= c < near.len(),
        near[b]@[c],
    ensures
        reachable(near, a, c),
{
    let p = choose|p: Seq<int>| is_walk(near, p) && p[0] == a && p.last() == b;
    let q = p.push(c);
    assert forall|k: int| #![trigger q[k]] 0 <= k < q.len() - 1 implies near[q[k]]@[q[k + 1]] by {
        if k < p.len() - 1 {
            assert(q[k] == p[k] && q[k + 1] == p[k + 1]);
        } else {
            assert(q[k] == b && q[k + 1] == c);
        }
    }
    assert(is_walk(near, q));
    assert(is_walk(near, q) && q[0] == a && q.last() == c);
}

/// Every point of a walk that starts in a group closed under the relation lies
/// in that group.
proof fn lemma_closed_group_holds_reachable(near: Seq<Vec<bool>>, groups: Seq<Vec<usize>>, g: int, a: int, b: int)
    requires
        0 <= g < groups.len(),
        in_group(groups, g, a),
        reachable(near, a, b),
        forall|u: int, v: int| #![trigger near[u]@[v]] in_group(groups, g, u) && 0 <= v < near.len() && near[u]@[v] ==> in_group(groups, g, v),
    ensures
        in_group(groups, g, b),
{
    let p = choose|p: Seq<int>| is_walk(near, p) && p[0] == a && p.last() == b;
    lemma_walk_stays_in_group(near, groups, g, p, p.len() - 1);
}

proof fn lemma_walk_stays_in_group(near: Seq<Vec<bool>>, groups: Seq<Vec<usize>>, g: int, p: Seq<int>, k: int)
    requires
        0 <= g < groups.len(),
        is_walk(near, p),
        0 <= k < p.len(),
        in_group(groups, g, p[0]),
        forall|u: int, v: int| #![trigger near[u]@[v]] in_group(groups, g, u) && 0 <= v < near.len() && near[u]@[v] ==> in_group(groups, g, v),
    ensures
        in_group(groups, g, p[k]),
    decreases k,
{
    if k > 0 {
        lemma_walk_stays_in_group(near, groups, g, p, k - 1);
        assert(near[p[k - 1]]@[p[k]]);
        assert(0 <= p[k] < near.len());
    }
}


/// `v` belongs to some group.
pub open spec fn in_some_group(groups: Seq<Vec<usize>>, v: int) -> bool {
    exists|g: int| 0 <= g < groups.len() && #[trigger] in_group(groups, g, v)
}

/// `v` occurs in `s`.
pub open spec fn seq_has(s: Seq<usize>, v: int) -> bool {
    exists|k: int| 0 <= k < s.len() && s[k] == v
}

/// The groups that `overlap_groups` returns for a relation on `0..n`: they
/// split `0..n` into non-empty groups without repetition; each group is closed
/// under the relation and reachable from its first point, which is its least
/// point; groups come in ascending order of their first points.
pub open spec fn groups_partition(near: Seq<Vec<bool>>, groups: Seq<Vec<usize>>) -> bool {
    &&& forall|g: int| 0 <= g < groups.len() ==> (#[trigger] groups[g])@.len() > 0
    &&& forall|g: int| 0 <= g < groups.len() ==> (#[trigger] groups[g])@.no_duplicates()
    &&& forall|g: int, k: int| 0 <= g < groups.len() && 0 <= k < groups[g]@.len() ==> (#[trigger] groups[g]@[k]) < near.len()
    &&& forall|v: int| 0 <= v < near.len() ==> #[trigger] in_some_group(groups, v)
    &&& forall|g1: int, g2: int, v: int| 0 <= g1 < groups.len() && 0 <= g2 < groups.len() && g1 != g2
        && #[trigger] in_group(groups, g1, v) ==> !#[trigger] in_group(groups, g2, v)
    &&& forall|g: int, v: int| 0 <= g < groups.len() && #[trigger] in_group(groups, g, v) ==> reachable(near, groups[g]@[0] as int, v)
    &&& forall|g: int, u: int, v: int| #![trigger in_group(groups, g, u), near[u]@[v]]
        0 <= g < groups.len() && in_group(groups, g, u) && 0 <= v < near.len() && near[u]@[v] ==> in_group(groups, g, v)
    &&& forall|g: int, v: int| 0 <= g < groups.len() && #[trigger] in_group(groups, g, v) ==> groups[g]@[0] <= v
    &&& forall|g1: int, g2: int| 0 <= g1 < g2 < groups.len() ==> (#[trigger] groups[g1])@[0] < (#[trigger] groups[g2])@[0]
}

/// Number of entries that are `false`.
pub open spec fn count_false(s: Seq<bool>) -> nat
    decreases s.len(),
{
    if s.len() == 0 {
        0
    } else {
        count_false(s.drop_last()) + (if s.last() {
            0nat
        } else {
            1nat
        })
    }
}

proof fn lemma_count_false_update(s: Seq<bool>, i: int)
    requires
        0 <= i < s.len(),
        !s[i],
    ensures
        count_false(s.update(i, true)) + 1 == count_false(s),
    decreases s.len(),
{
    let t = s.update(i, true);
    if i < s.len() - 1 {
        assert(t.drop_last() =~= s.drop_last().update(i, true));
        lemma_count_false_update(s.drop_last(), i);
    } else {
        assert(t.drop_last() =~= s.drop_last());
    }
}

proof fn lemma_count_false_le_len(s: Seq<bool>)
    ensures
        count_false(s) <= s.len(),
    decreases s.len(),
{
    if s.len() > 0 {
        lemma_count_false_le_len(s.drop_last());
    }
}

/// The scan after taking `current` off the stack: for every point from `from`
/// upward in ascending order, a neighbour of `current` that is not yet visited
/// is marked visited and pushed.
pub open spec fn scan_neighbours(near: Seq<Vec<bool>>, current: int, visited: Seq<bool>, stack: Seq<usize>, from: int) -> (
    Seq<bool>,
    Seq<usize>,
)
    decreases near.len() - from,
{
    if from < 0 || from >= near.len() {
        (visited, stack)
    } else if !visited[from] && near[current]@[from] {
        scan_neighbours(near, current, visited.update(from, true), stack.push(from as usize), from + 1)
    } else {
        scan_neighbours(near, current, visited, stack, from + 1)
    }
}

/// The depth-first search of one group, for at most `fuel` points: take the
/// last point off the stack, add it to the group, push its unvisited
/// neighbours, and go on until the stack is empty. The result is the visited
/// marks and the group, in the order its points were taken.
pub open spec fn search_group(near: Seq<Vec<bool>>, visited: Seq<bool>, stack: Seq<usize>, group: Seq<usize>, fuel: nat) -> (
    Seq<bool>,
    Seq<usize>,
)
    decreases fuel,
{
    if fuel == 0 || stack.len() == 0 {
        (visited, group)
    } else {
        let current = stack.last();
        let next = scan_neighbours(near, current as int, visited, stack.drop_last(), 0);
        search_group(near, next.0, next.1, group.push(current), (fuel - 1) as nat)
    }
}

/// The groups found from point `start` on: each point not yet visited starts
/// a depth-first search of its own group.
pub open spec fn search_groups(near: Seq<Vec<bool>>, visited: Seq<bool>, start: int) -> Seq<Seq<usize>>
    decreases near.len() - start,
{
    if start < 0 || start >= near.len() {
        Seq::empty()
    } else if visited[start] {
        search_groups(near, visited, start + 1)
    } else {
        let found = search_group(near, visited.update(start, true), seq![start as usize], Seq::empty(), near.len());
        seq![found.1] + search_groups(near, found.0, start + 1)
    }
}

/// The groups of `overlap_groups`, in the order the searches find them and
/// each in the order its search takes its points.
pub open spec fn depth_first_groups(near: Seq<Vec<bool>>) -> Seq<Seq<usize>> {
    search_groups(near, Seq::new(near.len(), |i: int| false), 0)
}

/// The groups as sequences of points.
pub open spec fn group_seqs(groups: Seq<Vec<usize>>) -> Seq<Seq<usize>> {
    groups.map_values(|g: Vec<usize>| g@)
}

/// Splits the points `0..n` into the groups of points connected by the
/// relation `near` (points closer than the overlap distance), found by a
/// depth-first search from each point not yet grouped, in ascending order.
pub fn overlap_groups(near: &Vec<Vec<bool>>) -> (groups: Vec<Vec<usize>>)
    requires
        is_square(near@),
        is_symmetric(near@),
    ensures
        groups_partition(near@, groups@),
        group_seqs(groups@) == depth_first_groups(near@),
{
    let n = near.len();
    let mut visited: Vec<bool> = Vec::new();
    let mut i: usize = 0;
    while i < n
        invariant
            visited@.len() == i,
            i <= n,
            forall|k: int| 0 <= k < i ==> !visited@[k],
        decreases n - i,
    {
        visited.push(false);
        i = i + 1;
    }
    assert(visited@ =~= Seq::new(near@.len(), |k: int| false));
    assert(group_seqs(Seq::<Vec<usize>>::empty()) =~= Seq::<Seq<usize>>::empty());
    let mut groups: Vec<Vec<usize>> = Vec::new();
    let mut start: usize = 0;
    while start < n
        invariant
            n == near@.len(),
            is_square(near@),
            is_symmetric(near@),
            visited@.len() == n,
            start <= n,
            forall|v: int| 0 <= v < n ==> (visited@[v] <==> in_some_group(groups@, v)),
            forall|v: int| 0 <= v < start ==> visited@[v],
            forall|g: int| 0 <= g < groups@.len() ==> (#[trigger] groups@[g])@.len() > 0,
            forall|g: int| 0 <= g < groups@.len() ==> (#[trigger] groups@[g])@.no_duplicates(),
            forall|g: int, k: int| 0 <= g < groups@.len() && 0 <= k < groups@[g]@.len() ==> (#[trigger] groups@[g]@[k]) < n,
            forall|g1: int, g2: int, v: int| 0 <= g1 < groups@.len() && 0 <= g2 < groups@.len() && g1 != g2
                && #[trigger] in_group(groups@, g1, v) ==> !#[trigger] in_group(groups@, g2, v),
            forall|g: int, v: int| 0 <= g < groups@.len() && #[trigger] in_group(groups@, g, v) ==> reachable(near@, groups@[g]@[0] as int, v),
            forall|g: int, u: int, v: int| #![trigger in_group(groups@, g, u), near@[u]@[v]]
                0 <= g < groups@.len() && in_group(groups@, g, u) && 0 <= v < n && near@[u]@[v] ==> in_group(groups@, g, v),
            forall|g: int, v: int| 0 <= g < groups@.len() && #[trigger] in_group(groups@, g, v) ==> groups@[g]@[0] <= v,
            forall|g1: int, g2: int| 0 <= g1 < g2 < groups@.len() ==> (#[trigger] groups@[g1])@[0] < (#[trigger] groups@[g2])@[0],
            forall|g: int| 0 <= g < groups@.len() ==> (#[trigger] groups@[g])@[0] < start,
            group_seqs(groups@) + search_groups(near@, visited@, start as int) == depth_first_groups(near@),
        decreases n - start,
    {
        if visited[start] {
            start = start + 1;
            continue;
        }
        let ghost want = search_group(near@, visited@.update(start as int, true), seq![start], Seq::empty(), n as nat);
        let ghost mut fuel: nat = n as nat;
        let ghost vis0 = visited@;
        proof {
            lemma_count_false_update(visited@, start as int);
            lemma_count_false_le_len(visited@);
        }
        visited.set(start, true);
        let mut group: Vec<usize> = Vec::new();
        let mut stack: Vec<usize> = Vec::new();
        stack.push(start);
        proof {
            lemma_reachable_self(near@, start as int);
            assert(stack@[0] == start);
            assert(seq_has(stack@, start as int));
        }
        loop
            invariant_except_break
                n == near@.len(),
                is_square(near@),
                vis0.len() == n,
                start < n,
                !vis0[start as int],
                visited@.len() == n,
                forall|v: int| #![trigger visited@[v]] #![trigger seq_has(group@, v)] #![trigger seq_has(stack@, v)] 0 <= v < n ==> (visited@[v] <==> (vis0[v] || seq_has(group@, v) || seq_has(stack@, v))),
                forall|v: int| #![trigger seq_has(group@, v)] #![trigger seq_has(stack@, v)] seq_has(group@, v) || seq_has(stack@, v) ==> 0 <= v < n && !vis0[v] && reachable(near@, start as int, v),
                group@.no_duplicates(),
                stack@.no_duplicates(),
                forall|v: int| !(seq_has(group@, v) && seq_has(stack@, v)),
                forall|u: int, v: int| #![trigger seq_has(group@, u), near@[u]@[v]] seq_has(group@, u) && 0 <= v < n && near@[u]@[v] ==> visited@[v],
                group@.len() > 0 ==> group@[0] == start,
                group@.len() == 0 ==> stack@ == seq![start],
                search_group(near@, visited@, stack@, group@, fuel) == want,
                stack@.len() + count_false(visited@) <= fuel,
            ensures
                visited@.len() == n,
                forall|v: int| #![trigger visited@[v]] #![trigger seq_has(group@, v)] 0 <= v < n ==> (visited@[v] <==> (vis0[v] || seq_has(group@, v))),
                forall|v: int| #[trigger] seq_has(group@, v) ==> 0 <= v < n && !vis0[v] && reachable(near@, start as int, v),
                group@.no_duplicates(),
                forall|u: int, v: int| #![trigger seq_has(group@, u), near@[u]@[v]] seq_has(group@, u) && 0 <= v < n && near@[u]@[v] ==> visited@[v],
                group@.len() > 0,
                group@[0] == start,
                (visited@, group@) == want,
            decreases count_false(visited@), stack@.len(),
        {
            let ghost stack_before = stack@;
            let ghost group_before = group@;
            let ghost visited_before = visited@;
            let ghost fuel_before = fuel;
            let current = match stack.pop() {
                Some(c) => c,
                None => {
                    proof {
                        assert forall|v: int| !seq_has(stack@, v) by {}
                    }
                    break;
                },
            };
            proof {
                assert(stack_before.last() == current);
                assert(seq_has(stack_before, current as int));
                assert(stack@ =~= stack_before.drop_last());
                assert forall|v: int| seq_has(stack_before, v) <==> (seq_has(stack@, v) || v == current) by {
                    if seq_has(stack_before, v) && v != current {
                        let k = choose|k: int| 0 <= k < stack_before.len() && stack_before[k] == v;
                        assert(stack@[k] == v);
                    }
                    if seq_has(stack@, v) {
                        let k = choose|k: int| 0 <= k < stack@.len() && stack@[k] == v;
                        assert(stack_before[k] == v);
                    }
                }
            }
            group.push(current);
            proof {
                assert forall|v: int| seq_has(group@, v) <==> (seq_has(group_before, v) || v == current) by {
                    if seq_has(group@, v) {
                        let k = choose|k: int| 0 <= k < group@.len() && group@[k] == v;
                        if k < group_before.len() {
                            assert(group_before[k] == v);
                        }
                    }
                    if seq_has(group_before, v) {
                        let k = choose|k: int| 0 <= k < group_before.len() && group_before[k] == v;
                        assert(group@[k] == v);
                    }
                    if v == current {
                        assert(group@[group_before.len() as int] == v);
                    }
                }
                assert(!seq_has(group_before, current as int));
                assert(!seq_has(stack@, current as int)) by {
                    if seq_has(stack@, current as int) {
                        let k = choose|k: int| 0 <= k < stack@.len() && stack@[k] == current;
                        assert(stack_before[k] == current);
                        assert(stack_before[stack_before.len() - 1] == current);
                    }
                }
            }
            proof {
                assert forall|v: int| #![trigger seq_has(group@, v)] #![trigger seq_has(stack@, v)] seq_has(group@, v) || seq_has(stack@, v) implies 0 <= v < n && !vis0[v]
                    && reachable(near@, start as int, v) by {
                    if v != current {
                        assert(seq_has(group_before, v) || seq_has(stack_before, v));
                    } else {
                        assert(seq_has(stack_before, v));
                    }
                }
                assert forall|v: int| !(seq_has(group@, v) && seq_has(stack@, v)) by {
                    if seq_has(group@, v) && seq_has(stack@, v) && v != current {
                        assert(seq_has(group_before, v));
                        assert(seq_has(stack_before, v));
                    }
                }
                assert forall|u: int, v: int| #![trigger seq_has(group@, u), near@[u]@[v]] seq_has(group@, u) && u != current
                    && 0 <= v < n && near@[u]@[v] implies visited@[v] by {
                    assert(seq_has(group_before, u));
                }
            }
            let ghost stack_mid = stack@;
            let ghost visited_mid = visited@;
            let mut other: usize = 0;
            while other < n
                invariant
                    n == near@.len(),
                    is_square(near@),
                    vis0.len() == n,
                    0 <= current < n,
                    reachable(near@, start as int, current as int),
                    seq_has(group@, current as int),
                    visited@.len() == n,
                    other <= n,
                    forall|v: int| #![trigger visited@[v]] #![trigger seq_has(group@, v)] #![trigger seq_has(stack@, v)] 0 <= v < n ==> (visited@[v] <==> (vis0[v] || seq_has(group@, v) || seq_has(stack@, v))),
                    forall|v: int| #![trigger seq_has(group@, v)] #![trigger seq_has(stack@, v)] seq_has(group@, v) || seq_has(stack@, v) ==> 0 <= v < n && !vis0[v] && reachable(near@, start as int, v),
                    group@.no_duplicates(),
                    stack@.no_duplicates(),
                    forall|v: int| !(seq_has(group@, v) && seq_has(stack@, v)),
                    forall|u: int, v: int| #![trigger seq_has(group@, u), near@[u]@[v]] seq_has(group@, u) && u != current && 0 <= v < n && near@[u]@[v] ==> visited@[v],
                    forall|v: int| 0 <= v < other && near@[current as int]@[v] ==> visited@[v],
                    forall|v: int| 0 <= v < n && visited_mid[v] ==> visited@[v],
                    visited_mid.len() == n,
                    count_false(visited@) <= count_false(visited_mid),
                    count_false(visited@) == count_false(visited_mid) ==> stack@.len() == stack_mid.len(),
                    count_false(visited@) + stack@.len() == count_false(visited_mid) + stack_mid.len(),
                    scan_neighbours(near@, current as int, visited@, stack@, other as int) == scan_neighbours(near@, current as int, visited_mid, stack_mid, 0),
                    group@.len() > 0,
                    group@[0] == start,
                decreases n - other,
            {
                if !visited[other] && near[current][other] {
                    let ghost sb = stack@;
                    proof {
                        assert(!seq_has(sb, other as int));
                        assert(!seq_has(group@, other as int));
                        assert(!vis0[other as int]);
                        lemma_count_false_update(visited@, other as int);
                        lemma_reachable_step(near@, start as int, current as int, other as int);
                    }
                    let ghost gr = group@;
                    visited.set(other, true);
                    stack.push(other);
                    proof {
                        assert forall|v: int| seq_has(stack@, v) <==> (seq_has(sb, v) || v == other) by {
                            if seq_has(stack@, v) {
                                let k = choose|k: int| 0 <= k < stack@.len() && stack@[k] == v;
                                if k < sb.len() {
                                    assert(sb[k] == v);
                                }
                            }
                            if seq_has(sb, v) {
                                let k = choose|k: int| 0 <= k < sb.len() && sb[k] == v;
                                assert(stack@[k] == v);
                            }
                            if v == other {
                                assert(stack@[sb.len() as int] == v);
                            }
                        }
                        assert forall|v: int| #![trigger seq_has(group@, v)] #![trigger seq_has(stack@, v)] seq_has(group@, v)
                            || seq_has(stack@, v) implies 0 <= v < n && !vis0[v] && reachable(near@, start as int, v) by {
                            if v != other {
                                assert(seq_has(gr, v) || seq_has(sb, v));
                            }
                        }
                    }
                }
                other = other + 1;
            }
            proof {
                assert(stack_before.len() > 0);
                assert(fuel_before > 0);
                assert(group@ =~= group_before.push(current));
                assert(search_group(near@, visited_before, stack_before, group_before, fuel_before) == search_group(
                    near@,
                    visited@,
                    stack@,
                    group@,
                    (fuel_before - 1) as nat,
                ));
                fuel = (fuel_before - 1) as nat;
            }
        }
        let ghost groups_before = groups@;
        groups.push(group);
        proof {
            assert(group_seqs(groups@) =~= group_seqs(groups_before).push(group@));
            assert(search_groups(near@, vis0, start as int) == seq![group@] + search_groups(near@, visited@, start + 1));
            assert(group_seqs(groups@) + search_groups(near@, visited@, start + 1) =~= group_seqs(groups_before)
                + search_groups(near@, vis0, start as int));
        }
        proof {
            let gs = groups@;
            let last = gs.len() - 1;
            assert forall|g: int, v: int| 0 <= g < groups_before.len() implies in_group(gs, g, v) == in_group(groups_before, g, v) by {
                assert(gs[g] == groups_before[g]);
            }
            assert forall|v: int| in_group(gs, last, v) == seq_has(gs[last]@, v) by {}
            // the new group is closed: a neighbour of a grouped point cannot
            // lie in an earlier group, as that group would then hold the point
            assert forall|u: int, v: int| #![trigger seq_has(gs[last]@, u), near@[u]@[v]]
                seq_has(gs[last]@, u) && 0 <= v < n && near@[u]@[v] implies seq_has(gs[last]@, v) by {
                if vis0[v] {
                    assert(in_some_group(groups_before, v));
                    let g = choose|g: int| 0 <= g < groups_before.len() && #[trigger] in_group(groups_before, g, v);
                    assert(near@[v]@[u] == near@[u]@[v]);
                    assert(in_group(groups_before, g, u));
                    assert(in_some_group(groups_before, u));
                }
            }
            assert forall|v: int| 0 <= v < n implies (visited@[v] <==> in_some_group(gs, v)) by {
                if visited@[v] {
                    if vis0[v] {
                        let g = choose|g: int| 0 <= g < groups_before.len() && #[trigger] in_group(groups_before, g, v);
                        assert(in_group(gs, g, v));
                    } else {
                        assert(in_group(gs, last, v));
                    }
                }
                if in_some_group(gs, v) {
                    let g = choose|g: int| 0 <= g < gs.len() && #[trigger] in_group(gs, g, v);
                    if g < last {
                        assert(in_some_group(groups_before, v));
                    }
                }
            }
            assert forall|v: int| 0 <= v <= start implies visited@[v] by {
                if v < start {
                    assert(vis0[v]);
                } else {
                    assert(seq_has(gs[last]@, v)) by {
                        assert(gs[last]@[0] == start);
                    }
                }
            }
            assert forall|g: int, k: int| 0 <= g < gs.len() && 0 <= k < gs[g]@.len() implies (#[trigger] gs[g]@[k]) < n by {
                if g == last {
                    assert(seq_has(gs[last]@, gs[g]@[k] as int));
                }
            }
            assert forall|g1: int, g2: int, v: int| 0 <= g1 < gs.len() && 0 <= g2 < gs.len() && g1 != g2
                && #[trigger] in_group(gs, g1, v) implies !#[trigger] in_group(gs, g2, v) by {
                if g1 == last && in_group(gs, g2, v) {
                    assert(in_some_group(groups_before, v));
                } else if g2 == last && in_group(gs, g2, v) {
                    assert(in_some_group(groups_before, v));
                }
            }
            assert forall|g: int, v: int| 0 <= g < gs.len() && #[trigger] in_group(gs, g, v) implies gs[g]@[0] <= v by {
                if g == last {
                    if v < start {
                        assert(vis0[v]);
                    }
                }
            }
            assert forall|g: int, u: int, v: int| #![trigger in_group(gs, g, u), near@[u]@[v]]
                0 <= g < gs.len() && in_group(gs, g, u) && 0 <= v < n && near@[u]@[v] implies in_group(gs, g, v) by {
                if g == last {
                    assert(seq_has(gs[last]@, u));
                    assert(seq_has(gs[last]@, v));
                }
            }
        }
        start = start + 1;
    }
    groups
}


/// Each group of `overlap_groups` is exactly the set of points reachable from
/// its first point: a whole connected cluster of overlapping points.
pub proof fn lemma_group_is_cluster(near: Seq<Vec<bool>>, groups: Seq<Vec<usize>>, g: int, v: int)
    requires
        groups_partition(near, groups),
        0 <= g < groups.len(),
        0 <= v < near.len(),
    ensures
        in_group(groups, g, v) <==> reachable(near, groups[g]@[0] as int, v),
{
    if reachable(near, groups[g]@[0] as int, v) {
        assert(in_group(groups, g, groups[g]@[0] as int));
        lemma_closed_group_holds_reachable(near, groups, g, groups[g]@[0] as int, v);
    }
}

} // verus!
