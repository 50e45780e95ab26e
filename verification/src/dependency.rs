//! Cycle detection over dependency edges.
//!
//! An edge `(from, to)` says that the time block named `from` depends on the
//! one named `to`. The edges hold a cycle when some non-empty sequence of
//! edges leads, each into the start of the next, from a block back to itself.
//!
//! The search numbers the block names in the order they first appear and
//! keeps the graph as adjacency lists indexed by those numbers, with the
//! search marks in a vector indexed the same way. A map keyed by the names
//! would need hashing and equality of text that the verifier does not model;
//! with the names numbered, a vector indexed by number is that map, fully
//! specified.
use vstd::prelude::*;
use vstd::set_lib::set_int_range;

verus! {

/// Edge `a` ends at the block where edge `b` starts.
pub open spec fn joins(edges: Seq<(String, String)>, a: int, b: int) -> bool {
    edges[a].1@ == edges[b].0@
}

/// `walk` lists edge indices that lead one into the next and from the last
/// back into the first.
pub open spec fn is_cycle(edges: Seq<(String, String)>, walk: Seq<int>) -> bool {
    &&& walk.len() > 0
    &&& forall|k: int| 0 <= k < walk.len() ==> 0 <= #[trigger] walk[k] < edges.len()
    &&& forall|k: int| 0 <= k < walk.len() - 1 ==> #[trigger] joins(edges, walk[k], walk[k + 1])
    &&& joins(edges, walk.last(), walk[0])
}

/// The edges hold a cycle.
pub open spec fn has_cycle(edges: Seq<(String, String)>) -> bool {
    exists|walk: Seq<int>| is_cycle(edges, walk)
}

// ---------------------------------------------------------------------------
// The same notions over interned node numbers.
spec fn id_joins(src: Seq<usize>, dst: Seq<usize>, a: int, b: int) -> bool {
    dst[a] == src[b]
}

spec fn is_id_cycle(src: Seq<usize>, dst: Seq<usize>, walk: Seq<int>) -> bool {
    &&& walk.len() > 0
    &&& forall|k: int| 0 <= k < walk.len() ==> 0 <= #[trigger] walk[k] < src.len()
    &&& forall|k: int|
        0 <= k < walk.len() - 1 ==> #[trigger] id_joins(src, dst, walk[k], walk[k + 1])
    &&& id_joins(src, dst, walk.last(), walk[0])
}

spec fn has_id_cycle(src: Seq<usize>, dst: Seq<usize>) -> bool {
    exists|walk: Seq<int>| is_id_cycle(src, dst, walk)
}

/// The names hold no text twice.
spec fn distinct_names(names: Seq<String>) -> bool {
    forall|i: int, j: int|
        0 <= i < names.len() && 0 <= j < names.len() && i != j ==> #[trigger] names[i]@
            != #[trigger] names[j]@
}

/// The first `src.len()` edges are numbered: edge `e` leaves node `src[e]`
/// and enters node `dst[e]`, nodes being named by `names`.
spec fn interned(
    edges: Seq<(String, String)>,
    names: Seq<String>,
    src: Seq<usize>,
    dst: Seq<usize>,
) -> bool {
    &&& src.len() == dst.len()
    &&& src.len() <= edges.len()
    &&& distinct_names(names)
    &&& forall|e: int|
        0 <= e < src.len() ==> #[trigger] src[e] < names.len() && names[src[e] as int]@
            == edges[e].0@
    &&& forall|e: int|
        0 <= e < dst.len() ==> #[trigger] dst[e] < names.len() && names[dst[e] as int]@
            == edges[e].1@
}

/// `adj[u]` lists exactly the edges that leave node `u`.
spec fn adjacency(adj: Seq<Vec<usize>>, src: Seq<usize>) -> bool {
    &&& forall|e: int| 0 <= e < src.len() ==> #[trigger] src[e] < adj.len()
    &&& forall|u: int, k: int|
        0 <= u < adj.len() && 0 <= k < adj[u]@.len() ==> #[trigger] adj[u]@[k] < src.len()
            && src[adj[u]@[k] as int] == u
    &&& forall|e: int|
        0 <= e < src.len() ==> src[e] < adj.len() && #[trigger] adj[src[e] as int]@.contains(
            e as usize,
        )
}

/// Depth-first search state: colour 1 marks the nodes on the current path
/// (`stack`), colour 2 the finished ones; a finished node has a stamp below
/// `count`, and every edge out of a finished node enters a finished node
/// with a smaller stamp.
spec fn search_state(
    n: int,
    src: Seq<usize>,
    dst: Seq<usize>,
    color: Seq<u8>,
    stamp: Seq<int>,
    count: int,
    stack: Seq<int>,
) -> bool {
    &&& color.len() == n
    &&& stamp.len() == n
    &&& forall|x: int| 0 <= x < n ==> #[trigger] color[x] <= 2
    &&& forall|x: int| 0 <= x < n ==> (#[trigger] color[x] == 1 <==> stack.contains(x))
    &&& forall|k: int| 0 <= k < stack.len() ==> 0 <= #[trigger] stack[k] < n
    &&& stack.no_duplicates()
    &&& forall|x: int| 0 <= x < n && #[trigger] color[x] == 2 ==> stamp[x] < count
    &&& forall|e: int|
        0 <= e < src.len() && color[src[e] as int] == 2 ==> color[#[trigger] dst[e] as int] == 2
            && stamp[dst[e] as int] < stamp[src[e] as int]
}

/// `path_edges[k]` leads from `stack[k]` to the next node of the path, the
/// last one to `u`.
spec fn path_to(
    src: Seq<usize>,
    dst: Seq<usize>,
    stack: Seq<int>,
    path_edges: Seq<int>,
    u: int,
) -> bool {
    &&& path_edges.len() == stack.len()
    &&& forall|k: int|
        0 <= k < path_edges.len() ==> 0 <= #[trigger] path_edges[k] < src.len()
            && src[path_edges[k]] == stack[k] && dst[path_edges[k]] == (if k + 1
            < stack.len() {
            stack[k + 1]
        } else {
            u
        })
}

proof fn lemma_distinct_bound(s: Seq<int>, n: int)
    requires
        s.no_duplicates(),
        0 <= n,
        forall|k: int| 0 <= k < s.len() ==> 0 <= #[trigger] s[k] < n,
    ensures
        s.len() <= n,
{
    s.unique_seq_to_set();
    vstd::set_lib::lemma_int_range(0, n);
    assert(s.to_set().subset_of(set_int_range(0, n)));
    vstd::set_lib::lemma_len_subset(s.to_set(), set_int_range(0, n));
}

/// A path closed by an edge into one of its nodes is a cycle.
proof fn lemma_closed_path(
    src: Seq<usize>,
    dst: Seq<usize>,
    stack: Seq<int>,
    path_edges: Seq<int>,
    u: int,
    e: int,
    j: int,
)
    requires
        path_to(src, dst, stack, path_edges, u),
        0 <= e < src.len(),
        src.len() == dst.len(),
        src[e] == u,
        0 <= j <= stack.len(),
        dst[e] == stack.push(u)[j],
    ensures
        has_id_cycle(src, dst),
{
    let walk = path_edges.subrange(j, path_edges.len() as int).push(e);
    let len = path_edges.len() as int;
    assert forall|k: int| 0 <= k < walk.len() - 1 implies #[trigger] id_joins(
        src,
        dst,
        walk[k],
        walk[k + 1],
    ) by {
        assert(walk[k] == path_edges[j + k]);
        if j + k + 1 < len {
            assert(walk[k + 1] == path_edges[j + k + 1]);
        } else {
            assert(walk[k + 1] == e);
        }
    }
    if j < len {
        assert(walk[0] == path_edges[j]);
    }
    assert(is_id_cycle(src, dst, walk));
}

/// Along a walk whose nodes are all finished, stamps strictly decrease.
proof fn lemma_stamps_decrease(
    n: int,
    src: Seq<usize>,
    dst: Seq<usize>,
    color: Seq<u8>,
    stamp: Seq<int>,
    count: int,
    walk: Seq<int>,
    k: int,
)
    requires
        search_state(n, src, dst, color, stamp, count, Seq::empty()),
        src.len() == dst.len(),
        forall|e: int| 0 <= e < src.len() ==> #[trigger] src[e] < n && dst[e] < n,
        forall|x: int| 0 <= x < n ==> #[trigger] color[x] == 2,
        is_id_cycle(src, dst, walk),
        0 <= k < walk.len(),
    ensures
        stamp[dst[walk[k]] as int] <= stamp[src[walk[0]] as int] - k - 1,
    decreases k,
{
    let w = walk[k];
    assert(color[src[w] as int] == 2);
    assert(dst[w] < n);
    if k > 0 {
        let j = k - 1;
        lemma_stamps_decrease(n, src, dst, color, stamp, count, walk, j);
        assert(id_joins(src, dst, walk[j], walk[j + 1]));
    }
}

proof fn lemma_all_finished_acyclic(
    n: int,
    src: Seq<usize>,
    dst: Seq<usize>,
    color: Seq<u8>,
    stamp: Seq<int>,
    count: int,
)
    requires
        search_state(n, src, dst, color, stamp, count, Seq::empty()),
        src.len() == dst.len(),
        forall|e: int| 0 <= e < src.len() ==> #[trigger] src[e] < n && dst[e] < n,
        forall|x: int| 0 <= x < n ==> #[trigger] color[x] == 2,
    ensures
        !has_id_cycle(src, dst),
{
    if has_id_cycle(src, dst) {
        let walk = choose|walk: Seq<int>| is_id_cycle(src, dst, walk);
        lemma_stamps_decrease(n, src, dst, color, stamp, count, walk, walk.len() - 1);
        assert(id_joins(src, dst, walk.last(), walk[0]));
    }
}

/// Cycles over names and over node numbers are the same walks.
proof fn lemma_cycles_agree(
    edges: Seq<(String, String)>,
    names: Seq<String>,
    src: Seq<usize>,
    dst: Seq<usize>,
)
    requires
        interned(edges, names, src, dst),
        src.len() == edges.len(),
    ensures
        has_cycle(edges) == has_id_cycle(src, dst),
{
    assert forall|a: int, b: int|
        0 <= a < edges.len() && 0 <= b < edges.len() implies (joins(edges, a, b) <==> id_joins(
        src,
        dst,
        a,
        b,
    )) by {
        assert(src[b] < names.len() && dst[a] < names.len());
        if dst[a] != src[b] {
            assert(names[dst[a] as int]@ != names[src[b] as int]@);
        }
    }
    if has_cycle(edges) {
        let walk = choose|walk: Seq<int>| is_cycle(edges, walk);
        assert forall|k: int| 0 <= k < walk.len() - 1 implies #[trigger] id_joins(
            src,
            dst,
            walk[k],
            walk[k + 1],
        ) by {
            assert(joins(edges, walk[k], walk[k + 1]));
        }
        assert(is_id_cycle(src, dst, walk));
    }
    if has_id_cycle(src, dst) {
        let walk = choose|walk: Seq<int>| is_id_cycle(src, dst, walk);
        assert forall|k: int| 0 <= k < walk.len() - 1 implies #[trigger] joins(
            edges,
            walk[k],
            walk[k + 1],
        ) by {
            assert(id_joins(src, dst, walk[k], walk[k + 1]));
        }
        assert(is_cycle(edges, walk));
    }
}

/// The number of the node named `name`, added at the end when new.
fn intern(nodes: &mut Vec<String>, adj: &mut Vec<Vec<usize>>, name: &String) -> (idx: usize)
    requires
        distinct_names(old(nodes)@),
        old(adj)@.len() == old(nodes)@.len(),
    ensures
        distinct_names(final(nodes)@),
        idx < final(nodes)@.len(),
        final(nodes)@[idx as int]@ == name@,
        old(nodes)@.len() <= final(nodes)@.len() <= old(nodes)@.len() + 1,
        forall|i: int| 0 <= i < old(nodes)@.len() ==> #[trigger] final(nodes)@[i] == old(nodes)@[i],
        final(adj)@.len() == final(nodes)@.len(),
        forall|i: int| 0 <= i < old(adj)@.len() ==> #[trigger] final(adj)@[i] == old(adj)@[i],
        forall|i: int|
            old(adj)@.len() <= i < final(adj)@.len() ==> (#[trigger] final(adj)@[i])@.len() == 0,
{
    let len = nodes.len();
    let mut j: usize = 0;
    while j < len
        invariant
            len == nodes@.len(),
            nodes@ == old(nodes)@,
            adj@ == old(adj)@,
            distinct_names(old(nodes)@),
            old(adj)@.len() == old(nodes)@.len(),
            forall|i: int| 0 <= i < j ==> (#[trigger] nodes@[i])@ != name@,
        decreases len - j,
    {
        if nodes[j] == *name {
            return j;
        }
        j = j + 1;
    }
    nodes.push(name.clone());
    adj.push(Vec::new());
    assert(distinct_names(nodes@)) by {
        assert forall|i: int, k: int|
            0 <= i < nodes@.len() && 0 <= k < nodes@.len() && i != k implies #[trigger] nodes@[i]@
            != #[trigger] nodes@[k]@ by {
            if i < len && k < len {
                assert(old(nodes)@[i]@ != old(nodes)@[k]@);
            }
        }
    }
    len
}

/// Depth-first search from the unvisited node `u`, reached along
/// `path_edges` from the nodes of `stack`. Returns `true` when it meets a
/// node of the current path, which closes a cycle; otherwise `u` and every
/// node it reaches end finished.
fn visit(
    u: usize,
    adj: &Vec<Vec<usize>>,
    dst_of: &Vec<usize>,
    color: &mut Vec<u8>,
    Ghost(src): Ghost<Seq<usize>>,
    Ghost(stack): Ghost<Seq<int>>,
    Ghost(path_edges): Ghost<Seq<int>>,
    stamp_in: Ghost<Seq<int>>,
    Ghost(count0): Ghost<int>,
) -> (res: (bool, Ghost<Seq<int>>, Ghost<int>))
    requires
        adjacency(adj@, src),
        src.len() == dst_of@.len(),
        forall|e: int| 0 <= e < src.len() ==> #[trigger] dst_of@[e] < adj@.len(),
        u < adj@.len(),
        old(color)@[u as int] == 0,
        search_state(adj@.len() as int, src, dst_of@, old(color)@, stamp_in@, count0, stack),
        path_to(src, dst_of@, stack, path_edges, u as int),
    ensures
        res.0 ==> has_id_cycle(src, dst_of@),
        !res.0 ==> search_state(
            adj@.len() as int,
            src,
            dst_of@,
            final(color)@,
            res.1@,
            res.2@,
            stack,
        ),
        !res.0 ==> final(color)@[u as int] == 2,
        !res.0 ==> count0 <= res.2@,
        !res.0 ==> forall|x: int|
            0 <= x < adj@.len() && #[trigger] old(color)@[x] == 2 ==> final(color)@[x] == 2
                && res.1@[x] == stamp_in@[x],
    decreases adj@.len() - stack.len(),
{
    let ghost n = adj@.len() as int;
    let ghost gstack = stack.push(u as int);
    proof {
        assert(!stack.contains(u as int));
        assert(gstack.no_duplicates()) by {
            assert forall|i: int, j: int|
                0 <= i < gstack.len() && 0 <= j < gstack.len() && i != j implies gstack[i]
                != gstack[j] by {
                if i < stack.len() && j < stack.len() {
                } else if i < stack.len() {
                    assert(stack.contains(stack[i]));
                } else if j < stack.len() {
                    assert(stack.contains(stack[j]));
                }
            }
        }
        assert forall|k: int| 0 <= k < gstack.len() implies 0 <= #[trigger] gstack[k] < n by {
            if k < stack.len() {
                assert(gstack[k] == stack[k]);
            }
        }
        lemma_distinct_bound(gstack, n);
    }
    color.set(u, 1);
    let ghost stamp0 = stamp_in@;
    let ghost mut stamp = stamp0;
    let ghost mut count = count0;
    proof {
        assert forall|x: int| 0 <= x < n implies (#[trigger] color@[x] == 1 <==> gstack.contains(
            x,
        )) by {
            if x != u {
                assert(old(color)@[x] == color@[x]);
                if stack.contains(x) {
                    let k = choose|k: int| 0 <= k < stack.len() && stack[k] == x;
                    assert(gstack[k] == x);
                }
                if gstack.contains(x) {
                    let k = choose|k: int| 0 <= k < gstack.len() && gstack[k] == x;
                    assert(k < stack.len());
                    assert(stack[k] == x);
                }
            } else {
                assert(gstack[stack.len() as int] == x);
            }
        }
        assert forall|x: int| 0 <= x < n && #[trigger] color@[x] == 2 implies stamp[x] < count by {
            assert(old(color)@[x] == color@[x]);
        }
        assert forall|e: int| 0 <= e < src.len() && color@[src[e] as int] == 2 implies color@[#[trigger] dst_of@[e] as int] == 2
            && stamp[dst_of@[e] as int] < stamp[src[e] as int] by {
            assert(src[e] < n);
            assert(old(color)@[src[e] as int] == color@[src[e] as int]);
            assert(old(color)@[dst_of@[e] as int] == 2);
        }
        assert forall|x: int| 0 <= x < n implies #[trigger] color@[x] <= 2 by {
            assert(old(color)@[x] <= 2 || x == u);
        }
    }
    let row = &adj[u];
    let row_len = row.len();
    let mut k: usize = 0;
    while k < row_len
        invariant
            n == adj@.len(),
            row_len == row@.len(),
            row@ == adj@[u as int]@,
            u < n,
            adjacency(adj@, src),
            src.len() == dst_of@.len(),
            forall|e: int| 0 <= e < src.len() ==> #[trigger] dst_of@[e] < n,
            gstack == stack.push(u as int),
            gstack.len() <= n,
            path_to(src, dst_of@, stack, path_edges, u as int),
            search_state(n, src, dst_of@, color@, stamp, count, gstack),
            color@[u as int] == 1,
            count0 <= count,
            forall|j: int|
                0 <= j < k ==> color@[#[trigger] dst_of@[row@[j] as int] as int] == 2
                    && stamp[dst_of@[row@[j] as int] as int] < count,
            forall|x: int|
                0 <= x < n && #[trigger] old(color)@[x] == 2 ==> color@[x] == 2 && stamp[x]
                    == stamp0[x],
        decreases row_len - k,
    {
        let e = row[k];
        let v = dst_of[e];
        proof {
            assert(src[e as int] == u);
        }
        if color[v] == 1 {
            proof {
                assert(gstack.contains(v as int));
                let j = choose|j: int| 0 <= j < gstack.len() && gstack[j] == v as int;
                lemma_closed_path(src, dst_of@, stack, path_edges, u as int, e as int, j);
            }
            return (true, Ghost(stamp), Ghost(count));
        } else if color[v] == 0 {
            let ghost before = color@;
            let ghost stamp_before = stamp;
            let ghost count_before = count;
            let ghost path2 = path_edges.push(e as int);
            proof {
                assert(!gstack.contains(v as int));
                assert forall|q: int| 0 <= q < path2.len() implies 0 <= #[trigger] path2[q]
                    < src.len() && src[path2[q]] == gstack[q] && dst_of@[path2[q]] == (if q + 1
                    < gstack.len() {
                    gstack[q + 1]
                } else {
                    v as int
                }) by {
                    if q < path_edges.len() {
                        assert(path2[q] == path_edges[q]);
                        assert(gstack[q] == stack[q]);
                        if q + 1 < stack.len() {
                            assert(gstack[q + 1] == stack[q + 1]);
                        }
                    }
                }
                assert(path_to(src, dst_of@, gstack, path2, v as int));
            }
            let (found, Ghost(stamp2), Ghost(count2)) = visit(
                v,
                adj,
                dst_of,
                color,
                Ghost(src),
                Ghost(gstack),
                Ghost(path2),
                Ghost(stamp),
                Ghost(count),
            );
            if found {
                return (true, Ghost(stamp2), Ghost(count2));
            }
            proof {
                stamp = stamp2;
                count = count2;
                assert forall|j: int| 0 <= j < k implies color@[#[trigger] dst_of@[row@[j] as int] as int] == 2
                    && stamp[dst_of@[row@[j] as int] as int] < count by {
                    let w = dst_of@[row@[j] as int] as int;
                    assert(before[w] == 2);
                    assert(stamp_before[w] < count_before);
                    assert(w < n);
                    assert(color@[w] == 2);
                    assert(stamp2[w] == stamp_before[w]);
                }
                assert forall|x: int| 0 <= x < n && #[trigger] old(color)@[x] == 2 implies color@[x] == 2
                    && stamp[x] == stamp0[x] by {
                    assert(before[x] == 2);
                    assert(stamp_before[x] == stamp0[x]);
                    assert(color@[x] == 2);
                    assert(stamp2[x] == stamp_before[x]);
                }
            }
        }
        k = k + 1;
    }
    let ghost before = color@;
    color.set(u, 2);
    proof {
        let old_count = count;
        stamp = stamp.update(u as int, old_count);
        count = old_count + 1;
        assert forall|x: int| 0 <= x < n implies (#[trigger] color@[x] == 1 <==> stack.contains(
            x,
        )) by {
            if x != u {
                assert(before[x] == color@[x]);
                if stack.contains(x) {
                    let q = choose|q: int| 0 <= q < stack.len() && stack[q] == x;
                    assert(gstack[q] == x);
                }
                if gstack.contains(x) {
                    let q = choose|q: int| 0 <= q < gstack.len() && gstack[q] == x;
                    assert(q < stack.len());
                }
            } else {
                assert(gstack[stack.len() as int] == u);
                if stack.contains(x) {
                    let q = choose|q: int| 0 <= q < stack.len() && stack[q] == x;
                    assert(gstack[q] == gstack[stack.len() as int]);
                }
            }
        }
        assert forall|e: int| 0 <= e < src.len() && color@[src[e] as int] == 2 implies color@[#[trigger] dst_of@[e] as int] == 2
            && stamp[dst_of@[e] as int] < stamp[src[e] as int] by {
            if src[e] as int == u as int {
                assert(adj@[u as int]@.contains(e as usize));
                let j = choose|j: int| 0 <= j < row@.len() && row@[j] == e as usize;
                let d = dst_of@[e] as int;
                assert(dst_of.len() == dst_of@.len());
                assert(row@[j] as int == e);
                assert(before[dst_of@[row@[j] as int] as int] == 2);
                assert(before[d] == 2);
                assert(d != u);
                assert(color@[d] == before[d]);
                assert(stamp[d] < old_count);
            } else {
                assert(src[e] < n);
                assert(before[src[e] as int] == color@[src[e] as int]);
                assert(before[src[e] as int] == 2);
                assert(before[dst_of@[e] as int] == 2);
                assert(dst_of@[e] != u);
            }
        }
        assert forall|k2: int| 0 <= k2 < stack.len() implies 0 <= #[trigger] stack[k2] < n by {
            assert(gstack[k2] == stack[k2]);
        }
        assert forall|x: int| 0 <= x < n && #[trigger] color@[x] == 2 implies stamp[x] < count by {
            if x != u {
                assert(before[x] == 2);
            }
        }
    }
    proof {
        assert forall|x: int| 0 <= x < n && #[trigger] old(color)@[x] == 2 implies color@[x] == 2
            && stamp[x] == stamp0[x] by {
            assert(x != u);
            assert(before[x] == 2);
        }
        assert(count0 <= count);
    }
    (false, Ghost(stamp), Ghost(count))
}

/// Whether the edges hold a cycle, found by numbering the named blocks and
/// searching depth first from each. A self-dependency is found while the
/// edges are read.
pub fn contains_cycle(edges: &[(String, String)]) -> (r: bool)
    ensures
        r == has_cycle(edges@),
{
    let m = edges.len();
    let mut nodes: Vec<String> = Vec::new();
    let mut adj: Vec<Vec<usize>> = Vec::new();
    let mut src_of: Vec<usize> = Vec::new();
    let mut dst_of: Vec<usize> = Vec::new();
    let mut i: usize = 0;
    while i < m
        invariant
            m == edges@.len(),
            i <= m,
            src_of@.len() == i,
            interned(edges@, nodes@, src_of@, dst_of@),
            adj@.len() == nodes@.len(),
            adjacency(adj@, src_of@),
        decreases m - i,
    {
        let from = &edges[i].0;
        let to = &edges[i].1;
        if *from == *to {
            proof {
                let walk = seq![i as int];
                assert(joins(edges@, walk.last(), walk[0]));
                assert(is_cycle(edges@, walk));
            }
            return true;
        }
        let ghost adj0 = adj@;
        let ghost nodes0 = nodes@;
        let a = intern(&mut nodes, &mut adj, from);
        let ghost adj1 = adj@;
        let ghost nodes1 = nodes@;
        let b = intern(&mut nodes, &mut adj, to);
        let ghost adj2 = adj@;
        let ghost old_src = src_of@;
        src_of.push(a);
        dst_of.push(b);
        adj[a].push(i);
        proof {
            assert(nodes@[a as int] == nodes1[a as int]);
            assert forall|e: int| 0 <= e < src_of@.len() implies #[trigger] src_of@[e]
                < nodes@.len() && nodes@[src_of@[e] as int]@ == edges@[e].0@ by {
                if e < i {
                    assert(src_of@[e] == old_src[e]);
                    assert(nodes@[src_of@[e] as int] == nodes0[src_of@[e] as int]);
                }
            }
            assert forall|e: int| 0 <= e < dst_of@.len() implies #[trigger] dst_of@[e]
                < nodes@.len() && nodes@[dst_of@[e] as int]@ == edges@[e].1@ by {
                if e < i {
                    assert(nodes@[dst_of@[e] as int] == nodes0[dst_of@[e] as int]);
                }
            }
            assert forall|u: int, k: int|
                0 <= u < adj@.len() && 0 <= k < adj@[u]@.len() implies #[trigger] adj@[u]@[k]
                < src_of@.len() && src_of@[adj@[u]@[k] as int] == u by {
                if u != a {
                    assert(adj@[u] == adj2[u]);
                    if u < adj0.len() {
                        assert(adj2[u] == adj0[u]);
                    }
                } else {
                    if k < adj2[u]@.len() {
                        assert(adj@[u]@[k] == adj2[u]@[k]);
                        if u < adj0.len() {
                            assert(adj2[u] == adj0[u]);
                        }
                    }
                }
            }
            assert forall|e: int| 0 <= e < src_of@.len() implies src_of@[e] < adj@.len()
                && #[trigger] adj@[src_of@[e] as int]@.contains(e as usize) by {
                if e < i {
                    let s = src_of@[e] as int;
                    assert(adj0[s]@.contains(e as usize));
                    assert(adj2[s] == adj0[s]);
                    let q = choose|q: int| 0 <= q < adj0[s]@.len() && adj0[s]@[q] == e as usize;
                    assert(adj@[s]@[q] == e as usize);
                } else {
                    assert(adj@[a as int]@[adj2[a as int]@.len() as int] == i);
                }
            }
        }
        i = i + 1;
    }
    proof {
        lemma_cycles_agree(edges@, nodes@, src_of@, dst_of@);
    }
    let n = nodes.len();
    let mut color: Vec<u8> = Vec::new();
    let mut x: usize = 0;
    while x < n
        invariant
            color@.len() == x,
            x <= n,
            forall|y: int| 0 <= y < x ==> #[trigger] color@[y] == 0,
        decreases n - x,
    {
        color.push(0);
        x = x + 1;
    }
    let ghost mut stamp: Seq<int> = Seq::new(n as nat, |y: int| 0int);
    let ghost mut count: int = 0;
    let mut x: usize = 0;
    while x < n
        invariant
            n == adj@.len(),
            adjacency(adj@, src_of@),
            src_of@.len() == dst_of@.len(),
            forall|e: int| 0 <= e < src_of@.len() ==> #[trigger] dst_of@[e] < n && src_of@[e] < n,
            search_state(n as int, src_of@, dst_of@, color@, stamp, count, Seq::empty()),
            forall|y: int| 0 <= y < x ==> #[trigger] color@[y] == 2,
            x <= n,
            has_cycle(edges@) == has_id_cycle(src_of@, dst_of@),
        decreases n - x,
    {
        if color[x] == 0 {
            let ghost before = color@;
            let (found, Ghost(stamp2), Ghost(count2)) = visit(
                x,
                &adj,
                &dst_of,
                &mut color,
                Ghost(src_of@),
                Ghost(Seq::empty()),
                Ghost(Seq::empty()),
                Ghost(stamp),
                Ghost(count),
            );
            if found {
                return true;
            }
            proof {
                stamp = stamp2;
                count = count2;
                assert forall|y: int| 0 <= y < x + 1 implies #[trigger] color@[y] == 2 by {
                    if y < x {
                        assert(before[y] == 2);
                    }
                }
            }
        } else {
            proof {
                assert(!Seq::<int>::empty().contains(x as int));
            }
        }
        x = x + 1;
    }
    proof {
        lemma_all_finished_acyclic(n as int, src_of@, dst_of@, color@, stamp, count);
    }
    false
}

} // verus!
