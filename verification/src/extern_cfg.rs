//! Reconstruction of internal control-flow graphs from flat descriptor
//! tables: one entry/exit pair per function and one record per block, with
//! the record's position as its block identifier.

use crate::convert::{Cfg, Node};
use vstd::prelude::*;

verus! {

/// One function in the descriptor table: the identifiers of its entry and
/// exit blocks.
#[derive(Debug, Clone, Copy, PartialEq, Eq, Structural)]
pub struct CfgDesc {
    pub entry: i32,
    pub exit: i32,
}

/// One basic block in the descriptor table: the identifier of the callee
/// when the block is a call block, -1 otherwise, and the identifiers of the
/// successor blocks. A block's own identifier is its index in the table.
#[derive(Debug)]
pub struct BlockDesc {
    pub calls: i32,
    pub successors: Vec<i32>,
}

/// The CFG node a block record stands for.
pub open spec fn node_of(b: BlockDesc, id: i32) -> Node {
    if b.calls == -1 {
        Node::Literal(id)
    } else {
        Node::Var(b.calls)
    }
}

/// Whether `b` is a valid index into the block table.
pub open spec fn valid_block(blocks: Seq<BlockDesc>, b: i32) -> bool {
    0 <= b < blocks.len()
}

/// Whether block `b` is a listed successor of the valid block `a`.
pub open spec fn block_step(blocks: Seq<BlockDesc>, a: int, b: int) -> bool {
    &&& 0 <= a < blocks.len()
    &&& exists|j: int|
        0 <= j < blocks[a].successors@.len() && (#[trigger] blocks[a].successors@[j]) as int == b
}

/// Whether `p` is a walk from `a` to `b` along the successor relation.
pub open spec fn block_is_walk(blocks: Seq<BlockDesc>, p: Seq<int>, a: int, b: int) -> bool {
    &&& p.len() >= 1
    &&& p[0] == a
    &&& p.last() == b
    &&& forall|i: int| 0 <= i < p.len() - 1 ==> block_step(blocks, #[trigger] p[i], p[i + 1])
}

/// Whether block `b` is reachable from block `a`; every block reaches
/// itself by the one-block walk.
pub open spec fn block_reaches(blocks: Seq<BlockDesc>, a: int, b: int) -> bool {
    exists|p: Seq<int>| block_is_walk(blocks, p, a, b)
}

/// Whether every identifier reachable from `entry` is a valid index into
/// the table; `entry` itself is reachable, so this includes its validity.
pub open spec fn reachable_ok(blocks: Seq<BlockDesc>, entry: int) -> bool {
    forall|b: int| block_reaches(blocks, entry, b) ==> valid_block(blocks, b as i32)
}

/// Every block reaches itself.
proof fn lemma_block_reaches_refl(blocks: Seq<BlockDesc>, a: int)
    ensures
        block_reaches(blocks, a, a),
{
    assert(block_is_walk(blocks, seq![a], a, a));
}

/// Reachability extends along one successor step.
proof fn lemma_block_reaches_step(blocks: Seq<BlockDesc>, a: int, b: int, c: int)
    requires
        block_reaches(blocks, a, b),
        block_step(blocks, b, c),
    ensures
        block_reaches(blocks, a, c),
{
    let p = choose|p: Seq<int>| block_is_walk(blocks, p, a, b);
    let q = p.push(c);
    assert(block_is_walk(blocks, q, a, c)) by {
        assert(q[0] == p[0]);
        assert(q.last() == c);
        assert forall|i: int| 0 <= i < q.len() - 1 implies block_step(
            blocks,
            #[trigger] q[i],
            q[i + 1],
        ) by {
            if i < p.len() - 1 {
                assert(q[i] == p[i] && q[i + 1] == p[i + 1]);
            } else {
                assert(q[i] == p.last() && q[i + 1] == c);
            }
        }
    }
}

/// A walk from a member of a successor-closed identifier list ends inside
/// the list.
proof fn lemma_walk_stays_in_closed(blocks: Seq<BlockDesc>, order: Seq<i32>, p: Seq<int>, a: int, b: int)
    requires
        block_is_walk(blocks, p, a, b),
        order.contains(a as i32),
        a == a as i32 as int,
        forall|i: int| 0 <= i < order.len() ==> valid_block(blocks, #[trigger] order[i]),
        forall|i: int, j: int|
            0 <= i < order.len() && 0 <= j < blocks[order[i] as int].successors@.len()
                ==> order.contains(#[trigger] blocks[order[i] as int].successors@[j]),
    ensures
        order.contains(b as i32),
        b == b as i32 as int,
    decreases p.len(),
{
    if p.len() == 1 {
    } else {
        let q = p.drop_last();
        let m = p[p.len() - 2];
        assert(block_is_walk(blocks, q, a, m)) by {
            assert forall|i: int| 0 <= i < q.len() - 1 implies block_step(
                blocks,
                #[trigger] q[i],
                q[i + 1],
            ) by {
                assert(q[i] == p[i] && q[i + 1] == p[i + 1]);
                assert(block_step(blocks, p[i], p[i + 1]));
            }
        }
        lemma_walk_stays_in_closed(blocks, order, q, a, m);
        assert(block_step(blocks, m, b));
        let w = choose|w: int| 0 <= w < order.len() && order[w] == m as i32;
        let j = choose|j: int|
            0 <= j < blocks[m].successors@.len() && (#[trigger] blocks[m].successors@[j]) as int
                == b;
        assert(order.contains(blocks[order[w] as int].successors@[j]));
    }
}

/// The reconstructed graph `g` matches the block table along the identifier
/// list `ids`: node `i` stands for block `ids[i]`, carries its tag, and its
/// successor edges point at the nodes of that block's successor
/// identifiers, in order.
pub open spec fn cfg_matches(
    g: Cfg,
    ids: Seq<i32>,
    blocks: Seq<BlockDesc>,
    entry: i32,
    exit: i32,
) -> bool {
    &&& g.nodes@.len() == ids.len()
    &&& g.succs@.len() == ids.len()
    &&& ids.no_duplicates()
    &&& forall|i: int| 0 <= i < ids.len() ==> valid_block(blocks, #[trigger] ids[i])
    &&& forall|i: int|
        0 <= i < ids.len() ==> #[trigger] g.nodes@[i] == node_of(blocks[ids[i] as int], ids[i])
    &&& forall|i: int|
        0 <= i < ids.len() ==> (#[trigger] g.succs@[i])@.len() == blocks[ids[i] as int].successors@.len()
    &&& forall|i: int, j: int|
        0 <= i < ids.len() && 0 <= j < g.succs@[i]@.len() ==> (#[trigger] g.succs@[i]@[j])
            < ids.len() && ids[g.succs@[i]@[j] as int] == blocks[ids[i] as int].successors@[j]
    &&& g.entry < ids.len() && ids[g.entry as int] == entry
    &&& g.exit < ids.len() && ids[g.exit as int] == exit
}

/// The identifiers reachable from `entry` through the successor relation,
/// in depth-first order: no duplicates, all valid, starting at `entry`, and
/// closed under successors. `None` when `entry` or a reachable successor is
/// not a valid index into the table.
fn dfs_blocks(blocks: &Vec<BlockDesc>, entry: i32) -> (r: Option<Vec<i32>>)
    ensures
        match r {
            Some(ids) => {
                &&& ids@.no_duplicates()
                &&& ids@.len() >= 1 && ids@[0] == entry
                &&& forall|i: int| 0 <= i < ids@.len() ==> valid_block(blocks@, #[trigger] ids@[i])
                &&& forall|i: int, j: int|
                    0 <= i < ids@.len() && 0 <= j
                        < blocks@[ids@[i] as int].successors@.len() ==> ids@.contains(
                        #[trigger] blocks@[ids@[i] as int].successors@[j],
                    )
                &&& forall|b: i32|
                    #[trigger] ids@.contains(b) <==> block_reaches(blocks@, entry as int, b as int)
                &&& reachable_ok(blocks@, entry as int)
            },
            None => !reachable_ok(blocks@, entry as int),
        },
{
    if entry < 0 || entry as usize >= blocks.len() {
        proof {
            lemma_block_reaches_refl(blocks@, entry as int);
        }
        return None;
    }
    let n = blocks.len();
    let mut seen: Vec<bool> = vec![false; n];
    let mut order: Vec<i32> = Vec::new();
    let mut to_visit: Vec<i32> = Vec::new();
    to_visit.push(entry);
    proof {
        assert(to_visit@ =~= seq![entry]);
        crate::convert::lemma_num_alive_le(seen@);
        lemma_block_reaches_refl(blocks@, entry as int);
    }
    loop
        invariant
            n == blocks@.len(),
            seen@.len() == n,
            order@.no_duplicates(),
            forall|b: i32|
                #[trigger] order@.contains(b) <==> (0 <= b < n && seen@[b as int]),
            forall|i: int| 0 <= i < order@.len() ==> valid_block(blocks@, #[trigger] order@[i]),
            forall|i: int| 0 <= i < to_visit@.len() ==> valid_block(blocks@, #[trigger] to_visit@[i]),
            forall|i: int|
                0 <= i < order@.len() ==> block_reaches(
                    blocks@,
                    entry as int,
                    (#[trigger] order@[i]) as int,
                ),
            forall|i: int|
                0 <= i < to_visit@.len() ==> block_reaches(
                    blocks@,
                    entry as int,
                    (#[trigger] to_visit@[i]) as int,
                ),
            order@.len() > 0 ==> order@[0] == entry,
            order@.len() == 0 ==> to_visit@ == seq![entry],
            forall|i: int, j: int|
                0 <= i < order@.len() && 0 <= j
                    < blocks@[order@[i] as int].successors@.len() ==> order@.contains(
                    #[trigger] blocks@[order@[i] as int].successors@[j],
                ) || to_visit@.contains(blocks@[order@[i] as int].successors@[j]),
        ensures
            order@.len() >= 1 && order@[0] == entry,
            order@.no_duplicates(),
            forall|i: int| 0 <= i < order@.len() ==> valid_block(blocks@, #[trigger] order@[i]),
            forall|i: int|
                0 <= i < order@.len() ==> block_reaches(
                    blocks@,
                    entry as int,
                    (#[trigger] order@[i]) as int,
                ),
            forall|i: int, j: int|
                0 <= i < order@.len() && 0 <= j
                    < blocks@[order@[i] as int].successors@.len() ==> order@.contains(
                    #[trigger] blocks@[order@[i] as int].successors@[j],
                ),
        decreases seen@.len() - crate::convert::num_alive(seen@), to_visit@.len(),
    {
        proof {
            crate::convert::lemma_num_alive_le(seen@);
        }
        let ghost tv_before = to_visit@;
        let next = match to_visit.pop() {
            Some(b) => b,
            None => {
                proof {
                    assert(order@.len() >= 1) by {
                        if order@.len() == 0 {
                            assert(tv_before.len() == 1);
                        }
                    }
                    assert forall|i: int, j: int|
                        0 <= i < order@.len() && 0 <= j
                            < blocks@[order@[i] as int].successors@.len() implies order@.contains(
                        #[trigger] blocks@[order@[i] as int].successors@[j],
                    ) by {
                        let s = blocks@[order@[i] as int].successors@[j];
                        if to_visit@.contains(s) {
                            let w = choose|w: int| 0 <= w < to_visit@.len() && to_visit@[w] == s;
                        }
                    }
                }
                break ;
            },
        };
        // after the pop, anything scheduled is still scheduled or is `next`
        proof {
            assert(block_reaches(blocks@, entry as int, next as int)) by {
                assert(tv_before[tv_before.len() - 1] == next);
            }
            assert forall|s: i32| tv_before.contains(s) implies to_visit@.contains(s) || s
                == next by {
                let w = choose|w: int| 0 <= w < tv_before.len() && tv_before[w] == s;
                if w < tv_before.len() - 1 {
                    assert(to_visit@[w] == s);
                }
            }
        }
        if seen[next as usize] {
            proof {
                assert(order@.contains(next));
            }
            continue ;
        }
        let ghost order_before = order@;
        let ghost seen_before = seen@;
        proof {
            crate::convert::lemma_num_alive_set(seen@, next as int);
            crate::convert::lemma_num_alive_lt(seen@, next as int);
        }
        seen[next as usize] = true;
        order.push(next);
        proof {
            assert(order@.drop_last() =~= order_before);
            assert(order@[order@.len() - 1] == next);
            assert(!order_before.contains(next));
            assert forall|b: i32| #[trigger] order@.contains(b) implies (0 <= b < n && seen@[b as int]) by {
                let w = choose|w: int| 0 <= w < order@.len() && order@[w] == b;
                if w < order_before.len() {
                    assert(order_before[w] == b);
                    assert(order_before.contains(b));
                }
            }
            assert forall|b: i32| (0 <= b < n && seen@[b as int]) implies #[trigger] order@.contains(b) by {
                if b == next {
                    assert(order@[order@.len() - 1] == b);
                } else {
                    assert(seen_before[b as int]);
                    assert(order_before.contains(b));
                    let w = choose|w: int| 0 <= w < order_before.len() && order_before[w] == b;
                    assert(order@[w] == b);
                }
            }
            assert forall|s: i32| order_before.contains(s) implies order@.contains(s) by {
                let w = choose|w: int| 0 <= w < order_before.len() && order_before[w] == s;
                assert(order@[w] == s);
            }
            assert(order@.contains(next));
        }
        let mut j: usize = 0;
        let succ_len = blocks[next as usize].successors.len();
        while j < succ_len
            invariant
                n == blocks@.len(),
                seen@.len() == n,
                valid_block(blocks@, next),
                block_reaches(blocks@, entry as int, next as int),
                succ_len == blocks@[next as int].successors@.len(),
                j <= succ_len,
                order@.no_duplicates(),
                forall|b: i32|
                    #[trigger] order@.contains(b) <==> (0 <= b < n && seen@[b as int]),
                forall|i: int|
                    0 <= i < order@.len() ==> valid_block(blocks@, #[trigger] order@[i]),
                forall|i: int|
                    0 <= i < to_visit@.len() ==> valid_block(blocks@, #[trigger] to_visit@[i]),
                forall|i: int|
                    0 <= i < order@.len() ==> block_reaches(
                        blocks@,
                        entry as int,
                        (#[trigger] order@[i]) as int,
                    ),
                forall|i: int|
                    0 <= i < to_visit@.len() ==> block_reaches(
                        blocks@,
                        entry as int,
                        (#[trigger] to_visit@[i]) as int,
                    ),
                order@.len() > 0 && order@[0] == entry,
                order@.last() == next,
                forall|i: int, jj: int|
                    0 <= i < order@.len() - 1 && 0 <= jj
                        < blocks@[order@[i] as int].successors@.len() ==> order@.contains(
                        #[trigger] blocks@[order@[i] as int].successors@[jj],
                    ) || to_visit@.contains(blocks@[order@[i] as int].successors@[jj]),
                forall|jj: int|
                    0 <= jj < j ==> to_visit@.contains(
                        #[trigger] blocks@[next as int].successors@[jj],
                    ),
            decreases succ_len - j,
        {
            let s = blocks[next as usize].successors[j];
            proof {
                assert(block_step(blocks@, next as int, s as int)) by {
                    assert((blocks@[next as int].successors@[j as int]) as int == s as int);
                }
                lemma_block_reaches_step(blocks@, entry as int, next as int, s as int);
            }
            if s < 0 || s as usize >= n {
                proof {
                    assert(!valid_block(blocks@, (s as int) as i32));
                    assert(!reachable_ok(blocks@, entry as int));
                }
                return None;
            }
            let ghost tv_prev = to_visit@;
            to_visit.push(s);
            proof {
                assert forall|y: i32| tv_prev.contains(y) implies to_visit@.contains(y) by {
                    let w = choose|w: int| 0 <= w < tv_prev.len() && tv_prev[w] == y;
                    assert(to_visit@[w] == y);
                }
                assert(to_visit@[to_visit@.len() - 1] == s);
                assert(to_visit@.contains(s));
            }
            j = j + 1;
        }
        proof {
            assert forall|i: int, jj: int|
                0 <= i < order@.len() && 0 <= jj
                    < blocks@[order@[i] as int].successors@.len() implies order@.contains(
                #[trigger] blocks@[order@[i] as int].successors@[jj],
            ) || to_visit@.contains(blocks@[order@[i] as int].successors@[jj]) by {
                if i == order@.len() - 1 {
                    assert(order@[i] == next);
                }
            }
        }
    }
    proof {
        assert forall|b: i32|
            block_reaches(blocks@, entry as int, b as int) implies #[trigger] order@.contains(
            b,
        ) by {
            let p = choose|p: Seq<int>| block_is_walk(blocks@, p, entry as int, b as int);
            lemma_walk_stays_in_closed(blocks@, order@, p, entry as int, b as int);
        }
        assert forall|b: i32| #[trigger] order@.contains(b) implies block_reaches(
            blocks@,
            entry as int,
            b as int,
        ) by {
            let w = choose|w: int| 0 <= w < order@.len() && order@[w] == b;
        }
        assert forall|b: int| block_reaches(blocks@, entry as int, b) implies valid_block(
            blocks@,
            b as i32,
        ) by {
            let p = choose|p: Seq<int>| block_is_walk(blocks@, p, entry as int, b);
            lemma_walk_stays_in_closed(blocks@, order@, p, entry as int, b);
            let w = choose|w: int| 0 <= w < order@.len() && order@[w] == b as i32;
        }
    }
    Some(order)
}

/// Whether a vector contains a value.
fn vec_has(v: &Vec<i32>, x: i32) -> (r: bool)
    ensures
        r == v@.contains(x),
{
    let mut i: usize = 0;
    while i < v.len()
        invariant
            i <= v@.len(),
            forall|j: int| 0 <= j < i ==> v@[j] != x,
        decreases v@.len() - i,
    {
        if v[i] == x {
            return true;
        }
        i = i + 1;
    }
    false
}

/// Index of a block identifier in the identifier list.
fn idx_lookup(ids: &Vec<i32>, b: i32) -> (r: Option<usize>)
    ensures
        match r {
            Some(j) => j < ids@.len() && ids@[j as int] == b,
            None => !ids@.contains(b),
        },
{
    let mut i: usize = 0;
    while i < ids.len()
        invariant
            i <= ids@.len(),
            forall|j: int| 0 <= j < i ==> ids@[j] != b,
        decreases ids@.len() - i,
    {
        if ids[i] == b {
            return Some(i);
        }
        i = i + 1;
    }
    None
}

/// Reconstructs the control-flow graph rooted at `entry`: one node per
/// block reachable from `entry`, tagged as a call when the block calls a
/// function, with edges following the successor lists. `None` when a block
/// reference is out of range or the exit is not reachable from the entry.
pub fn get_cfg_with_root(entry: i32, exit: i32, blocks: &Vec<BlockDesc>) -> (r: Option<Cfg>)
    ensures
        r is Some <==> reachable_ok(blocks@, entry as int) && block_reaches(
            blocks@,
            entry as int,
            exit as int,
        ),
        match r {
            Some(g) => g.wf() && (exists|ids: Seq<i32>|
                cfg_matches(g, ids, blocks@, entry, exit) && (forall|b: i32|
                    #[trigger] ids.contains(b) <==> block_reaches(blocks@, entry as int, b as int))),
            None => true,
        },
{
    let ids = match dfs_blocks(blocks, entry) {
        Some(ids) => ids,
        None => {
            return None;
        },
    };
    let n = ids.len();
    let mut nodes: Vec<Node> = Vec::new();
    let mut i: usize = 0;
    while i < n
        invariant
            n == ids@.len(),
            forall|ii: int| 0 <= ii < ids@.len() ==> valid_block(blocks@, #[trigger] ids@[ii]),
            i <= n,
            nodes@.len() == i,
            forall|ii: int|
                0 <= ii < i ==> #[trigger] nodes@[ii] == node_of(
                    blocks@[ids@[ii] as int],
                    ids@[ii],
                ),
        decreases n - i,
    {
        let b = ids[i];
        let rec = &blocks[b as usize];
        if rec.calls == -1 {
            nodes.push(Node::Literal(b));
        } else {
            nodes.push(Node::Var(rec.calls));
        }
        i = i + 1;
    }
    let mut succs: Vec<Vec<usize>> = Vec::new();
    let mut i: usize = 0;
    while i < n
        invariant
            n == ids@.len(),
            forall|ii: int| 0 <= ii < ids@.len() ==> valid_block(blocks@, #[trigger] ids@[ii]),
            forall|ii: int, jj: int|
                0 <= ii < ids@.len() && 0 <= jj
                    < blocks@[ids@[ii] as int].successors@.len() ==> ids@.contains(
                    #[trigger] blocks@[ids@[ii] as int].successors@[jj],
                ),
            i <= n,
            succs@.len() == i,
            forall|ii: int|
                0 <= ii < i ==> (#[trigger] succs@[ii])@.len()
                    == blocks@[ids@[ii] as int].successors@.len(),
            forall|ii: int, j: int|
                0 <= ii < i && 0 <= j < succs@[ii]@.len() ==> (#[trigger] succs@[ii]@[j]) < n
                    && ids@[succs@[ii]@[j] as int] == blocks@[ids@[ii] as int].successors@[j],
        decreases n - i,
    {
        let b = ids[i];
        let succ_len = blocks[b as usize].successors.len();
        let mut row: Vec<usize> = Vec::new();
        let mut j: usize = 0;
        while j < succ_len
            invariant
                n == ids@.len(),
                i < n,
                b == ids@[i as int],
                valid_block(blocks@, b),
                succ_len == blocks@[b as int].successors@.len(),
                j <= succ_len,
                row@.len() == j,
                forall|jj: int|
                    0 <= jj < j ==> (#[trigger] row@[jj]) < n && ids@[row@[jj] as int]
                        == blocks@[b as int].successors@[jj],
                forall|ii: int, jj: int|
                    0 <= ii < ids@.len() && 0 <= jj
                        < blocks@[ids@[ii] as int].successors@.len() ==> ids@.contains(
                        #[trigger] blocks@[ids@[ii] as int].successors@[jj],
                    ),
            decreases succ_len - j,
        {
            let s = blocks[b as usize].successors[j];
            match idx_lookup(&ids, s) {
                Some(t) => {
                    row.push(t);
                },
                None => {
                    // never taken: the identifier list is successor-closed
                    proof {
                        assert(ids@.contains(blocks@[b as int].successors@[j as int]));
                        assert(false);
                    }
                    return None;
                },
            }
            j = j + 1;
        }
        succs.push(row);
        i = i + 1;
    }
    let entry_idx = match idx_lookup(&ids, entry) {
        Some(t) => t,
        None => {
            // never taken: the identifier list starts at the entry
            proof {
                assert(ids@[0] == entry);
                assert(ids@.contains(entry));
                assert(false);
            }
            return None;
        },
    };
    let exit_idx = match idx_lookup(&ids, exit) {
        Some(t) => t,
        None => {
            // the exit is not reachable from the entry
            proof {
                assert(!ids@.contains(exit));
            }
            return None;
        },
    };
    let g = Cfg { nodes, succs, entry: entry_idx, exit: exit_idx };
    proof {
        assert(cfg_matches(g, ids@, blocks@, entry, exit));
        assert(ids@.contains(exit)) by {
            assert(ids@[exit_idx as int] == exit);
        }
    }
    Some(g)
}

/// Reconstructs one control-flow graph per function descriptor; a
/// function's identifier is its index in the descriptor table.
pub fn process_cfgs(cfgs: &Vec<CfgDesc>, blocks: &Vec<BlockDesc>) -> (r: Option<Vec<(i32, Cfg)>>)
    requires
        cfgs@.len() < 0x8000_0000,
    ensures
        r is Some <==> forall|i: int|
            0 <= i < cfgs@.len() ==> reachable_ok(blocks@, (#[trigger] cfgs@[i]).entry as int)
                && block_reaches(blocks@, cfgs@[i].entry as int, cfgs@[i].exit as int),
        match r {
            Some(v) => {
                &&& v@.len() == cfgs@.len()
                &&& forall|i: int| 0 <= i < v@.len() ==> (#[trigger] v@[i]).0 == i as i32
                &&& forall|i: int|
                    0 <= i < v@.len() ==> (#[trigger] v@[i]).1.wf() && (exists|ids: Seq<i32>|
                        cfg_matches(v@[i].1, ids, blocks@, cfgs@[i].entry, cfgs@[i].exit) && (
                        forall|b: i32|
                            #[trigger] ids.contains(b) <==> block_reaches(
                                blocks@,
                                cfgs@[i].entry as int,
                                b as int,
                            )))
            },
            None => true,
        },
{
    let mut v: Vec<(i32, Cfg)> = Vec::new();
    let mut i: usize = 0;
    while i < cfgs.len()
        invariant
            cfgs@.len() < 0x8000_0000,
            i <= cfgs@.len(),
            v@.len() == i,
            forall|ii: int|
                0 <= ii < i ==> reachable_ok(blocks@, (#[trigger] cfgs@[ii]).entry as int)
                    && block_reaches(blocks@, cfgs@[ii].entry as int, cfgs@[ii].exit as int),
            forall|ii: int| 0 <= ii < v@.len() ==> (#[trigger] v@[ii]).0 == ii as i32,
            forall|ii: int|
                0 <= ii < v@.len() ==> (#[trigger] v@[ii]).1.wf() && (exists|ids: Seq<i32>|
                    cfg_matches(v@[ii].1, ids, blocks@, cfgs@[ii].entry, cfgs@[ii].exit) && (
                    forall|b: i32|
                        #[trigger] ids.contains(b) <==> block_reaches(
                            blocks@,
                            cfgs@[ii].entry as int,
                            b as int,
                        ))),
        decreases cfgs@.len() - i,
    {
        let desc = cfgs[i];
        let g = match get_cfg_with_root(desc.entry, desc.exit, blocks) {
            Some(g) => g,
            None => {
                return None;
            },
        };
        let ghost v_prev = v@;
        let ghost g_snapshot = g;
        v.push((i as i32, g));
        proof {
            assert forall|ii: int|
                0 <= ii < v@.len() implies (#[trigger] v@[ii]).1.wf() && (exists|ids: Seq<i32>|
                cfg_matches(v@[ii].1, ids, blocks@, cfgs@[ii].entry, cfgs@[ii].exit) && (forall|
                b: i32,
            |
                    #[trigger] ids.contains(b) <==> block_reaches(
                        blocks@,
                        cfgs@[ii].entry as int,
                        b as int,
                    ))) by {
                if ii < v_prev.len() {
                    assert(v@[ii] == v_prev[ii]);
                } else {
                    assert(v@[ii].1 == g_snapshot);
                    assert(cfgs@[ii].entry == desc.entry && cfgs@[ii].exit == desc.exit);
                }
            }
        }
        i = i + 1;
    }
    Some(v)
}

} // verus!
