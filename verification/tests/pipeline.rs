//! End-to-end behaviour: GNFA compilation, the reducer builder, the regex
//! reducer and the direct stack reducer.

use std::collections::BTreeMap;

use path_reduction::convert::{Cfg, Node, GNFA};
use path_reduction::path_reduction::{BuildError, OnError, PathReducer, ReduceError};

/// Diamond: v1 -> {v2, v3} -> v4, in the original node order v1 v4 v2 v3.
fn diamond() -> Cfg {
    Cfg {
        nodes: vec![
            Node::Literal(1),
            Node::Literal(4),
            Node::Literal(2),
            Node::Literal(3),
        ],
        succs: vec![vec![2, 3], vec![], vec![0, 1], vec![0, 1]],
        entry: 0,
        exit: 1,
    }
}

/// While loop: v1 -> v2 -> v3 -> {v2, v4}.
fn while_loop() -> Cfg {
    Cfg {
        nodes: vec![
            Node::Literal(1),
            Node::Literal(2),
            Node::Literal(3),
            Node::Literal(4),
        ],
        succs: vec![vec![1], vec![2], vec![1, 3], vec![]],
        entry: 0,
        exit: 3,
    }
}

#[test]
fn convert_test1() {
    let g = diamond();
    let mut gnfa = GNFA::from_cfg(&g);
    gnfa.reduce();
    let re = gnfa.start_to_end();
    assert!(re.is_some());
    println!("{:?}", re.unwrap());
}

#[test]
fn convert_test2() {
    let g: Cfg = Cfg {
        nodes: vec![
            Node::Literal(1),
            Node::Literal(2),
            Node::Literal(3),
            Node::Literal(4),
        ],
        succs: vec![vec![1], vec![2], vec![3, 1], vec![]],
        entry: 0,
        exit: 3,
    };
    let mut gnfa = GNFA::from_cfg(&g);
    gnfa.reduce();
    let re = gnfa.start_to_end();
    assert!(re.is_some());
    println!("{:?}", re.unwrap());
}

#[test]
fn gnfa_state_counts() {
    let g = diamond();
    let mut gnfa = GNFA::from_cfg(&g);
    assert_eq!(gnfa.num_states(), 5);
    gnfa.reduce();
    assert_eq!(gnfa.num_states(), 2);
}

/// Scenario: a diamond CFG accepts `[1, 2, 4]` unchanged.
#[test]
fn diamond_identity_reduction() {
    let red = PathReducer::from_cfgs(vec![(0, diamond())], 2).unwrap();
    let out = red.reduce(&[1, 2, 4], 0, OnError::Fail).unwrap();
    assert_eq!(out, vec![1, 2, 4]);
    let out = red.reduce(&[1, 3, 4], 0, OnError::Fail).unwrap();
    assert_eq!(out, vec![1, 3, 4]);
}

/// The unbounded parser accepts exactly the entry-to-exit paths of a small
/// CFG: acceptance is a full-input match.
#[test]
fn gnfa_language_preservation() {
    let red = PathReducer::from_cfgs(vec![(0, diamond())], 2).unwrap();
    let re = red.res.get(&0).unwrap();
    let env: BTreeMap<i32, path_reduction::re::RegExp> = BTreeMap::new();

    let accepted = |p: &[i32]| -> bool {
        match re.parse_inf(p, 0, &env) {
            Some((_, pos)) => pos == p.len(),
            None => false,
        }
    };
    assert!(accepted(&[1, 2, 4]));
    assert!(accepted(&[1, 3, 4]));
    assert!(!accepted(&[1, 4]));
    assert!(!accepted(&[1, 2, 3, 4]));
    assert!(!accepted(&[2, 4]));
    assert!(!accepted(&[1, 2]));
    assert!(!accepted(&[4, 2, 1]));
}

/// Scenario: a while-loop body with the direct reducer collapses every
/// iteration to the latest one.
#[test]
fn while_loop_direct_reduction() {
    let red = PathReducer::from_cfgs(vec![(0, while_loop())], 42).unwrap();
    let out = red.reduce(&[1, 2, 3, 2, 3, 2, 3, 4], 0, OnError::Fail).unwrap();
    assert_eq!(out, vec![1, 2, 3, 4]);
}

/// The regex reducer on the while loop keeps one star iteration at k = 1.
#[test]
fn while_loop_regex_reduction() {
    let red = PathReducer::from_cfgs(vec![(0, while_loop())], 1).unwrap();
    let input = [1, 2, 3, 2, 3, 2, 3, 4];
    let out = red.reduce(&input, 0, OnError::Fail).unwrap();
    // one loop iteration stays beside the first visit of the body
    assert_eq!(out, vec![1, 2, 3, 2, 3, 4]);
    // reducing again changes nothing
    let again = red.reduce(&out, 0, OnError::Fail).unwrap();
    assert_eq!(again, out);
}

/// Scenario: mutually recursive functions under the direct reducer; the
/// recursive re-entry into the outer function is skipped.
#[test]
fn mutual_recursion_direct_reduction() {
    let mut firsts = BTreeMap::new();
    firsts.insert(10, 0);
    firsts.insert(20, 1);
    let mut lasts = BTreeMap::new();
    lasts.insert(10, vec![12, 13]);
    lasts.insert(20, vec![23]);
    let red = PathReducer {
        res: BTreeMap::new(),
        firsts,
        lasts,
        loop_heads: BTreeMap::new(),
        k: 42,
    };
    let trace = [10, 11, 20, 21, 10, 11, 12, 22, 23, 13];
    let out = red.reduce(&trace, 0, OnError::Fail).unwrap();
    assert_eq!(out, vec![10, 11, 20, 21, 22, 23, 13]);
}

/// The direct reducer tolerates arbitrary inputs: unknown blocks are
/// emitted as they come.
#[test]
fn direct_reducer_tolerates_unknown_blocks() {
    let red = PathReducer {
        res: BTreeMap::new(),
        firsts: BTreeMap::new(),
        lasts: BTreeMap::new(),
        loop_heads: BTreeMap::new(),
        k: 42,
    };
    let out = red.reduce(&[9, 8, 7], 0, OnError::Fail).unwrap();
    assert_eq!(out, vec![9, 8, 7]);
}

/// Error modes on a path that conforms to no regex.
#[test]
fn error_modes_on_invalid_path() {
    let red = PathReducer::from_cfgs(vec![(0, diamond())], 2).unwrap();
    let bad = [2, 2, 2];
    assert_eq!(red.reduce(&bad, 0, OnError::Fail), Err(ReduceError::Invalid));
    assert_eq!(red.reduce(&bad, 0, OnError::FullPath).unwrap(), vec![2, 2, 2]);
    assert_eq!(red.reduce(&bad, 0, OnError::EmptyPath).unwrap(), Vec::<i32>::new());
}

/// An empty path reduces to an empty path.
#[test]
fn empty_path_reduces_to_empty() {
    let red = PathReducer::from_cfgs(vec![(0, diamond())], 2).unwrap();
    assert_eq!(red.reduce(&[], 0, OnError::Fail).unwrap(), Vec::<i32>::new());
}

/// Two functions sharing a first block are rejected at build time.
#[test]
fn duplicate_first_block_is_fatal() {
    let single = |b: i32| Cfg {
        nodes: vec![Node::Literal(b)],
        succs: vec![vec![]],
        entry: 0,
        exit: 0,
    };
    let r = PathReducer::from_cfgs(vec![(0, single(5)), (1, single(5))], 2);
    assert_eq!(r.unwrap_err(), BuildError::DuplicateFirstBlock);
}

/// A function whose exit is unreachable from its entry is rejected.
#[test]
fn disconnected_exit_is_malformed() {
    let g = Cfg {
        nodes: vec![Node::Literal(1), Node::Literal(2)],
        succs: vec![vec![], vec![]],
        entry: 0,
        exit: 1,
    };
    let r = PathReducer::from_cfgs(vec![(0, g)], 2);
    assert_eq!(r.unwrap_err(), BuildError::MalformedCFG);
}

/// Reduction is idempotent on these inputs, and calling it twice on the
/// same input gives the same answer.
#[test]
fn reduction_idempotent_and_deterministic() {
    let red = PathReducer::from_cfgs(vec![(0, while_loop())], 1).unwrap();
    let input = [1, 2, 3, 2, 3, 2, 3, 2, 3, 4];
    let once = red.reduce(&input, 0, OnError::Fail).unwrap();
    let twice = red.reduce(&once, 0, OnError::Fail).unwrap();
    assert_eq!(once, twice);
    let again = red.reduce(&input, 0, OnError::Fail).unwrap();
    assert_eq!(once, again);

    let direct = PathReducer::from_cfgs(vec![(0, while_loop())], 42).unwrap();
    let once = direct.reduce(&input, 0, OnError::Fail).unwrap();
    let twice = direct.reduce(&once, 0, OnError::Fail).unwrap();
    assert_eq!(once, twice);
}

/// Paths differing only in star iteration counts at or above k reduce to
/// the same canonical path.
#[test]
fn shape_equivalence_of_iteration_counts() {
    let red = PathReducer::from_cfgs(vec![(0, while_loop())], 1).unwrap();
    let p1 = [1, 2, 3, 2, 3, 4];
    let p2 = [1, 2, 3, 2, 3, 2, 3, 2, 3, 2, 3, 4];
    let r1 = red.reduce(&p1, 0, OnError::Fail).unwrap();
    let r2 = red.reduce(&p2, 0, OnError::Fail).unwrap();
    assert_eq!(r1, r2);
}

/// A syntactically valid prefix's reduction is a prefix of the full path's
/// reduction: a truncated trace keeps its already-reduced prefix.
#[test]
fn prefix_preservation_under_abort() {
    let red = PathReducer::from_cfgs(vec![(0, while_loop())], 1).unwrap();
    let full = [1, 2, 3, 2, 3, 4];
    let prefix = [1, 2, 3];
    let r_full = red.reduce(&full, 0, OnError::Fail).unwrap();
    let r_prefix = red.reduce(&prefix, 0, OnError::Fail).unwrap();
    assert!(r_full.starts_with(&r_prefix));
}

/// A single-block function under the direct reducer: the call begins and
/// ends on the same block.
#[test]
fn direct_reducer_single_block_function() {
    let mut firsts = BTreeMap::new();
    firsts.insert(7, 0);
    let mut lasts = BTreeMap::new();
    lasts.insert(7, vec![7]);
    let red = PathReducer {
        res: BTreeMap::new(),
        firsts,
        lasts,
        loop_heads: BTreeMap::new(),
        k: 42,
    };
    let out = red.reduce(&[7, 7, 7], 0, OnError::Fail).unwrap();
    assert_eq!(out, vec![7, 7, 7]);
}

/// An external-call node is treated as an opaque literal over its marker.
#[test]
fn extern_node_is_opaque_literal() {
    let g = Cfg {
        nodes: vec![Node::Literal(1), Node::Extern(8), Node::Literal(4)],
        succs: vec![vec![1], vec![2], vec![]],
        entry: 0,
        exit: 2,
    };
    let red = PathReducer::from_cfgs(vec![(0, g)], 2).unwrap();
    assert_eq!(red.reduce(&[1, 8, 4], 0, OnError::Fail).unwrap(), vec![1, 8, 4]);
    assert_eq!(red.reduce(&[1, 9, 4], 0, OnError::Fail), Err(ReduceError::Invalid));
}

/// A self-loop makes a block its own successor but not a loop head: loop
/// heads need a cycle through at least one other node.
#[test]
fn self_loop_is_not_a_loop_head() {
    let g = Cfg {
        nodes: vec![Node::Literal(1), Node::Literal(2), Node::Literal(3)],
        succs: vec![vec![1], vec![1, 2], vec![]],
        entry: 0,
        exit: 2,
    };
    let red = PathReducer::from_cfgs(vec![(0, g)], 42).unwrap();
    // the direct reducer leaves repeats of a non-head block alone
    let out = red.reduce(&[1, 2, 2, 2, 3], 0, OnError::Fail).unwrap();
    assert_eq!(out, vec![1, 2, 2, 2, 3]);
}

/// The regex reducer collapses a self-loop through its star bound.
#[test]
fn self_loop_regex_reduction() {
    let g = Cfg {
        nodes: vec![Node::Literal(1), Node::Literal(2), Node::Literal(3)],
        succs: vec![vec![1], vec![1, 2], vec![]],
        entry: 0,
        exit: 2,
    };
    let red = PathReducer::from_cfgs(vec![(0, g)], 1).unwrap();
    let out = red.reduce(&[1, 2, 2, 2, 2, 3], 0, OnError::Fail).unwrap();
    assert_eq!(out, vec![1, 2, 2, 3]);
}

/// An exit node with successors is not an exit: the build rejects it.
#[test]
fn exit_with_successors_is_malformed() {
    let g = Cfg {
        nodes: vec![Node::Literal(1), Node::Literal(2)],
        succs: vec![vec![1], vec![0]],
        entry: 0,
        exit: 1,
    };
    let r = PathReducer::from_cfgs(vec![(0, g)], 2);
    assert_eq!(r.unwrap_err(), BuildError::MalformedCFG);
}
