//! Reconstruction of control-flow graphs from flat descriptor tables and
//! reduction through the resulting reducer.

use path_reduction::extern_cfg::{process_cfgs, BlockDesc, CfgDesc};
use path_reduction::path_reduction::{OnError, PathReducer};

fn block(calls: i32, successors: Vec<i32>) -> BlockDesc {
    BlockDesc { calls, successors }
}

#[test]
fn diamond_from_descriptors() {
    let cfgs = vec![CfgDesc { entry: 1, exit: 4 }];
    let blocks = vec![
        block(-1, vec![]),
        block(-1, vec![2, 3]),
        block(-1, vec![4]),
        block(-1, vec![4]),
        block(-1, vec![]),
    ];
    let built = process_cfgs(&cfgs, &blocks).unwrap();
    assert_eq!(built.len(), 1);
    assert_eq!(built[0].0, 0);
    let red = PathReducer::from_cfgs(built, 2).unwrap();
    assert_eq!(red.reduce(&[1, 2, 4], 0, OnError::Fail).unwrap(), vec![1, 2, 4]);
    assert_eq!(red.reduce(&[1, 3, 4], 0, OnError::Fail).unwrap(), vec![1, 3, 4]);
}

#[test]
fn call_blocks_resolve_through_callee() {
    // function 0: 1 -> 2 -> 3, where block 2 calls function 1
    // function 1: 10 -> 11
    let cfgs = vec![
        CfgDesc { entry: 1, exit: 3 },
        CfgDesc { entry: 10, exit: 11 },
    ];
    let mut blocks = Vec::new();
    for _ in 0..12 {
        blocks.push(block(-1, vec![]));
    }
    blocks[1] = block(-1, vec![2]);
    blocks[2] = block(1, vec![3]);
    blocks[3] = block(-1, vec![]);
    blocks[10] = block(-1, vec![11]);
    blocks[11] = block(-1, vec![]);
    let built = process_cfgs(&cfgs, &blocks).unwrap();
    let red = PathReducer::from_cfgs(built, 2).unwrap();
    let out = red.reduce(&[1, 10, 11, 3], 0, OnError::Fail).unwrap();
    assert_eq!(out, vec![1, 10, 11, 3]);
}

#[test]
fn out_of_range_successor_is_rejected() {
    let cfgs = vec![CfgDesc { entry: 0, exit: 1 }];
    let blocks = vec![block(-1, vec![9]), block(-1, vec![])];
    assert!(process_cfgs(&cfgs, &blocks).is_none());
}

#[test]
fn unreachable_exit_is_rejected() {
    let cfgs = vec![CfgDesc { entry: 0, exit: 1 }];
    let blocks = vec![block(-1, vec![]), block(-1, vec![])];
    assert!(process_cfgs(&cfgs, &blocks).is_none());
}
