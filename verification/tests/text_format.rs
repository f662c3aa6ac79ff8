//! The textual control-flow-graph format.

use path_reduction::file_format::parse_cfgs;
use path_reduction::gen_cfg::{TextNode, CFG};

#[test]
fn test0() {
    let file_format = r#"
		Function: foo
		BasicBlock: 0
		Successors: 1
		BasicBlock: 1 calls bar
		Successors: 2
		BasicBlock: 2
		Successors:

		Function: bar
		"#;
    let cfgs = parse_cfgs(file_format.as_bytes()).unwrap();
    for cfg in &cfgs {
        println!("{cfg:?}");
    }
}

#[test]
fn parsed_structure_is_exact() {
    let file_format = "Function: foo\nBasicBlock: 0\nSuccessors: 1\nBasicBlock: 1 calls bar\nSuccessors: 2\nBasicBlock: 2\nSuccessors:\n\nFunction: bar\n";
    let cfgs = parse_cfgs(file_format.as_bytes()).unwrap();
    assert_eq!(cfgs.len(), 2);

    let foo = &cfgs[0];
    assert_eq!(foo.id, b"foo".to_vec());
    assert_eq!(foo.block_entries.len(), 3);
    assert_eq!(foo.block_entries[0].id, 0);
    assert_eq!(foo.block_entries[0].calls, None);
    assert_eq!(foo.block_entries[0].successors, vec![1]);
    assert_eq!(foo.block_entries[1].id, 1);
    assert_eq!(foo.block_entries[1].calls, Some(b"bar".to_vec()));
    assert_eq!(foo.block_entries[1].successors, vec![2]);
    assert_eq!(foo.block_entries[2].id, 2);
    assert_eq!(foo.block_entries[2].calls, None);
    assert_eq!(foo.block_entries[2].successors, Vec::<usize>::new());

    let bar = &cfgs[1];
    assert_eq!(bar.id, b"bar".to_vec());
    assert_eq!(bar.block_entries.len(), 0);
}

#[test]
fn malformed_lines_are_rejectedable() {
    assert!(parse_cfgs(b"BasicBlock: 0\n").is_none());
    assert!(parse_cfgs(b"Successors: 1\n").is_none());
    assert!(parse_cfgs(b"Function: f\nnonsense\n").is_none());
    assert!(parse_cfgs(b"Function: f\nBasicBlock: x\n").is_none());
    assert!(parse_cfgs(b"Function: f\nSuccessors: 1\n").is_none());
}

#[test]
fn graph_conversion_resolves_blocks() {
    let file_format = "Function: foo\nBasicBlock: 10\nSuccessors: 30\nBasicBlock: 30 calls bar\nSuccessors: 10 30\n";
    let cfgs = parse_cfgs(file_format.as_bytes()).unwrap();
    let (nodes, succs) = cfgs[0].new().unwrap();
    assert_eq!(nodes.len(), 2);
    assert!(matches!(nodes[0], TextNode::Literal(10)));
    match &nodes[1] {
        TextNode::Var(name) => assert_eq!(name, &b"bar".to_vec()),
        other => panic!("expected a call node, got {:?}", other),
    }
    assert_eq!(succs[0], vec![1]);
    assert_eq!(succs[1], vec![0, 1]);
}

#[test]
fn duplicate_block_identifier_fails_conversion() {
    let cfg = CFG {
        id: b"f".to_vec(),
        block_entries: vec![],
    };
    assert!(cfg.new().is_some());
    let cfgs = parse_cfgs(b"Function: f\nBasicBlock: 1\nSuccessors:\nBasicBlock: 1\nSuccessors:\n").unwrap();
    assert!(cfgs[0].new().is_none());
}

#[test]
fn oversized_number_is_rejected() {
    // a successor identifier beyond the machine word does not parse
    let text = b"Function: f\nBasicBlock: 1\nSuccessors: 99999999999999999999999999\n";
    assert!(parse_cfgs(text).is_none());
}

#[test]
fn carriage_returns_and_tabs_are_spaces() {
    let text = b"Function: f\r\nBasicBlock:\t7\r\nSuccessors: 7\r\n";
    let cfgs = parse_cfgs(text).unwrap();
    assert_eq!(cfgs.len(), 1);
    assert_eq!(cfgs[0].id, b"f".to_vec());
    assert_eq!(cfgs[0].block_entries[0].id, 7);
    assert_eq!(cfgs[0].block_entries[0].successors, vec![7]);
}
