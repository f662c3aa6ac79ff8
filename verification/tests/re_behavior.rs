//! Behaviour of the regex parsers and parse-tree flattening.

use std::collections::BTreeMap;

use path_reduction::re::{ParseErr, RegExp, Val};

fn star_body_21() -> RegExp {
    // 1(21)*3
    RegExp::Concat(
        Box::new(RegExp::Literal(1)),
        Box::new(RegExp::Concat(
            Box::new(RegExp::Star(Box::new(RegExp::Concat(
                Box::new(RegExp::Literal(2)),
                Box::new(RegExp::Literal(1)),
            )))),
            Box::new(RegExp::Literal(3)),
        )),
    )
}

#[test]
fn re_test1() {
    let re = star_body_21();
    let s = vec![1, 2, 1, 2, 1, 2, 1, 3];
    let (v, _) = re.parse_inf(&s, 0, &BTreeMap::new()).unwrap();
    let k = 2;
    let reduced = v.reduce(k);
    assert!(reduced == vec![1, 2, 1, 2, 1, 3]);
}

#[test]
fn test1_() {
    let re = star_body_21();
    let s = vec![1, 2, 1, 2, 1, 2, 1, 3];
    let k = 2;
    let (v, _) = re.parse_k(&s, 0, &BTreeMap::new(), k).unwrap();
    let reduced = v.into_vec();
    assert!(reduced == vec![1, 2, 1, 2, 1, 3]);
}

#[test]
fn re_test2() {
    // (12)*(13)
    let re = RegExp::concat(
        RegExp::star(RegExp::concat(RegExp::literal(1), RegExp::literal(2))),
        RegExp::concat(RegExp::literal(1), RegExp::literal(3)),
    );
    let s = vec![1, 2, 1, 2, 1, 2, 1, 3];
    let (v, _) = re.parse_inf(&s, 0, &BTreeMap::new()).unwrap();
    let k = 2;
    let reduced = v.reduce(k);
    assert!(reduced == vec![1, 2, 1, 2, 1, 3]);
}

#[test]
fn test2_() {
    // (12)*(13)
    let re = RegExp::concat(
        RegExp::star(RegExp::concat(RegExp::literal(1), RegExp::literal(2))),
        RegExp::concat(RegExp::literal(1), RegExp::literal(3)),
    );
    let s = vec![1, 2, 1, 2, 1, 2, 1, 3];
    let k = 2;
    let (v, _) = re.parse_k(&s, 0, &BTreeMap::new(), k).unwrap();
    let reduced = v.into_vec();
    assert!(reduced == vec![1, 2, 1, 2, 1, 3]);
}

#[test]
fn test3() {
    let re = RegExp::alter(
        RegExp::concat(
            RegExp::concat(RegExp::concat(RegExp::Literal(9), RegExp::Epsilon), RegExp::Literal(11)),
            RegExp::concat(
                RegExp::Literal(13),
                RegExp::concat(
                    RegExp::Epsilon,
                    RegExp::concat(
                        RegExp::Literal(15),
                        RegExp::alter(
                            RegExp::concat(RegExp::Literal(16), RegExp::Literal(27)),
                            RegExp::concat(
                                RegExp::Literal(17),
                                RegExp::concat(
                                    RegExp::Literal(18),
                                    RegExp::concat(
                                        RegExp::Literal(22),
                                        RegExp::concat(
                                            RegExp::Var(0),
                                            RegExp::concat(
                                                RegExp::Literal(24),
                                                RegExp::concat(
                                                    RegExp::Epsilon,
                                                    RegExp::concat(RegExp::Literal(26), RegExp::Literal(27)),
                                                ),
                                            ),
                                        ),
                                    ),
                                ),
                            ),
                        ),
                    ),
                ),
            ),
        ),
        RegExp::concat(
            RegExp::concat(
                RegExp::concat(RegExp::concat(RegExp::Literal(9), RegExp::Epsilon), RegExp::Literal(11)),
                RegExp::Literal(12),
            ),
            RegExp::Literal(27),
        ),
    );
    let re0 = RegExp::alter(
        RegExp::alter(
            RegExp::concat(
                RegExp::concat(RegExp::Literal(0), RegExp::Literal(2)),
                RegExp::Literal(8),
            ),
            RegExp::concat(
                RegExp::concat(RegExp::Literal(0), RegExp::Literal(1)),
                RegExp::concat(RegExp::Literal(2), RegExp::Literal(8)),
            ),
        ),
        RegExp::concat(
            RegExp::alter(
                RegExp::concat(
                    RegExp::concat(RegExp::Literal(0), RegExp::Literal(2)),
                    RegExp::Literal(3),
                ),
                RegExp::concat(
                    RegExp::concat(RegExp::Literal(0), RegExp::Literal(1)),
                    RegExp::concat(RegExp::Literal(2), RegExp::Literal(3)),
                ),
            ),
            RegExp::concat(RegExp::Literal(7), RegExp::Literal(8)),
        ),
    );
    let path = vec![9, 11, 13, 15, 17, 18, 22, 0, 2, 3, 4];
    let mut env = BTreeMap::new();
    env.insert(0, re0);
    let res = re.parse_k(&path, 0, &env, 3);
    println!("{:?}", res);
}

#[test]
fn literal_mismatch_is_invalid() {
    let re = RegExp::concat(RegExp::literal(1), RegExp::literal(2));
    let r = re.parse_k(&[1, 7], 0, &BTreeMap::new(), 3);
    assert!(matches!(r, Err(ParseErr::Invalid)));
}

#[test]
fn exhausted_input_aborts_with_partial_tree() {
    let re = RegExp::concat(RegExp::literal(1), RegExp::literal(2));
    let r = re.parse_k(&[1], 0, &BTreeMap::new(), 3);
    match r {
        Err(ParseErr::Abort(v)) => {
            // the partial tree keeps the already-matched left literal
            assert_eq!(v.into_vec(), vec![1]);
        }
        other => panic!("expected an abort, got {:?}", other),
    }
}

#[test]
fn alternation_commits_to_left_abort() {
    // (1 2) | (1 3) on input [1]: the left branch aborts after consuming 1
    // and the right branch is not tried.
    let re = RegExp::alter(
        RegExp::concat(RegExp::literal(1), RegExp::literal(2)),
        RegExp::concat(RegExp::literal(1), RegExp::literal(3)),
    );
    let r = re.parse_k(&[1], 0, &BTreeMap::new(), 3);
    match r {
        Err(ParseErr::Abort(v)) => assert_eq!(v.into_vec(), vec![1]),
        other => panic!("expected an abort, got {:?}", other),
    }
}

#[test]
fn star_bounding_keeps_first_k_iterations() {
    // (5)* with k = 3 on seven 5s: all seven consumed, three recorded
    let re = RegExp::star(RegExp::literal(5));
    let s = vec![5, 5, 5, 5, 5, 5, 5, 9];
    let (v, pos) = re.parse_k(&s, 0, &BTreeMap::new(), 3).unwrap();
    assert_eq!(pos, 7);
    assert_eq!(v.into_vec(), vec![5, 5, 5]);
}

#[test]
fn star_on_exhausted_input_aborts() {
    // a star that runs out of input aborts, keeping its bounded witnesses
    let re = RegExp::star(RegExp::literal(5));
    let s = vec![5, 5, 5, 5, 5, 5, 5];
    match re.parse_k(&s, 0, &BTreeMap::new(), 3) {
        Err(ParseErr::Abort(v)) => assert_eq!(v.into_vec(), vec![5, 5, 5]),
        other => panic!("expected an abort, got {:?}", other),
    }
}

#[test]
fn var_resolves_through_env() {
    let mut env = BTreeMap::new();
    env.insert(7, RegExp::concat(RegExp::literal(1), RegExp::literal(2)));
    let re = RegExp::var(7);
    let (v, pos) = re.parse_k(&[1, 2, 9], 0, &env, 1).unwrap();
    assert_eq!(pos, 2);
    assert_eq!(v.into_vec(), vec![1, 2]);
}

#[test]
fn var_missing_from_env_is_invalid() {
    let re = RegExp::var(7);
    let r = re.parse_k(&[1, 2], 0, &BTreeMap::new(), 1);
    assert!(matches!(r, Err(ParseErr::Invalid)));
}

#[test]
fn val_flattening() {
    let v = Val::Concat(
        Box::new(Val::Literal(1)),
        Box::new(Val::Star(vec![
            Val::Literal(2),
            Val::Literal(3),
            Val::Literal(4),
        ])),
    );
    assert_eq!(v.into_vec(), vec![1, 2, 3, 4]);
    // reduce keeps at most k star witnesses
    assert_eq!(v.reduce(2), vec![1, 2, 3]);
    assert_eq!(v.reduce(1), vec![1, 2]);
}
