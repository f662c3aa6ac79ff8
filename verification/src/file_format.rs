//! Parser for the textual control-flow-graph format: a line-oriented
//! grammar with `Function: NAME`, `BasicBlock: ID`, optionally followed by
//! `calls NAME`, and `Successors: ID ...`, with blank lines between
//! functions. The parser is pinned to a spec-level statement of the
//! grammar, one production per line form.

use crate::gen_cfg::{abs_block, abs_blocks, abs_cfg, abs_cfgs, BlockEntry, SpecBlockEntry, SpecCfg, CFG};
use vstd::prelude::*;

verus! {

/// Whether a byte is horizontal whitespace or a carriage return.
pub open spec fn is_space(b: u8) -> bool {
    b == 32 || b == 9 || b == 13
}

/// Whether a byte is an ASCII digit.
pub open spec fn is_digit(b: u8) -> bool {
    48 <= b <= 57
}

/// The numeric value of the digits `s[from..to]`, most significant first.
pub open spec fn digits_val(s: Seq<u8>, from: int, to: int) -> nat
    decreases to - from,
{
    if from >= to {
        0
    } else {
        digits_val(s, from, to - 1) * 10 + (if is_digit(s[to - 1]) {
            (s[to - 1] - 48) as nat
        } else {
            0
        })
    }
}

/// First position at or after `from` and before `to` holding no space.
pub open spec fn spec_skip(s: Seq<u8>, from: int, to: int) -> int
    decreases to - from,
    when 0 <= from <= to <= s.len()
{
    if from >= to {
        to
    } else if !is_space(s[from]) {
        from
    } else {
        spec_skip(s, from + 1, to)
    }
}

/// Position after the maximal digit run starting at `from`.
pub open spec fn spec_digit_end(s: Seq<u8>, from: int, to: int) -> int
    decreases to - from,
    when 0 <= from <= to <= s.len()
{
    if from >= to {
        to
    } else if !is_digit(s[from]) {
        from
    } else {
        spec_digit_end(s, from + 1, to)
    }
}

/// Position after the maximal non-space run starting at `from`.
pub open spec fn spec_name_end(s: Seq<u8>, from: int, to: int) -> int
    decreases to - from,
    when 0 <= from <= to <= s.len()
{
    if from >= to {
        to
    } else if is_space(s[from]) {
        from
    } else {
        spec_name_end(s, from + 1, to)
    }
}

/// Position of the next line break at or after `from`.
pub open spec fn spec_line_end(s: Seq<u8>, from: int) -> int
    decreases s.len() - from,
    when 0 <= from <= s.len()
{
    if from >= s.len() {
        from
    } else if s[from] == 10 {
        from
    } else {
        spec_line_end(s, from + 1)
    }
}

/// The three position functions stay within their bounds.
pub proof fn lemma_scan_bounds(s: Seq<u8>, from: int, to: int)
    requires
        0 <= from <= to <= s.len(),
    ensures
        from <= spec_skip(s, from, to) <= to,
        from <= spec_digit_end(s, from, to) <= to,
        from <= spec_name_end(s, from, to) <= to,
    decreases to - from,
{
    if from < to {
        lemma_scan_bounds(s, from + 1, to);
    }
}

/// First position at or after `from` and before `to` that is not a space.
fn skip_spaces(s: &[u8], from: usize, to: usize) -> (r: usize)
    requires
        from <= to <= s@.len(),
    ensures
        from <= r <= to,
        forall|i: int| from <= i < r ==> is_space(#[trigger] s@[i]),
        r < to ==> !is_space(s@[r as int]),
        r == spec_skip(s@, from as int, to as int),
{
    let mut i = from;
    while i < to
        invariant
            from <= i <= to <= s@.len(),
            forall|j: int| from <= j < i ==> is_space(#[trigger] s@[j]),
            spec_skip(s@, from as int, to as int) == spec_skip(s@, i as int, to as int),
        decreases to - i,
    {
        if !(s[i] == 32 || s[i] == 9 || s[i] == 13) {
            return i;
        }
        i = i + 1;
    }
    i
}

/// Whether the keyword stands at `from`.
pub open spec fn spec_kw_at(s: Seq<u8>, from: int, to: int, kw: Seq<u8>) -> bool {
    from + kw.len() <= to && s.subrange(from, from + kw.len()) == kw
}

/// Whether the bytes at `from` start with the keyword.
fn match_keyword(s: &[u8], from: usize, to: usize, kw: &[u8]) -> (r: bool)
    requires
        from <= to <= s@.len(),
    ensures
        r == spec_kw_at(s@, from as int, to as int, kw@),
{
    if to - from < kw.len() {
        return false;
    }
    let mut i: usize = 0;
    while i < kw.len()
        invariant
            from + kw@.len() <= to <= s@.len(),
            i <= kw@.len(),
            forall|j: int| 0 <= j < i ==> s@[from + j] == kw@[j],
        decreases kw@.len() - i,
    {
        if s[from + i] != kw[i] {
            proof {
                assert(s@.subrange(from as int, from + kw@.len())[i as int] != kw@[i as int]);
            }
            return false;
        }
        i = i + 1;
    }
    proof {
        assert(s@.subrange(from as int, from + kw@.len()) =~= kw@);
    }
    true
}

/// The maximal digit run starting at `from`: its value and the position
/// after it. `None` when there is no digit at `from` or the value would
/// not fit in a machine word.
/// Whether the digit run at `from` is non-empty and its value fits in a
/// machine word.
pub open spec fn spec_number_ok(s: Seq<u8>, from: int, to: int) -> bool {
    &&& from < spec_digit_end(s, from, to)
    &&& digits_val(s, from, spec_digit_end(s, from, to)) <= usize::MAX
}

/// The value of a digit run never shrinks as the run extends.
proof fn lemma_digits_val_grows(s: Seq<u8>, from: int, a: int, b: int)
    requires
        from <= a <= b,
    ensures
        digits_val(s, from, a) <= digits_val(s, from, b),
    decreases b - a,
{
    if a < b {
        lemma_digits_val_grows(s, from, a, b - 1);
    }
}

fn parse_number(s: &[u8], from: usize, to: usize) -> (r: Option<(usize, usize)>)
    requires
        from <= to <= s@.len(),
    ensures
        r is Some <==> spec_number_ok(s@, from as int, to as int),
        match r {
            Some((v, e)) => {
                &&& from < e <= to
                &&& e == spec_digit_end(s@, from as int, to as int)
                &&& v == digits_val(s@, from as int, e as int)
            },
            None => true,
        },
{
    if from >= to || !(48 <= s[from] && s[from] <= 57) {
        return None;
    }
    let mut v: usize = 0;
    let mut i = from;
    while i < to
        invariant
            from <= i <= to <= s@.len(),
            forall|j: int| from <= j < i ==> is_digit(#[trigger] s@[j]),
            v == digits_val(s@, from as int, i as int),
            spec_digit_end(s@, from as int, to as int) == spec_digit_end(
                s@,
                i as int,
                to as int,
            ),
        decreases to - i,
    {
        let b = s[i];
        if !(48 <= b && b <= 57) {
            if i == from {
                return None;
            }
            return Some((v, i));
        }
        let d = (b - 48) as usize;
        if v > (usize::MAX - d) / 10 {
            proof {
                // the full run's value exceeds the machine word
                assert(v * 10 + d > usize::MAX) by (nonlinear_arith)
                    requires
                        v > (usize::MAX - d) / 10 && d <= 9,
                ;
                assert(digits_val(s@, from as int, i + 1) == v * 10 + d);
                lemma_scan_bounds(s@, i + 1, to as int);
                assert(i + 1 <= spec_digit_end(s@, from as int, to as int)) by {
                    assert(spec_digit_end(s@, i as int, to as int) == spec_digit_end(
                        s@,
                        i + 1,
                        to as int,
                    ));
                }
                lemma_digits_val_grows(
                    s@,
                    from as int,
                    i + 1,
                    spec_digit_end(s@, from as int, to as int),
                );
            }
            return None;
        }
        v = v * 10 + d;
        i = i + 1;
    }
    if i == from {
        return None;
    }
    Some((v, i))
}

/// The maximal run of non-space bytes starting at `from`: the bytes and
/// the position after them.
fn take_name(s: &[u8], from: usize, to: usize) -> (r: (Vec<u8>, usize))
    requires
        from <= to <= s@.len(),
    ensures
        from <= r.1 <= to,
        r.1 == spec_name_end(s@, from as int, to as int),
        r.0@ == s@.subrange(from as int, r.1 as int),
{
    let mut name: Vec<u8> = Vec::new();
    let mut i = from;
    while i < to
        invariant
            from <= i <= to <= s@.len(),
            name@ =~= s@.subrange(from as int, i as int),
            spec_name_end(s@, from as int, to as int) == spec_name_end(s@, i as int, to as int),
        decreases to - i,
    {
        let b = s[i];
        if b == 32 || b == 9 || b == 13 {
            return (name, i);
        }
        name.push(b);
        proof {
            assert(name@ =~= s@.subrange(from as int, i + 1));
        }
        i = i + 1;
    }
    (name, i)
}

/// Position of the next line break at or after `from`.
fn line_break(s: &[u8], from: usize) -> (r: usize)
    requires
        from <= s@.len(),
    ensures
        from <= r <= s@.len(),
        r == spec_line_end(s@, from as int),
        r < s@.len() ==> s@[r as int] == 10,
{
    let mut i = from;
    while i < s.len()
        invariant
            from <= i <= s@.len(),
            spec_line_end(s@, from as int) == spec_line_end(s@, i as int),
        decreases s@.len() - i,
    {
        if s[i] == 10 {
            return i;
        }
        i = i + 1;
    }
    i
}

/// The bytes of the `Function:` keyword.
pub open spec fn spec_kw_function() -> Seq<u8> {
    seq![70u8, 117u8, 110u8, 99u8, 116u8, 105u8, 111u8, 110u8, 58u8]
}

/// The bytes of the `BasicBlock:` keyword.
pub open spec fn spec_kw_block() -> Seq<u8> {
    seq![66u8, 97u8, 115u8, 105u8, 99u8, 66u8, 108u8, 111u8, 99u8, 107u8, 58u8]
}

/// The bytes of the `Successors:` keyword.
pub open spec fn spec_kw_succ() -> Seq<u8> {
    seq![83u8, 117u8, 99u8, 99u8, 101u8, 115u8, 115u8, 111u8, 114u8, 115u8, 58u8]
}

/// The bytes of the `calls` keyword.
pub open spec fn spec_kw_calls() -> Seq<u8> {
    seq![99u8, 97u8, 108u8, 108u8, 115u8]
}

/// The running state of a parse: whether a `Function` section is open,
/// its name and blocks so far, and the finished functions.
pub struct SpecParseState {
    pub have: bool,
    pub id: Seq<u8>,
    pub blocks: Seq<SpecBlockEntry>,
    pub out: Seq<SpecCfg>,
}

/// Closes the open section, if any, into the finished functions.
pub open spec fn close_section(st: SpecParseState) -> Seq<SpecCfg> {
    if st.have {
        st.out.push(SpecCfg { id: st.id, block_entries: st.blocks })
    } else {
        st.out
    }
}

/// The successor identifiers on the rest of a `Successors:` line,
/// appended to `acc`: number after number, each below the machine limit,
/// separated by spaces, until the line ends.
pub open spec fn spec_succs(s: Seq<u8>, j: int, to: int, acc: Seq<usize>) -> Option<Seq<usize>>
    decreases to - j,
    when 0 <= j <= to <= s.len()
{
    if j >= to {
        Some(acc)
    } else if !spec_number_ok(s, j, to) {
        None
    } else {
        let e = spec_digit_end(s, j, to);
        let j2 = spec_skip(s, e, to);
        if j < j2 <= to {
            spec_succs(s, j2, to, acc.push(digits_val(s, j, e) as usize))
        } else {
            // never taken: the digit run is non-empty and scans stay in bounds
            None
        }
    }
}

/// One line of the grammar applied to the parse state: blank lines stand
/// between sections, `Function:` opens one, `BasicBlock:` adds a block
/// with an optional `calls` name, and `Successors:` extends the latest
/// block. `None` is a line that fits no production in the current state.
pub open spec fn spec_parse_line(
    s: Seq<u8>,
    pos: int,
    end: int,
    st: SpecParseState,
) -> Option<SpecParseState>
    recommends
        0 <= pos <= end <= s.len(),
{
    let i = spec_skip(s, pos, end);
    if i == end {
        Some(st)
    } else if spec_kw_at(s, i, end, spec_kw_function()) {
        let j = spec_skip(s, i + spec_kw_function().len(), end);
        let ne = spec_name_end(s, j, end);
        if ne == j || spec_skip(s, ne, end) != end {
            None
        } else {
            Some(
                SpecParseState {
                    have: true,
                    id: s.subrange(j, ne),
                    blocks: Seq::empty(),
                    out: close_section(st),
                },
            )
        }
    } else if spec_kw_at(s, i, end, spec_kw_block()) {
        if !st.have {
            None
        } else {
            let j = spec_skip(s, i + spec_kw_block().len(), end);
            if !spec_number_ok(s, j, end) {
                None
            } else {
                let e = spec_digit_end(s, j, end);
                let id = digits_val(s, j, e) as usize;
                let j3 = spec_skip(s, e, end);
                if j3 == end {
                    Some(
                        SpecParseState {
                            blocks: st.blocks.push(
                                SpecBlockEntry { id, calls: None, successors: Seq::empty() },
                            ),
                            ..st
                        },
                    )
                } else if spec_kw_at(s, j3, end, spec_kw_calls()) {
                    let j4 = spec_skip(s, j3 + spec_kw_calls().len(), end);
                    let ne = spec_name_end(s, j4, end);
                    if ne == j4 || spec_skip(s, ne, end) != end {
                        None
                    } else {
                        Some(
                            SpecParseState {
                                blocks: st.blocks.push(
                                    SpecBlockEntry {
                                        id,
                                        calls: Some(s.subrange(j4, ne)),
                                        successors: Seq::empty(),
                                    },
                                ),
                                ..st
                            },
                        )
                    }
                } else {
                    None
                }
            }
        }
    } else if spec_kw_at(s, i, end, spec_kw_succ()) {
        if !st.have || st.blocks.len() == 0 {
            None
        } else {
            let j = spec_skip(s, i + spec_kw_succ().len(), end);
            match spec_succs(s, j, end, st.blocks.last().successors) {
                Some(ss) => Some(
                    SpecParseState {
                        blocks: st.blocks.update(
                            st.blocks.len() - 1,
                            SpecBlockEntry {
                                id: st.blocks.last().id,
                                calls: st.blocks.last().calls,
                                successors: ss,
                            },
                        ),
                        ..st
                    },
                ),
                None => None,
            }
        }
    } else {
        None
    }
}

/// The whole textual format: line by line from `pos`, ending by closing
/// the open section.
pub open spec fn spec_parse(s: Seq<u8>, pos: int, st: SpecParseState) -> Option<Seq<SpecCfg>>
    decreases s.len() - pos,
    when 0 <= pos <= s.len()
{
    if pos >= s.len() {
        Some(close_section(st))
    } else {
        let end = spec_line_end(s, pos);
        if !(pos <= end <= s.len()) {
            // never taken: the line scan stays in bounds
            None
        } else {
            match spec_parse_line(s, pos, end, st) {
                None => None,
                Some(st2) => spec_parse(
                    s,
                    if end < s.len() {
                        end + 1
                    } else {
                        end
                    },
                    st2,
                ),
            }
        }
    }
}

/// What parsing a whole file yields.
pub open spec fn spec_parse_cfgs(s: Seq<u8>) -> Option<Seq<SpecCfg>> {
    spec_parse(
        s,
        0,
        SpecParseState { have: false, id: Seq::empty(), blocks: Seq::empty(), out: Seq::empty() },
    )
}

/// Parses a whole file of the textual format into one `CFG` per
/// `Function` section, exactly as `spec_parse_cfgs` states the grammar:
/// a `Function:` line opens a section and carries its name, a
/// `BasicBlock:` line adds a block with its identifier and, after
/// `calls`, the callee's name, and a `Successors:` line attaches its
/// identifiers to the latest block. `None` on any line that fits no
/// production, on a block or successor line outside a function, and on a
/// successor line before any block.
/// Viewing a pushed function is pushing its model.
proof fn lemma_abs_cfgs_push(v: Seq<CFG>, c: CFG)
    ensures
        abs_cfgs(v.push(c)) == abs_cfgs(v).push(abs_cfg(c)),
{
    assert(abs_cfgs(v.push(c)) =~= abs_cfgs(v).push(abs_cfg(c))) by {
        assert forall|i: int| 0 <= i < v.push(c).len() implies abs_cfgs(v.push(c))[i] == abs_cfgs(
            v,
        ).push(abs_cfg(c))[i] by {
            if i < v.len() {
                assert(v.push(c)[i] == v[i]);
            } else {
                assert(v.push(c)[i] == c);
            }
        }
    }
}

/// Viewing a pushed block entry is pushing its model.
proof fn lemma_abs_blocks_push(v: Seq<BlockEntry>, b: BlockEntry)
    ensures
        abs_blocks(v.push(b)) == abs_blocks(v).push(abs_block(b)),
{
    assert(abs_blocks(v.push(b)) =~= abs_blocks(v).push(abs_block(b))) by {
        assert forall|i: int| 0 <= i < v.push(b).len() implies abs_blocks(v.push(b))[i]
            == abs_blocks(v).push(abs_block(b))[i] by {
            if i < v.len() {
                assert(v.push(b)[i] == v[i]);
            } else {
                assert(v.push(b)[i] == b);
            }
        }
    }
}

/// Replacing the last block entry is updating the last model.
proof fn lemma_abs_blocks_last(v: Seq<BlockEntry>, b: BlockEntry)
    requires
        v.len() > 0,
    ensures
        abs_blocks(v.drop_last().push(b)) == abs_blocks(v).update(v.len() - 1, abs_block(b)),
{
    assert(abs_blocks(v.drop_last().push(b)) =~= abs_blocks(v).update(v.len() - 1, abs_block(b)))
        by {
        assert forall|i: int| 0 <= i < v.len() implies abs_blocks(v.drop_last().push(b))[i]
            == abs_blocks(v).update(v.len() - 1, abs_block(b))[i] by {
            if i < v.len() - 1 {
                assert(v.drop_last().push(b)[i] == v[i]);
            } else {
                assert(v.drop_last().push(b)[i] == b);
            }
        }
    }
}

pub fn parse_cfgs(text: &[u8]) -> (r: Option<Vec<CFG>>)
    ensures
        match r {
            Some(cfgs) => spec_parse_cfgs(text@) == Some(abs_cfgs(cfgs@)),
            None => spec_parse_cfgs(text@) is None,
        },
{
    let mut out: Vec<CFG> = Vec::new();
    let mut have_cur = false;
    let mut cur_id: Vec<u8> = Vec::new();
    let mut cur_blocks: Vec<BlockEntry> = Vec::new();
    let kw_function: Vec<u8> = vec![
        'F' as u8,
        'u' as u8,
        'n' as u8,
        'c' as u8,
        't' as u8,
        'i' as u8,
        'o' as u8,
        'n' as u8,
        ':' as u8,
    ];
    let kw_block: Vec<u8> = vec![
        'B' as u8,
        'a' as u8,
        's' as u8,
        'i' as u8,
        'c' as u8,
        'B' as u8,
        'l' as u8,
        'o' as u8,
        'c' as u8,
        'k' as u8,
        ':' as u8,
    ];
    let kw_succ: Vec<u8> = vec![
        'S' as u8,
        'u' as u8,
        'c' as u8,
        'c' as u8,
        'e' as u8,
        's' as u8,
        's' as u8,
        'o' as u8,
        'r' as u8,
        's' as u8,
        ':' as u8,
    ];
    let kw_calls: Vec<u8> = vec!['c' as u8, 'a' as u8, 'l' as u8, 'l' as u8, 's' as u8];
    proof {
        assert(kw_function@ =~= spec_kw_function());
        assert(kw_block@ =~= spec_kw_block());
        assert(kw_succ@ =~= spec_kw_succ());
        assert(kw_calls@ =~= spec_kw_calls());
        assert(abs_cfgs(Seq::<CFG>::empty()) =~= Seq::<SpecCfg>::empty());
        assert(abs_blocks(Seq::<BlockEntry>::empty()) =~= Seq::<SpecBlockEntry>::empty());
    }
    let mut pos: usize = 0;
    while pos < text.len()
        invariant
            pos <= text@.len(),
            kw_function@ == spec_kw_function(),
            kw_block@ == spec_kw_block(),
            kw_succ@ == spec_kw_succ(),
            kw_calls@ == spec_kw_calls(),
            spec_parse(
                text@,
                pos as int,
                SpecParseState {
                    have: have_cur,
                    id: cur_id@,
                    blocks: abs_blocks(cur_blocks@),
                    out: abs_cfgs(out@),
                },
            ) == spec_parse_cfgs(text@),
        decreases text@.len() - pos,
    {
        let ghost st0 = SpecParseState {
            have: have_cur,
            id: cur_id@,
            blocks: abs_blocks(cur_blocks@),
            out: abs_cfgs(out@),
        };
        let end = line_break(text, pos);
        let i = skip_spaces(text, pos, end);
        if i == end {
            // blank line: functions are separated here
            proof {
                assert(spec_parse_line(text@, pos as int, end as int, st0) == Some(st0));
            }
        } else if match_keyword(text, i, end, kw_function.as_slice()) {
            let j = skip_spaces(text, i + kw_function.len(), end);
            let (name, j2) = take_name(text, j, end);
            let ghost name_view = name@;
            if name.len() == 0 {
                proof {
                    assert(spec_parse_line(text@, pos as int, end as int, st0) is None);
                }
                return None;
            }
            if skip_spaces(text, j2, end) != end {
                proof {
                    assert(spec_parse_line(text@, pos as int, end as int, st0) is None);
                }
                return None;
            }
            if have_cur {
                proof {
                    lemma_abs_cfgs_push(
                        out@,
                        CFG { id: cur_id, block_entries: cur_blocks },
                    );
                }
                out.push(CFG { id: cur_id, block_entries: cur_blocks });
            }
            have_cur = true;
            cur_id = name;
            cur_blocks = Vec::new();
            proof {
                assert(abs_blocks(cur_blocks@) =~= Seq::<SpecBlockEntry>::empty());
                assert(spec_parse_line(text@, pos as int, end as int, st0) == Some(
                    SpecParseState {
                        have: have_cur,
                        id: cur_id@,
                        blocks: abs_blocks(cur_blocks@),
                        out: abs_cfgs(out@),
                    },
                ));
            }
        } else if match_keyword(text, i, end, kw_block.as_slice()) {
            if !have_cur {
                proof {
                    assert(spec_parse_line(text@, pos as int, end as int, st0) is None);
                }
                return None;
            }
            let j = skip_spaces(text, i + kw_block.len(), end);
            let (id, j2) = match parse_number(text, j, end) {
                Some(p) => p,
                None => {
                    proof {
                        assert(spec_parse_line(text@, pos as int, end as int, st0) is None);
                    }
                    return None;
                },
            };
            let j3 = skip_spaces(text, j2, end);
            let calls: Option<Vec<u8>> = if j3 == end {
                None
            } else if match_keyword(text, j3, end, kw_calls.as_slice()) {
                let j4 = skip_spaces(text, j3 + kw_calls.len(), end);
                let (name, j5) = take_name(text, j4, end);
                if name.len() == 0 {
                    proof {
                        assert(spec_parse_line(text@, pos as int, end as int, st0) is None);
                    }
                    return None;
                }
                if skip_spaces(text, j5, end) != end {
                    proof {
                        assert(spec_parse_line(text@, pos as int, end as int, st0) is None);
                    }
                    return None;
                }
                Some(name)
            } else {
                proof {
                    assert(spec_parse_line(text@, pos as int, end as int, st0) is None);
                }
                return None;
            };
            let entry = BlockEntry { id, calls, successors: Vec::new() };
            proof {
                lemma_abs_blocks_push(cur_blocks@, entry);
            }
            cur_blocks.push(entry);
            proof {
                assert(spec_parse_line(text@, pos as int, end as int, st0) == Some(
                    SpecParseState {
                        have: have_cur,
                        id: cur_id@,
                        blocks: abs_blocks(cur_blocks@),
                        out: abs_cfgs(out@),
                    },
                ));
            }
        } else if match_keyword(text, i, end, kw_succ.as_slice()) {
            if !have_cur {
                proof {
                    assert(spec_parse_line(text@, pos as int, end as int, st0) is None);
                }
                return None;
            }
            let ghost blocks0 = cur_blocks@;
            let mut blk = match cur_blocks.pop() {
                Some(b) => b,
                None => {
                    proof {
                        assert(spec_parse_line(text@, pos as int, end as int, st0) is None);
                    }
                    return None;
                },
            };
            let mut j = skip_spaces(text, i + kw_succ.len(), end);
            let ghost jstart = j as int;
            let ghost blk0 = blk;
            proof {
                assert(st0.blocks.last() == abs_block(blk0));
            }
            let mut ok = true;
            while j < end
                invariant_except_break
                    ok,
                    j <= end <= text@.len(),
                    blk.id == blk0.id && blk.calls == blk0.calls,
                    spec_succs(text@, j as int, end as int, blk.successors@) == spec_succs(
                        text@,
                        jstart,
                        end as int,
                        blk0.successors@,
                    ),
                ensures
                    blk.id == blk0.id && blk.calls == blk0.calls,
                    ok ==> spec_succs(text@, jstart, end as int, blk0.successors@) == Some(
                        blk.successors@,
                    ),
                    !ok ==> spec_succs(text@, jstart, end as int, blk0.successors@) is None,
                decreases end - j,
            {
                match parse_number(text, j, end) {
                    Some(p) => {
                        let (id, j2) = p;
                        let ghost succ_prev = blk.successors@;
                        let ghost j_prev = j as int;
                        blk.successors.push(id);
                        j = skip_spaces(text, j2, end);
                        proof {
                            assert(spec_succs(text@, j_prev, end as int, succ_prev)
                                == spec_succs(text@, j as int, end as int, blk.successors@)) by {
                                assert(spec_number_ok(text@, j_prev, end as int));
                                assert(j2 == spec_digit_end(text@, j_prev, end as int));
                                assert(blk.successors@ == succ_prev.push(
                                    digits_val(text@, j_prev, j2 as int) as usize,
                                ));
                            }
                        }
                    },
                    None => {
                        proof {
                            assert(spec_succs(text@, j as int, end as int, blk.successors@)
                                is None);
                        }
                        ok = false;
                        break ;
                    },
                }
            }
            if !ok {
                proof {
                    assert(spec_parse_line(text@, pos as int, end as int, st0) is None);
                }
                return None;
            }
            proof {
                lemma_abs_blocks_last(
                    blocks0,
                    BlockEntry { id: blk.id, calls: blk.calls, successors: blk.successors },
                );
            }
            cur_blocks.push(blk);
            proof {
                assert(cur_blocks@ =~= blocks0.drop_last().push(cur_blocks@.last()));
                assert(abs_blocks(cur_blocks@) == st0.blocks.update(
                    st0.blocks.len() - 1,
                    SpecBlockEntry {
                        id: st0.blocks.last().id,
                        calls: st0.blocks.last().calls,
                        successors: spec_succs(
                            text@,
                            jstart,
                            end as int,
                            blk0.successors@,
                        )->Some_0,
                    },
                ));
                assert(spec_parse_line(text@, pos as int, end as int, st0) == Some(
                    SpecParseState {
                        have: have_cur,
                        id: cur_id@,
                        blocks: abs_blocks(cur_blocks@),
                        out: abs_cfgs(out@),
                    },
                ));
            }
        } else {
            proof {
                assert(spec_parse_line(text@, pos as int, end as int, st0) is None);
            }
            return None;
        }
        if end < text.len() {
            pos = end + 1;
        } else {
            pos = end;
        }
    }
    if have_cur {
        proof {
            lemma_abs_cfgs_push(out@, CFG { id: cur_id, block_entries: cur_blocks });
        }
        out.push(CFG { id: cur_id, block_entries: cur_blocks });
    }
    Some(out)
}

} // verus!
