//! The path reducer: a frozen set of per-function regexes and block maps,
//! queried to collapse execution traces to canonical representatives.

use std::collections::BTreeMap;
use vstd::prelude::*;

use crate::convert::{Cfg, GNFA};
use crate::re::{env_wf, guarded, parse_k_spec, val_flatten, ParseErr, ParsedK, RegExp};

verus! {

/// Why a path could not be reduced.
#[derive(Debug, PartialEq, Eq, Structural)]
pub enum ReduceError {
    /// The path does not conform to the regex of its apparent entry
    /// function, and the error mode demands failure.
    Invalid,
}

/// What to do when a path does not conform to its regex.
#[derive(Debug, Clone, Copy, PartialEq, Eq, Structural)]
pub enum OnError {
    /// Report the invalid path as an error.
    Fail,
    /// Return the input unchanged.
    FullPath,
    /// Return an empty path.
    EmptyPath,
}

/// The reserved star bound that selects the direct stack reducer instead of
/// the regex reducer.
pub const DIRECT_REDUCER_K: usize = 42;

/// An immutable reducer: per-function regexes, the function starting at
/// each block, and per-function exit blocks and loop heads, both keyed by
/// the function's first block.
#[derive(Debug)]
pub struct PathReducer {
    /// Regex of each function, keyed by function identifier.
    pub res: BTreeMap<i32, RegExp>,
    /// The function whose unique first block is the key.
    pub firsts: BTreeMap<i32, i32>,
    /// Exit blocks of a function, keyed by its first block.
    pub lasts: BTreeMap<i32, Vec<i32>>,
    /// Loop-head blocks of a function, keyed by its first block.
    pub loop_heads: BTreeMap<i32, Vec<i32>>,
    /// Star-iteration bound; the value 42 selects the direct reducer.
    pub k: usize,
}

impl PathReducer {
    /// Every regex in the environment is guarded, so parsing terminates.
    pub open spec fn wf(&self) -> bool {
        env_wf(self.res@)
    }

    /// The function starting at block `b`, or -1 when none does.
    pub open spec fn spec_fun_starting_with(&self, b: i32) -> i32 {
        if self.firsts@.dom().contains(b) {
            self.firsts@[b]
        } else {
            -1i32
        }
    }

    /// The exit blocks of the function whose first block is `first`.
    pub open spec fn spec_lasts(&self, first: i32) -> Seq<i32> {
        if self.lasts@.dom().contains(first) {
            self.lasts@[first]@
        } else {
            Seq::empty()
        }
    }

    /// The loop heads of the function whose first block is `first`.
    pub open spec fn spec_heads(&self, first: i32) -> Seq<i32> {
        if self.loop_heads@.dom().contains(first) {
            self.loop_heads@[first]@
        } else {
            Seq::empty()
        }
    }
}

/// Truncation of the buffer at the last occurrence of `block`, measured
/// from the end: when the last occurrence is at distance `d` from the end
/// of the buffer, the first `d` elements are kept. When `block` does not
/// occur, the buffer is unchanged.
pub open spec fn truncate_at_last_spec(buffer: Seq<i32>, block: i32) -> Seq<i32> {
    if buffer.contains(block) {
        let j = last_index_of(buffer, block);
        buffer.take(buffer.len() - 1 - j)
    } else {
        buffer
    }
}

/// Index of the last occurrence of `x` in `s`; -1 when absent.
pub open spec fn last_index_of(s: Seq<i32>, x: i32) -> int
    decreases s,
{
    if s.len() == 0 {
        -1
    } else if s.last() == x {
        s.len() - 1
    } else {
        last_index_of(s.drop_last(), x)
    }
}

/// The last occurrence index is a valid occurrence, and nothing after it
/// is an occurrence.
pub proof fn lemma_last_index_of(s: Seq<i32>, x: i32)
    requires
        s.contains(x),
    ensures
        0 <= last_index_of(s, x) < s.len(),
        s[last_index_of(s, x)] == x,
        forall|j: int| last_index_of(s, x) < j < s.len() ==> s[j] != x,
    decreases s,
{
    if s.len() > 0 && s.last() != x {
        assert(s.drop_last().contains(x)) by {
            let w = choose|i: int| 0 <= i < s.len() && s[i] == x;
            assert(s.drop_last()[w] == x);
        }
        lemma_last_index_of(s.drop_last(), x);
        assert forall|j: int| last_index_of(s, x) < j < s.len() implies s[j] != x by {
            if j < s.len() - 1 {
                assert(s[j] == s.drop_last()[j]);
            }
        }
    }
}

impl PathReducer {
    /// One call of the direct reducer: reads the first block of the call,
    /// then walks the call body collapsing loops and nested calls, until
    /// the call's exit block or the end of the input. Returns the emitted
    /// buffer, the next input position and the new call stack.
    pub open spec fn simple_one_spec(
        &self,
        path: Seq<i32>,
        pos: int,
        stack: Set<i32>,
        skip: bool,
    ) -> (Seq<i32>, int, Set<i32>)
        decreases path.len() - pos, 0int,
        when 0 <= pos <= path.len()
    {
        if pos == path.len() {
            (Seq::empty(), pos, stack)
        } else {
            let first = path[pos];
            let stack1 = stack.insert(first);
            let buf0: Seq<i32> = if skip {
                Seq::empty()
            } else {
                seq![first]
            };
            if self.spec_lasts(first).contains(first) {
                // single-block function
                let stack2 = if !skip {
                    stack1.remove(first)
                } else {
                    stack1
                };
                (buf0, pos + 1, stack2)
            } else {
                self.simple_loop_spec(path, pos + 1, stack1, skip, buf0, first)
            }
        }
    }

    /// The body walk of one call of the direct reducer. A block that starts
    /// a function opens a nested call, skipped when it is already on the
    /// stack; an exit block of the current function ends the call; a loop
    /// head truncates the buffer at its previous visit; any other block is
    /// emitted as is.
    pub open spec fn simple_loop_spec(
        &self,
        path: Seq<i32>,
        pos: int,
        stack: Set<i32>,
        skip: bool,
        buffer: Seq<i32>,
        first: i32,
    ) -> (Seq<i32>, int, Set<i32>)
        decreases path.len() - pos, 1int,
        when 0 <= pos <= path.len()
    {
        if pos >= path.len() {
            (buffer, pos, stack)
        } else {
            let block = path[pos];
            if self.spec_fun_starting_with(block) != -1 {
                if skip || stack.contains(block) {
                    let sub = self.simple_one_spec(path, pos, stack, true);
                    if pos < sub.1 <= path.len() {
                        self.simple_loop_spec(path, sub.1, sub.2, skip, buffer, first)
                    } else {
                        // never taken: a call at a non-exhausted position consumes
                        (buffer, pos, sub.2)
                    }
                } else {
                    let sub = self.simple_one_spec(path, pos, stack, skip);
                    if pos < sub.1 <= path.len() {
                        self.simple_loop_spec(path, sub.1, sub.2, skip, buffer + sub.0, first)
                    } else {
                        (buffer + sub.0, pos, sub.2)
                    }
                }
            } else if self.spec_lasts(first).contains(block) {
                if !skip {
                    (buffer.push(block), pos + 1, stack.remove(first))
                } else {
                    (buffer, pos + 1, stack)
                }
            } else if skip {
                self.simple_loop_spec(path, pos + 1, stack, skip, buffer, first)
            } else if !self.spec_heads(first).contains(block) {
                self.simple_loop_spec(path, pos + 1, stack, skip, buffer.push(block), first)
            } else {
                let buf2 = truncate_at_last_spec(buffer, block);
                self.simple_loop_spec(path, pos + 1, stack, skip, buf2.push(block), first)
            }
        }
    }

    /// The direct reducer: one call after another, each with a fresh call
    /// stack, until the input is exhausted.
    pub open spec fn simple_reduce_spec(&self, path: Seq<i32>, pos: int) -> Seq<i32>
        decreases path.len() - pos,
        when 0 <= pos <= path.len()
    {
        if pos >= path.len() {
            Seq::empty()
        } else {
            let sub = self.simple_one_spec(path, pos, Set::empty(), false);
            if pos < sub.1 <= path.len() {
                sub.0 + self.simple_reduce_spec(path, sub.1)
            } else {
                // never taken: a call at a non-exhausted position consumes
                sub.0
            }
        }
    }

    /// One call of the direct reducer consumes at least one block when
    /// input remains, and never runs past the end.
    pub proof fn lemma_simple_one_props(&self, path: Seq<i32>, pos: int, stack: Set<i32>, skip: bool)
        requires
            0 <= pos <= path.len(),
        ensures
            ({
                let r = self.simple_one_spec(path, pos, stack, skip);
                pos <= r.1 <= path.len() && (pos < path.len() ==> pos < r.1)
            }),
        decreases path.len() - pos, 0int,
    {
        if pos < path.len() {
            let first = path[pos];
            let stack1 = stack.insert(first);
            let buf0: Seq<i32> = if skip {
                Seq::empty()
            } else {
                seq![first]
            };
            if !self.spec_lasts(first).contains(first) {
                self.lemma_simple_loop_props(path, pos + 1, stack1, skip, buf0, first);
            }
        }
    }

    /// The body walk never moves the cursor backwards or past the end.
    pub proof fn lemma_simple_loop_props(
        &self,
        path: Seq<i32>,
        pos: int,
        stack: Set<i32>,
        skip: bool,
        buffer: Seq<i32>,
        first: i32,
    )
        requires
            0 <= pos <= path.len(),
        ensures
            ({
                let r = self.simple_loop_spec(path, pos, stack, skip, buffer, first);
                pos <= r.1 <= path.len()
            }),
        decreases path.len() - pos, 1int,
    {
        if pos < path.len() {
            let block = path[pos];
            if self.spec_fun_starting_with(block) != -1 {
                if skip || stack.contains(block) {
                    self.lemma_simple_one_props(path, pos, stack, true);
                    let sub = self.simple_one_spec(path, pos, stack, true);
                    if pos < sub.1 <= path.len() {
                        self.lemma_simple_loop_props(path, sub.1, sub.2, skip, buffer, first);
                    }
                } else {
                    self.lemma_simple_one_props(path, pos, stack, skip);
                    let sub = self.simple_one_spec(path, pos, stack, skip);
                    if pos < sub.1 <= path.len() {
                        self.lemma_simple_loop_props(path, sub.1, sub.2, skip, buffer + sub.0, first);
                    }
                }
            } else if self.spec_lasts(first).contains(block) {
            } else if skip {
                self.lemma_simple_loop_props(path, pos + 1, stack, skip, buffer, first);
            } else if !self.spec_heads(first).contains(block) {
                self.lemma_simple_loop_props(path, pos + 1, stack, skip, buffer.push(block), first);
            } else {
                let buf2 = truncate_at_last_spec(buffer, block);
                self.lemma_simple_loop_props(path, pos + 1, stack, skip, buf2.push(block), first);
            }
        }
    }
}

/// Whether a vector contains a value.
fn vec_contains(v: &Vec<i32>, x: i32) -> (r: bool)
    ensures
        r == v@.contains(x),
{
    let mut i: usize = 0;
    while i < v.len()
        invariant
            i <= v@.len(),
            forall|j: int| 0 <= j < i ==> v@[j] != x,
        decreases v@.len() - i,
    {
        if v[i] == x {
            return true;
        }
        i = i + 1;
    }
    false
}

/// Adds a value to a duplicate-free vector used as a set.
fn vec_set_insert(v: &mut Vec<i32>, x: i32)
    requires
        old(v)@.no_duplicates(),
    ensures
        final(v)@.no_duplicates(),
        final(v)@.to_set() == old(v)@.to_set().insert(x),
{
    let present = vec_contains(v, x);
    if !present {
        v.push(x);
        proof {
            let s = old(v)@;
            assert(v@.drop_last() =~= s);
            assert(v@.to_set() =~= s.to_set().insert(x)) by {
                assert forall|y: i32| s.to_set().insert(x).contains(y) implies v@.contains(y) by {
                    if y == x {
                        assert(v@.last() == x);
                    } else {
                        let w = choose|i: int| 0 <= i < s.len() && s[i] == y;
                        assert(v@[w] == y);
                    }
                }
                assert forall|y: i32| v@.contains(y) implies s.to_set().insert(x).contains(y) by {
                    let w = choose|i: int| 0 <= i < v@.len() && v@[i] == y;
                    if w < s.len() {
                        assert(s[w] == y);
                    }
                }
            }
        }
    } else {
        proof {
            assert(v@.to_set() =~= v@.to_set().insert(x));
        }
    }
}

/// Removes a value from a duplicate-free vector used as a set.
fn vec_set_remove(v: &mut Vec<i32>, x: i32)
    requires
        old(v)@.no_duplicates(),
    ensures
        final(v)@.no_duplicates(),
        final(v)@.to_set() == old(v)@.to_set().remove(x),
{
    let mut i: usize = 0;
    while i < v.len()
        invariant
            v@ == old(v)@,
            v@.no_duplicates(),
            i <= v@.len(),
            forall|j: int| 0 <= j < i ==> v@[j] != x,
        decreases v@.len() - i,
    {
        if v[i] == x {
            v.swap_remove(i);
            proof {
                let s = old(v)@;
                let n = s.len();
                assert(v@ =~= s.update(i as int, s.last()).drop_last());
                assert(forall|a: int|
                    0 <= a < v@.len() ==> #[trigger] v@[a] == (if a == i as int {
                        s[n - 1]
                    } else {
                        s[a]
                    }));
                assert(v@.no_duplicates()) by {
                    assert forall|a: int, b: int|
                        0 <= a < v@.len() && 0 <= b < v@.len() && a != b implies v@[a] != v@[b] by {
                        let ea: int = if a == i as int {
                            n - 1
                        } else {
                            a
                        };
                        let eb: int = if b == i as int {
                            n - 1
                        } else {
                            b
                        };
                        assert(v@[a] == s[ea] && v@[b] == s[eb] && ea != eb);
                    }
                }
                assert(v@.to_set() =~= s.to_set().remove(x)) by {
                    assert forall|y: i32| v@.contains(y) implies s.to_set().remove(x).contains(
                        y,
                    ) by {
                        let w = choose|j: int| 0 <= j < v@.len() && v@[j] == y;
                        let ew: int = if w == i as int {
                            n - 1
                        } else {
                            w
                        };
                        assert(s[ew] == y);
                        assert(ew != i as int);
                        assert(y != x);
                    }
                    assert forall|y: i32| s.to_set().remove(x).contains(y) implies v@.contains(
                        y,
                    ) by {
                        let w = choose|j: int| 0 <= j < s.len() && s[j] == y;
                        assert(w != i as int);
                        if w == n - 1 {
                            if i as int != n - 1 {
                                assert(v@[i as int] == y);
                            }
                        } else {
                            assert(v@[w] == y);
                        }
                    }
                }
            }
            return ;
        }
        i = i + 1;
    }
    proof {
        assert(!v@.contains(x));
        assert(v@.to_set() =~= v@.to_set().remove(x));
    }
}

/// Truncates the buffer at the last occurrence of `block`, keeping as many
/// elements as that occurrence's distance from the end of the buffer.
fn truncate_at_last(buffer: &mut Vec<i32>, block: i32)
    ensures
        final(buffer)@ == truncate_at_last_spec(old(buffer)@, block),
{
    let mut i: usize = buffer.len();
    while i > 0
        invariant
            buffer@ == old(buffer)@,
            i <= buffer@.len(),
            forall|j: int| i <= j < buffer@.len() ==> buffer@[j] != block,
        decreases i,
    {
        i = i - 1;
        if buffer[i] == block {
            proof {
                assert(buffer@.contains(block));
                lemma_last_index_of(buffer@, block);
                assert(last_index_of(buffer@, block) == i as int);
            }
            let keep = buffer.len() - 1 - i;
            buffer.truncate(keep);
            proof {
                assert(buffer@ =~= truncate_at_last_spec(old(buffer)@, block));
            }
            return ;
        }
    }
    proof {
        assert(!buffer@.contains(block));
    }
}

impl PathReducer {
    /// The function starting at block `b`, or -1 when none does.
    pub fn fun_starting_with(&self, b: i32) -> (r: i32)
        ensures
            r == self.spec_fun_starting_with(b),
    {
        match self.firsts.get(&b) {
            Some(f) => *f,
            None => -1,
        }
    }

    /// Whether `b` is an exit block of the function whose first block is
    /// `first`.
    fn lasts_contains(&self, first: i32, b: i32) -> (r: bool)
        ensures
            r == self.spec_lasts(first).contains(b),
    {
        match self.lasts.get(&first) {
            Some(v) => vec_contains(v, b),
            None => false,
        }
    }

    /// Whether `b` is a loop head of the function whose first block is
    /// `first`.
    fn heads_contains(&self, first: i32, b: i32) -> (r: bool)
        ensures
            r == self.spec_heads(first).contains(b),
    {
        match self.loop_heads.get(&first) {
            Some(v) => vec_contains(v, b),
            None => false,
        }
    }

    /// One call of the direct reducer; see `simple_one_spec`.
    fn simple_reduce_one_fun(&self, path: &[i32], pos: usize, stack: &mut Vec<i32>, skip: bool) -> (r: (
        Vec<i32>,
        usize,
    ))
        requires
            pos <= path@.len(),
            old(stack)@.no_duplicates(),
        ensures
            final(stack)@.no_duplicates(),
            ({
                let s = self.simple_one_spec(path@, pos as int, old(stack)@.to_set(), skip);
                r.0@ == s.0 && r.1 == s.1 && final(stack)@.to_set() == s.2
            }),
            pos <= r.1 <= path@.len(),
            pos < path@.len() ==> pos < r.1,
        decreases path@.len() - pos,
    {
        if pos == path.len() {
            return (Vec::new(), pos);
        }
        let ghost stack_in = stack@.to_set();
        let first = path[pos];
        vec_set_insert(stack, first);
        let mut buffer: Vec<i32> = Vec::new();
        if !skip {
            buffer.push(first);
            proof {
                assert(buffer@ =~= seq![first]);
            }
        } else {
            proof {
                assert(buffer@ =~= Seq::<i32>::empty());
            }
        }
        let mut cur = pos + 1;
        if self.lasts_contains(first, first) {
            if !skip {
                vec_set_remove(stack, first);
            }
            return (buffer, cur);
        }
        let ghost target = self.simple_loop_spec(
            path@,
            pos + 1,
            stack_in.insert(first),
            skip,
            buffer@,
            first,
        );
        proof {
            self.lemma_simple_loop_props(path@, pos + 1, stack_in.insert(first), skip, buffer@, first);
        }
        loop
            invariant
                pos < cur <= path@.len(),
                stack@.no_duplicates(),
                self.simple_loop_spec(path@, cur as int, stack@.to_set(), skip, buffer@, first)
                    == target,
                self.simple_one_spec(path@, pos as int, old(stack)@.to_set(), skip) == target,
                target.1 <= path@.len(),
            decreases path@.len() - cur,
        {
            if cur == path.len() {
                return (buffer, cur);
            }
            let block = path[cur];
            if self.fun_starting_with(block) != -1 {
                if skip || vec_contains(stack, block) {
                    proof {
                        assert(stack@.to_set().contains(block) == stack@.contains(block));
                    }
                    let sub = self.simple_reduce_one_fun(path, cur, stack, true);
                    cur = sub.1;
                } else {
                    proof {
                        assert(stack@.to_set().contains(block) == stack@.contains(block));
                    }
                    let sub = self.simple_reduce_one_fun(path, cur, stack, skip);
                    let mut sub_buf = sub.0;
                    buffer.append(&mut sub_buf);
                    cur = sub.1;
                }
            } else if self.lasts_contains(first, block) {
                cur = cur + 1;
                if !skip {
                    vec_set_remove(stack, first);
                    buffer.push(block);
                    return (buffer, cur);
                } else {
                    return (buffer, cur);
                }
            } else if skip {
                cur = cur + 1;
            } else if !self.heads_contains(first, block) {
                buffer.push(block);
                cur = cur + 1;
            } else {
                truncate_at_last(&mut buffer, block);
                buffer.push(block);
                cur = cur + 1;
            }
        }
    }

    /// The direct reducer: collapses loop iterations to the latest visit
    /// and recursive re-entries to nothing, one call after another, with no
    /// validation of the input.
    pub fn simple_reduce(&self, path: &[i32]) -> (r: Vec<i32>)
        ensures
            r@ == self.simple_reduce_spec(path@, 0),
    {
        let mut res: Vec<i32> = Vec::new();
        let mut cur: usize = 0;
        loop
            invariant
                cur <= path@.len(),
                self.simple_reduce_spec(path@, 0) == res@ + self.simple_reduce_spec(
                    path@,
                    cur as int,
                ),
            decreases path@.len() - cur,
        {
            if cur == path.len() {
                proof {
                    assert(res@ + self.simple_reduce_spec(path@, cur as int) =~= res@);
                }
                return res;
            }
            let mut stack: Vec<i32> = Vec::new();
            proof {
                assert(stack@.to_set() =~= Set::<i32>::empty());
            }
            let sub = self.simple_reduce_one_fun(path, cur, &mut stack, false);
            let mut sub_buf = sub.0;
            let ghost prev = cur as int;
            let ghost res_prev = res@;
            res.append(&mut sub_buf);
            cur = sub.1;
            proof {
                let s = self.simple_one_spec(path@, prev, Set::empty(), false);
                assert(self.simple_reduce_spec(path@, prev) == s.0 + self.simple_reduce_spec(
                    path@,
                    cur as int,
                ));
                assert(res_prev + (s.0 + self.simple_reduce_spec(path@, cur as int)) =~= (res_prev
                    + s.0) + self.simple_reduce_spec(path@, cur as int));
            }
        }
    }
}

/// Outcome of the regex reducer on a whole path.
pub enum ReduceOutcome {
    Reduced(Seq<i32>),
    Invalid,
}

impl PathReducer {
    /// The regex reducer's driving loop: parses the remaining input against
    /// `re` repeatedly, flattening each parse tree in order. An abort ends
    /// the path with the flattened partial tree; a mismatch is invalid.
    /// A parse that consumes nothing ends the path with its tree.
    pub open spec fn reduce_loop_spec(&self, re: RegExp, path: Seq<i32>, pos: int) -> ReduceOutcome
        decreases path.len() - pos,
        when 0 <= pos <= path.len() && env_wf(self.res@)
    {
        if pos >= path.len() {
            ReduceOutcome::Reduced(Seq::empty())
        } else {
            match parse_k_spec(re, path, pos, self.res@, self.k as nat) {
                ParsedK::Matched(v, p) => if pos < p <= path.len() {
                    match self.reduce_loop_spec(re, path, p) {
                        ReduceOutcome::Reduced(rest) => ReduceOutcome::Reduced(
                            val_flatten(v) + rest,
                        ),
                        ReduceOutcome::Invalid => ReduceOutcome::Invalid,
                    }
                } else {
                    ReduceOutcome::Reduced(val_flatten(v))
                },
                ParsedK::Aborted(v) => ReduceOutcome::Reduced(val_flatten(v)),
                ParsedK::Invalid => ReduceOutcome::Invalid,
            }
        }
    }

    /// What the reducer computes for a path: the direct reducer when `k` is
    /// the reserved sentinel; otherwise the k-bounded parse against the
    /// regex of the function starting at the path's first block, repeated
    /// until the input is exhausted.
    pub open spec fn spec_reduce(&self, path: Seq<i32>) -> ReduceOutcome {
        if self.k == DIRECT_REDUCER_K {
            ReduceOutcome::Reduced(self.simple_reduce_spec(path, 0))
        } else if path.len() == 0 {
            ReduceOutcome::Reduced(Seq::empty())
        } else {
            self.reduce_loop_spec(RegExp::Var(self.spec_fun_starting_with(path[0])), path, 0)
        }
    }

    /// What `reduce` returns for a path under an error mode: the canonical
    /// reduced path, or, when the path conforms to no regex, the outcome
    /// the error mode prescribes.
    pub open spec fn reduce_post(
        &self,
        path: Seq<i32>,
        on_error: OnError,
        r: Result<Vec<i32>, ReduceError>,
    ) -> bool {
        let out = self.spec_reduce(path);
        match r {
            Ok(v) => match out {
                ReduceOutcome::Reduced(s) => v@ == s,
                ReduceOutcome::Invalid => match on_error {
                    OnError::Fail => false,
                    OnError::FullPath => v@ == path,
                    OnError::EmptyPath => v@ == Seq::<i32>::empty(),
                },
            },
            Err(e) => out is Invalid && on_error == OnError::Fail && e == ReduceError::Invalid,
        }
    }

    /// Reduces a path to its canonical representative. The entry function
    /// is chosen by the path's first block; `_cfg` is kept for interface
    /// compatibility and not consulted. On a path that does not conform to
    /// its regex, `on_error` decides between an error, the unreduced input,
    /// and an empty path.
    pub fn reduce(&self, path: &[i32], _cfg: i32, on_error: OnError) -> (r: Result<
        Vec<i32>,
        ReduceError,
    >)
        requires
            self.wf(),
        ensures
            self.reduce_post(path@, on_error, r),
    {
        if self.k == DIRECT_REDUCER_K {
            return Ok(self.simple_reduce(path));
        }
        if path.len() == 0 {
            return Ok(Vec::new());
        }
        let f = self.fun_starting_with(path[0]);
        let re = RegExp::Var(f);
        let mut reduced: Vec<i32> = Vec::new();
        let mut cur: usize = 0;
        let ghost target = self.reduce_loop_spec(re, path@, 0);
        proof {
            assert(reduced@ + Seq::<i32>::empty() =~= reduced@);
        }
        loop
            invariant
                self.wf(),
                self.k != DIRECT_REDUCER_K,
                path@.len() > 0,
                cur <= path@.len(),
                re == RegExp::Var(self.spec_fun_starting_with(path@[0])),
                target == self.reduce_loop_spec(re, path@, 0),
                ({
                    let now = self.reduce_loop_spec(re, path@, cur as int);
                    match now {
                        ReduceOutcome::Reduced(rest) => target == ReduceOutcome::Reduced(
                            reduced@ + rest,
                        ),
                        ReduceOutcome::Invalid => target is Invalid,
                    }
                }),
            decreases path@.len() - cur,
        {
            if cur == path.len() {
                proof {
                    assert(reduced@ + Seq::<i32>::empty() =~= reduced@);
                }
                return Ok(reduced);
            }
            match re.parse_k(path, cur, &self.res, self.k) {
                Ok((val, p)) => {
                    let mut flat = val.into_vec();
                    let ghost reduced_prev = reduced@;
                    let ghost flat_prev = flat@;
                    reduced.append(&mut flat);
                    if p == cur {
                        proof {
                            assert(reduced@ =~= reduced_prev + flat_prev);
                        }
                        return Ok(reduced);
                    }
                    cur = p;
                    proof {
                        assert(reduced@ =~= reduced_prev + flat_prev);
                        let now = self.reduce_loop_spec(re, path@, cur as int);
                        if now is Reduced {
                            let rest = now->Reduced_0;
                            assert(reduced_prev + (flat_prev + rest) =~= (reduced_prev + flat_prev)
                                + rest);
                        }
                    }
                },
                Err(ParseErr::Abort(val)) => {
                    let mut flat = val.into_vec();
                    let ghost reduced_prev = reduced@;
                    let ghost flat_prev = flat@;
                    reduced.append(&mut flat);
                    proof {
                        assert(reduced@ =~= reduced_prev + flat_prev);
                    }
                    return Ok(reduced);
                },
                Err(ParseErr::Invalid) => {
                    match on_error {
                        OnError::Fail => {
                            return Err(ReduceError::Invalid);
                        },
                        OnError::FullPath => {
                            return Ok(vstd::slice::slice_to_vec(path));
                        },
                        OnError::EmptyPath => {
                            return Ok(Vec::new());
                        },
                    }
                },
            }
        }
    }
}

/// Why a reducer could not be built.
#[derive(Debug, PartialEq, Eq, Structural)]
pub enum BuildError {
    /// Two functions share a first block.
    DuplicateFirstBlock,
    /// A control-flow graph is not well formed, its exit is unreachable
    /// from its entry, or its regex has no usable first literal.
    MalformedCFG,
}

/// Whether a control-flow graph compiles: it is well formed, fits the
/// machine, its elimination connects the start state to the exit, and the
/// resulting regex is guarded, so that a parse cannot expand call
/// references forever.
pub open spec fn fun_compiles(g: Cfg) -> bool {
    &&& g.wf()
    &&& g.nodes@.len() < usize::MAX
    &&& crate::convert::spec_compile(g) is Some
    &&& guarded(crate::convert::spec_compile(g)->Some_0)
}

/// The block identifier of a graph's entry node.
pub open spec fn entry_label(g: Cfg) -> i32 {
    crate::convert::spec_block_id(g.nodes@[g.entry as int])
}

/// Whether a control-flow graph is fit for the reducer: it compiles, its
/// node count admits the loop-head analysis, and its regex's first literal
/// is its entry block's label.
pub open spec fn fun_ok(g: Cfg) -> bool {
    &&& fun_compiles(g)
    &&& exit_is_exit(g)
    &&& g.nodes@.len() < u32::MAX as usize
    &&& crate::convert::succs_total(g.succs@) < u32::MAX as usize
    &&& crate::re::spec_re_first(crate::convert::spec_compile(g)->Some_0) == Some(entry_label(g))
}

/// Compiles each control-flow graph to its regex by GNFA state
/// elimination. Succeeds exactly when every graph compiles.
fn convert_cfgs(cfgs: &Vec<(i32, Cfg)>) -> (r: Result<BTreeMap<i32, RegExp>, BuildError>)
    ensures
        r is Ok <==> forall|i: int| 0 <= i < cfgs@.len() ==> fun_compiles((#[trigger] cfgs@[i]).1),
        r is Err ==> r == Err::<BTreeMap<i32, RegExp>, BuildError>(BuildError::MalformedCFG),
        match r {
            Ok(res) => {
                &&& env_wf(res@)
                &&& forall|x: i32|
                    res@.dom().contains(x) <==> exists|i: int|
                        0 <= i < cfgs@.len() && (#[trigger] cfgs@[i]).0 == x
                &&& forall|x: i32|
                    #[trigger] res@.dom().contains(x) ==> exists|i: int|
                        0 <= i < cfgs@.len() && (#[trigger] cfgs@[i]).0 == x && res@[x]
                            == crate::convert::spec_compile(cfgs@[i].1)->Some_0
            },
            Err(_) => true,
        },
{
    let mut res: BTreeMap<i32, RegExp> = BTreeMap::new();
    let mut i: usize = 0;
    while i < cfgs.len()
        invariant
            i <= cfgs@.len(),
            env_wf(res@),
            forall|ii: int| 0 <= ii < i ==> fun_compiles((#[trigger] cfgs@[ii]).1),
            forall|x: i32|
                res@.dom().contains(x) <==> exists|ii: int|
                    0 <= ii < i && (#[trigger] cfgs@[ii]).0 == x,
            forall|x: i32|
                #[trigger] res@.dom().contains(x) ==> exists|ii: int|
                    0 <= ii < i && (#[trigger] cfgs@[ii]).0 == x && res@[x]
                        == crate::convert::spec_compile(cfgs@[ii].1)->Some_0,
        decreases cfgs@.len() - i,
    {
        let cfg = &cfgs[i].1;
        if !cfg.check() {
            return Err(BuildError::MalformedCFG);
        }
        if cfg.nodes.len() >= usize::MAX {
            return Err(BuildError::MalformedCFG);
        }
        let mut gnfa = GNFA::from_cfg(cfg);
        proof {
            assert(crate::convert::edges_map(gnfa.edges@) =~= crate::convert::init_map(*cfg)) by {
                assert forall|p: (int, int)|
                    #[trigger] crate::convert::init_map(*cfg).dom().contains(p) implies crate::convert::edges_map(
                    gnfa.edges@,
                )[p] == crate::convert::init_map(*cfg)[p] by {
                    assert(crate::convert::has_edge(gnfa.edges@, p.0, p.1));
                }
            }
            assert(gnfa.alive@ =~= Seq::new((cfg.nodes@.len() + 1) as nat, |i: int| true));
        }
        gnfa.reduce();
        let re = match gnfa.start_to_end() {
            Some(re) => re,
            None => {
                proof {
                    assert(!fun_compiles(cfgs@[i as int].1));
                }
                return Err(BuildError::MalformedCFG);
            },
        };
        proof {
            assert(crate::convert::spec_compile(*cfg) == Some(re)) by {
                assert(crate::convert::edges_map(gnfa.edges@).dom().contains(
                    (cfg.nodes@.len() as int, cfg.exit as int),
                ));
                assert(crate::convert::edges_map(gnfa.edges@)[(cfg.nodes@.len() as int, cfg.exit as int)]
                    == re);
            }
        }
        if !re.is_guarded() {
            return Err(BuildError::MalformedCFG);
        }
        let ghost res_prev = res@;
        res.insert(cfgs[i].0, re);
        proof {
            assert forall|x: i32| res@.dom().contains(x) implies guarded(#[trigger] res@[x]) by {
                if x != cfgs[i as int].0 {
                    assert(res_prev.dom().contains(x) && res@[x] == res_prev[x]);
                }
            }
            assert forall|x: i32| #[trigger] res@.dom().contains(x) implies exists|ii: int|
                0 <= ii < i + 1 && (#[trigger] cfgs@[ii]).0 == x && res@[x]
                    == crate::convert::spec_compile(cfgs@[ii].1)->Some_0 by {
                if x != cfgs[i as int].0 {
                    let ii = choose|ii: int|
                        0 <= ii < i && (#[trigger] cfgs@[ii]).0 == x && res_prev[x]
                            == crate::convert::spec_compile(cfgs@[ii].1)->Some_0;
                    assert(res@[x] == res_prev[x]);
                } else {
                    assert((#[trigger] cfgs@[i as int]).0 == x && res@[x]
                        == crate::convert::spec_compile(cfgs@[i as int].1)->Some_0);
                }
            }
        }
        i = i + 1;
    }
    Ok(res)
}

/// The exit blocks of each function, keyed by the block identifier of its
/// entry node.
/// The bound value is a function's exit-block list: it holds exactly the
/// identifiers of the function's nodes without successors, and it is not
/// empty, the exit node itself being one of them.
pub open spec fn lasts_entry_of(m: Map<i32, Vec<i32>>, key: i32, g: Cfg) -> bool {
    &&& forall|bb: i32|
        #[trigger] m[key]@.contains(bb) <==> exists|v: int|
            0 <= v < g.nodes@.len() && (#[trigger] g.succs@[v])@.len() == 0
                && crate::convert::spec_block_id(g.nodes@[v]) == bb
    &&& m[key]@.len() > 0
}

/// Whether a graph's exit node has no successors, as the data model
/// demands of an exit.
pub open spec fn exit_is_exit(g: Cfg) -> bool {
    g.succs@[g.exit as int]@.len() == 0
}

fn last_map(cfgs: &Vec<(i32, Cfg)>) -> (r: Result<BTreeMap<i32, Vec<i32>>, BuildError>)
    ensures
        r is Err <==> exists|i: int|
            0 <= i < cfgs@.len() && !((#[trigger] cfgs@[i]).1.wf() && exit_is_exit(cfgs@[i].1)),
        r is Err ==> r == Err::<BTreeMap<i32, Vec<i32>>, BuildError>(BuildError::MalformedCFG),
        match r {
            Ok(m) => {
                &&& forall|key: i32|
                    #[trigger] m@.dom().contains(key) ==> exists|i: int|
                        {
                            let g = (#[trigger] cfgs@[i]).1;
                            0 <= i < cfgs@.len() && g.wf() && crate::convert::spec_block_id(
                                g.nodes@[g.entry as int],
                            ) == key && lasts_entry_of(m@, key, g)
                        }
                &&& forall|i: int|
                    0 <= i < cfgs@.len() ==> m@.dom().contains(
                        crate::convert::spec_block_id(
                            (#[trigger] cfgs@[i]).1.nodes@[cfgs@[i].1.entry as int],
                        ),
                    )
            },
            Err(_) => true,
        },
{
    let mut lasts: BTreeMap<i32, Vec<i32>> = BTreeMap::new();
    let mut i: usize = 0;
    while i < cfgs.len()
        invariant
            i <= cfgs@.len(),
            forall|ii: int|
                0 <= ii < i ==> (#[trigger] cfgs@[ii]).1.wf() && exit_is_exit(cfgs@[ii].1),
            forall|key: i32|
                #[trigger] lasts@.dom().contains(key) ==> exists|ii: int|
                    {
                        let g = (#[trigger] cfgs@[ii]).1;
                        0 <= ii < cfgs@.len() && g.wf() && crate::convert::spec_block_id(
                            g.nodes@[g.entry as int],
                        ) == key && lasts_entry_of(lasts@, key, g)
                    },
            forall|ii: int|
                0 <= ii < i ==> lasts@.dom().contains(
                    crate::convert::spec_block_id(
                        (#[trigger] cfgs@[ii]).1.nodes@[cfgs@[ii].1.entry as int],
                    ),
                ),
        decreases cfgs@.len() - i,
    {
        let cfg = &cfgs[i].1;
        if !cfg.check() {
            return Err(BuildError::MalformedCFG);
        }
        // the exit node must have no successors
        if !cfg.succs[cfg.exit].is_empty() {
            return Err(BuildError::MalformedCFG);
        }
        let first = cfg.nodes[cfg.entry].to_block_id();
        let exits = cfg.exit_blocks();
        proof {
            // the exit node itself is in the set, so it is not empty
            assert(exits@.contains(crate::convert::spec_block_id(cfg.nodes@[cfg.exit as int])))
                by {
                assert(0 <= cfg.exit < cfg.nodes@.len() && (#[trigger] cfg.succs@[cfg.exit as int])@.len()
                    == 0 && crate::convert::spec_block_id(cfg.nodes@[cfg.exit as int])
                    == crate::convert::spec_block_id(cfg.nodes@[cfg.exit as int]));
            }
            assert(exits@.len() > 0);
        }
        let ghost lasts_prev = lasts@;
        lasts.insert(first, exits);
        proof {
            assert forall|key: i32| #[trigger] lasts@.dom().contains(key) implies exists|ii: int|
                {
                    let g = (#[trigger] cfgs@[ii]).1;
                    0 <= ii < cfgs@.len() && g.wf() && crate::convert::spec_block_id(
                        g.nodes@[g.entry as int],
                    ) == key && lasts_entry_of(lasts@, key, g)
                } by {
                if key == first {
                    let g = cfgs@[i as int].1;
                    assert(0 <= i < cfgs@.len() && g.wf() && crate::convert::spec_block_id(
                        g.nodes@[g.entry as int],
                    ) == key && lasts_entry_of(lasts@, key, g));
                } else {
                    let ii = choose|ii: int|
                        {
                            let g = (#[trigger] cfgs@[ii]).1;
                            0 <= ii < cfgs@.len() && g.wf() && crate::convert::spec_block_id(
                                g.nodes@[g.entry as int],
                            ) == key && lasts_entry_of(lasts_prev, key, g)
                        };
                    assert(lasts@[key] == lasts_prev[key]);
                    let g = cfgs@[ii].1;
                    assert(0 <= ii < cfgs@.len() && g.wf() && crate::convert::spec_block_id(
                        g.nodes@[g.entry as int],
                    ) == key && lasts_entry_of(lasts@, key, g));
                }
            }
        }
        i = i + 1;
    }
    Ok(lasts)
}

impl PathReducer {
    /// Builds a reducer from a set of control-flow graphs: compiles each to
    /// its regex, records each function's first block, exit blocks and loop
    /// heads, and freezes the result. Fails when a graph is malformed or
    /// disconnected, and when two functions share a first block.
    #[verifier::rlimit(100)]
    pub fn from_cfgs(cfgs: Vec<(i32, Cfg)>, k: usize) -> (r: Result<PathReducer, BuildError>)
        ensures
            r is Ok <==> ({
                &&& forall|i: int| 0 <= i < cfgs@.len() ==> fun_ok((#[trigger] cfgs@[i]).1)
                &&& forall|i: int, j: int|
                    0 <= i < cfgs@.len() && 0 <= j < cfgs@.len() && i != j ==> (
                    #[trigger] cfgs@[i]).0 != (#[trigger] cfgs@[j]).0
                &&& forall|i: int, j: int|
                    0 <= i < cfgs@.len() && 0 <= j < cfgs@.len() && i != j ==> entry_label(
                        (#[trigger] cfgs@[i]).1,
                    ) != entry_label((#[trigger] cfgs@[j]).1)
            }),
            r == Err::<PathReducer, BuildError>(BuildError::DuplicateFirstBlock) ==> exists|
                i: int,
                j: int,
            |
                0 <= i < cfgs@.len() && 0 <= j < cfgs@.len() && i != j && entry_label(
                    (#[trigger] cfgs@[i]).1,
                ) == entry_label((#[trigger] cfgs@[j]).1),
            r == Err::<PathReducer, BuildError>(BuildError::MalformedCFG) ==> !((forall|i: int|
                0 <= i < cfgs@.len() ==> fun_ok((#[trigger] cfgs@[i]).1)) && (forall|
                i: int,
                j: int,
            |
                0 <= i < cfgs@.len() && 0 <= j < cfgs@.len() && i != j ==> (#[trigger] cfgs@[i]).0
                    != (#[trigger] cfgs@[j]).0)),
            match r {
                Ok(red) => {
                    &&& red.wf()
                    &&& red.k == k
                    &&& forall|x: i32|
                        red.res@.dom().contains(x) <==> exists|i: int|
                            0 <= i < cfgs@.len() && (#[trigger] cfgs@[i]).0 == x
                    &&& forall|i: int|
                        0 <= i < cfgs@.len() ==> {
                            let fid = (#[trigger] cfgs@[i]).0;
                            let g = cfgs@[i].1;
                            let lbl = crate::convert::spec_block_id(g.nodes@[g.entry as int]);
                            &&& g.wf()
                            &&& red.res@.dom().contains(fid)
                            &&& crate::re::spec_re_first(red.res@[fid]) == Some(lbl)
                            &&& red.firsts@.dom().contains(lbl) && red.firsts@[lbl] == fid
                            &&& red.loop_heads@.dom().contains(lbl)
                            &&& red.lasts@.dom().contains(lbl)
                        }
                    &&& forall|i: int, j: int|
                        0 <= i < cfgs@.len() && 0 <= j < cfgs@.len() && i != j
                            ==> crate::convert::spec_block_id(
                            (#[trigger] cfgs@[i]).1.nodes@[cfgs@[i].1.entry as int],
                        ) != crate::convert::spec_block_id(
                            (#[trigger] cfgs@[j]).1.nodes@[cfgs@[j].1.entry as int],
                        )
                    &&& forall|key: i32|
                        #[trigger] red.lasts@.dom().contains(key) ==> exists|i: int|
                            {
                                let g = (#[trigger] cfgs@[i]).1;
                                0 <= i < cfgs@.len() && g.wf()
                                    && crate::convert::spec_block_id(g.nodes@[g.entry as int])
                                    == key && lasts_entry_of(red.lasts@, key, g)
                            }
                    &&& forall|key: i32|
                        #[trigger] red.loop_heads@.dom().contains(key) ==> exists|i: int|
                            {
                                let g = (#[trigger] cfgs@[i]).1;
                                0 <= i < cfgs@.len() && g.wf() && crate::re::spec_re_first(
                                    red.res@[cfgs@[i].0],
                                ) == Some(key) && (forall|bb: i32|
                                    red.loop_heads@[key]@.contains(bb)
                                        <==> crate::convert::is_loop_head(g, bb))
                            }
                    &&& forall|b: i32|
                        #[trigger] red.firsts@.dom().contains(b) ==> exists|i: int|
                            0 <= i < cfgs@.len() && (#[trigger] cfgs@[i]).0 == red.firsts@[b]
                                && crate::re::spec_re_first(red.res@[red.firsts@[b]]) == Some(b)
                },
                Err(_) => true,
            },
    {
        let res = match convert_cfgs(&cfgs) {
            Ok(res) => res,
            Err(e) => {
                return Err(e);
            },
        };
        let lasts = match last_map(&cfgs) {
            Ok(lasts) => lasts,
            Err(e) => {
                return Err(e);
            },
        };
        let mut firsts: BTreeMap<i32, i32> = BTreeMap::new();
        let mut loop_heads: BTreeMap<i32, Vec<i32>> = BTreeMap::new();
        let mut i: usize = 0;
        while i < cfgs.len()
            invariant
                i <= cfgs@.len(),
                env_wf(res@),
                forall|x: i32|
                    res@.dom().contains(x) <==> exists|ii: int|
                        0 <= ii < cfgs@.len() && (#[trigger] cfgs@[ii]).0 == x,
                forall|x: i32|
                    #[trigger] res@.dom().contains(x) ==> exists|ii: int|
                        0 <= ii < cfgs@.len() && (#[trigger] cfgs@[ii]).0 == x && res@[x]
                            == crate::convert::spec_compile(cfgs@[ii].1)->Some_0,
                forall|ii: int|
                    0 <= ii < i ==> {
                        let fid = (#[trigger] cfgs@[ii]).0;
                        let g = cfgs@[ii].1;
                        let lbl = crate::convert::spec_block_id(g.nodes@[g.entry as int]);
                        &&& g.wf()
                        &&& crate::re::spec_re_first(res@[fid]) == Some(lbl)
                        &&& firsts@.dom().contains(lbl) && firsts@[lbl] == fid
                        &&& loop_heads@.dom().contains(lbl)
                    },
                forall|ii: int, jj: int|
                    0 <= ii < i && 0 <= jj < i && ii != jj ==> crate::convert::spec_block_id(
                        (#[trigger] cfgs@[ii]).1.nodes@[cfgs@[ii].1.entry as int],
                    ) != crate::convert::spec_block_id(
                        (#[trigger] cfgs@[jj]).1.nodes@[cfgs@[jj].1.entry as int],
                    ),
                forall|key: i32|
                    #[trigger] loop_heads@.dom().contains(key) ==> exists|ii: int|
                        {
                            let g = (#[trigger] cfgs@[ii]).1;
                            0 <= ii < cfgs@.len() && g.wf() && crate::re::spec_re_first(
                                res@[cfgs@[ii].0],
                            ) == Some(key) && (forall|bb: i32|
                                loop_heads@[key]@.contains(bb) <==> crate::convert::is_loop_head(
                                    g,
                                    bb,
                                ))
                        },
                forall|b: i32|
                    #[trigger] firsts@.dom().contains(b) ==> exists|ii: int|
                        0 <= ii < i && (#[trigger] cfgs@[ii]).0 == firsts@[b]
                            && crate::re::spec_re_first(res@[firsts@[b]]) == Some(b) && entry_label(
                            cfgs@[ii].1,
                        ) == b,
                forall|ii: int|
                    0 <= ii < i ==> (#[trigger] cfgs@[ii]).1.nodes@.len() < u32::MAX as usize
                        && crate::convert::succs_total(cfgs@[ii].1.succs@) < u32::MAX as usize,
            decreases cfgs@.len() - i,
        {
            let fun_id = cfgs[i].0;
            let cfg = &cfgs[i].1;
            if !cfg.check() {
                return Err(BuildError::MalformedCFG);
            }
            if cfg.nodes.len() >= u32::MAX as usize {
                return Err(BuildError::MalformedCFG);
            }
            let re = match res.get(&fun_id) {
                Some(re) => re,
                None => {
                    proof {
                        assert(res@.dom().contains(fun_id)) by {
                            assert((#[trigger] cfgs@[i as int]).0 == fun_id);
                        }
                        assert(false);
                    }
                    return Err(BuildError::MalformedCFG);
                },
            };
            let first = match re.first() {
                Some(b) => b,
                None => {
                    proof {
                        assert(res@.dom().contains(fun_id));
                        let j = choose|j: int|
                            0 <= j < cfgs@.len() && (#[trigger] cfgs@[j]).0 == fun_id && res@[fun_id]
                                == crate::convert::spec_compile(cfgs@[j].1)->Some_0;
                        if j == i as int {
                            assert(!fun_ok(cfgs@[i as int].1));
                        } else {
                            assert((#[trigger] cfgs@[i as int]).0 == (#[trigger] cfgs@[j]).0);
                        }
                    }
                    return Err(BuildError::MalformedCFG);
                },
            };
            // the regex's first literal must be the entry block's label
            if first != cfg.nodes[cfg.entry].to_block_id() {
                proof {
                    assert(res@.dom().contains(fun_id));
                    let j = choose|j: int|
                        0 <= j < cfgs@.len() && (#[trigger] cfgs@[j]).0 == fun_id && res@[fun_id]
                            == crate::convert::spec_compile(cfgs@[j].1)->Some_0;
                    if j == i as int {
                        assert(!fun_ok(cfgs@[i as int].1));
                    } else {
                        assert((#[trigger] cfgs@[i as int]).0 == (#[trigger] cfgs@[j]).0);
                    }
                }
                return Err(BuildError::MalformedCFG);
            }
            let heads = match cfg.loop_head_blocks() {
                Some(heads) => heads,
                None => {
                    return Err(BuildError::MalformedCFG);
                },
            };
            let ghost heads_prev = loop_heads@;
            loop_heads.insert(first, heads);
            proof {
                assert forall|key: i32| #[trigger] loop_heads@.dom().contains(key) implies exists|ii: int|
                    {
                        let g = (#[trigger] cfgs@[ii]).1;
                        0 <= ii < cfgs@.len() && g.wf() && crate::re::spec_re_first(
                            res@[cfgs@[ii].0],
                        ) == Some(key) && (forall|bb: i32|
                            loop_heads@[key]@.contains(bb) <==> crate::convert::is_loop_head(
                                g,
                                bb,
                            ))
                    } by {
                    if key == first {
                        let g = cfgs@[i as int].1;
                        assert(0 <= i < cfgs@.len() && g.wf() && crate::re::spec_re_first(
                            res@[cfgs@[i as int].0],
                        ) == Some(key) && (forall|bb: i32|
                            loop_heads@[key]@.contains(bb) <==> crate::convert::is_loop_head(
                                g,
                                bb,
                            )));
                    } else {
                        let ii = choose|ii: int|
                            {
                                let g = (#[trigger] cfgs@[ii]).1;
                                0 <= ii < cfgs@.len() && g.wf() && crate::re::spec_re_first(
                                    res@[cfgs@[ii].0],
                                ) == Some(key) && (forall|bb: i32|
                                    heads_prev[key]@.contains(bb)
                                        <==> crate::convert::is_loop_head(g, bb))
                            };
                        assert(loop_heads@[key] == heads_prev[key]);
                        let g = cfgs@[ii].1;
                        assert(0 <= ii < cfgs@.len() && g.wf() && crate::re::spec_re_first(
                            res@[cfgs@[ii].0],
                        ) == Some(key) && (forall|bb: i32|
                            loop_heads@[key]@.contains(bb) <==> crate::convert::is_loop_head(
                                g,
                                bb,
                            )));
                    }
                }
            }
            let ghost firsts_prev = firsts@;
            match firsts.insert(first, fun_id) {
                Some(_) => {
                    proof {
                        let ii = choose|ii: int|
                            0 <= ii < i && (#[trigger] cfgs@[ii]).0 == firsts_prev[first]
                                && crate::re::spec_re_first(res@[firsts_prev[first]]) == Some(first)
                                && entry_label(cfgs@[ii].1) == first;
                        assert(entry_label(cfgs@[ii].1) == entry_label(cfgs@[i as int].1));
                    }
                    return Err(BuildError::DuplicateFirstBlock);
                },
                None => {},
            }
            proof {
                assert forall|b: i32| #[trigger] firsts@.dom().contains(b) implies exists|ii: int|
                    0 <= ii < i + 1 && (#[trigger] cfgs@[ii]).0 == firsts@[b]
                        && crate::re::spec_re_first(res@[firsts@[b]]) == Some(b) && entry_label(
                        cfgs@[ii].1,
                    ) == b by {
                    if b == first {
                        assert(firsts@[b] == fun_id);
                        assert((#[trigger] cfgs@[i as int]).0 == fun_id);
                        assert(entry_label(cfgs@[i as int].1) == b);
                    } else {
                        let ii = choose|ii: int|
                            0 <= ii < i && (#[trigger] cfgs@[ii]).0 == firsts_prev[b]
                                && crate::re::spec_re_first(res@[firsts_prev[b]]) == Some(b)
                                && entry_label(cfgs@[ii].1) == b;
                        assert(firsts@[b] == firsts_prev[b]);
                    }
                }
                assert forall|ii: int|
                    0 <= ii < i + 1 implies {
                        let fid = (#[trigger] cfgs@[ii]).0;
                        let g = cfgs@[ii].1;
                        let lbl = crate::convert::spec_block_id(g.nodes@[g.entry as int]);
                        &&& g.wf()
                        &&& crate::re::spec_re_first(res@[fid]) == Some(lbl)
                        &&& firsts@.dom().contains(lbl) && firsts@[lbl] == fid
                        &&& loop_heads@.dom().contains(lbl)
                    } by {
                    let lbl = crate::convert::spec_block_id(
                        cfgs@[ii].1.nodes@[cfgs@[ii].1.entry as int],
                    );
                    if ii < i {
                        assert(firsts_prev.dom().contains(lbl) && firsts_prev[lbl]
                            == cfgs@[ii].0);
                        assert(lbl != first);
                        assert(firsts@[lbl] == firsts_prev[lbl]);
                    } else {
                        assert(lbl == first);
                    }
                }
                assert forall|ii: int, jj: int|
                    0 <= ii < i + 1 && 0 <= jj < i + 1 && ii != jj implies crate::convert::spec_block_id(
                    (#[trigger] cfgs@[ii]).1.nodes@[cfgs@[ii].1.entry as int],
                ) != crate::convert::spec_block_id(
                    (#[trigger] cfgs@[jj]).1.nodes@[cfgs@[jj].1.entry as int],
                ) by {
                    let l1 = crate::convert::spec_block_id(
                        cfgs@[ii].1.nodes@[cfgs@[ii].1.entry as int],
                    );
                    let l2 = crate::convert::spec_block_id(
                        cfgs@[jj].1.nodes@[cfgs@[jj].1.entry as int],
                    );
                    if ii == i as int && jj < i {
                        assert(l1 == first && firsts_prev.dom().contains(l2));
                    } else if jj == i as int && ii < i {
                        assert(l2 == first && firsts_prev.dom().contains(l1));
                    }
                }
            }
            i = i + 1;
        }
        proof {
            assert forall|ii: int, jj: int|
                0 <= ii < cfgs@.len() && 0 <= jj < cfgs@.len() && ii != jj implies (
            #[trigger] cfgs@[ii]).0 != (#[trigger] cfgs@[jj]).0 by {
                if cfgs@[ii].0 == cfgs@[jj].0 {
                    assert(crate::re::spec_re_first(res@[cfgs@[ii].0]) == Some(
                        entry_label(cfgs@[ii].1),
                    ));
                    assert(crate::re::spec_re_first(res@[cfgs@[jj].0]) == Some(
                        entry_label(cfgs@[jj].1),
                    ));
                }
            }
            assert forall|ii: int| 0 <= ii < cfgs@.len() implies fun_ok(
                (#[trigger] cfgs@[ii]).1,
            ) by {
                let fid = cfgs@[ii].0;
                assert(res@.dom().contains(fid));
                let jj = choose|jj: int|
                    0 <= jj < cfgs@.len() && (#[trigger] cfgs@[jj]).0 == fid && res@[fid]
                        == crate::convert::spec_compile(cfgs@[jj].1)->Some_0;
                assert(jj == ii);
                assert(fun_compiles(cfgs@[ii].1));
            }
        }
        Ok(PathReducer { res, firsts, lasts, loop_heads, k })
    }
}

impl PathReducer {
    /// Reduction is a pure function: any two results that `reduce` can
    /// return for the same reducer, path and error mode hold the same
    /// path, and fail alike. Concurrent queries of one frozen reducer
    /// cannot disagree.
    /// The direct reducer never rejects: it validates nothing and reduces
    /// every input, whatever blocks it holds.
    pub proof fn lemma_direct_reducer_never_fails(&self, path: Seq<i32>)
        requires
            self.k == DIRECT_REDUCER_K,
        ensures
            self.spec_reduce(path) is Reduced,
    {
    }

    pub proof fn lemma_reduce_deterministic(
        &self,
        path: Seq<i32>,
        on_error: OnError,
        r1: Result<Vec<i32>, ReduceError>,
        r2: Result<Vec<i32>, ReduceError>,
    )
        requires
            self.reduce_post(path, on_error, r1),
            self.reduce_post(path, on_error, r2),
        ensures
            r1 is Ok <==> r2 is Ok,
            r1 is Ok ==> r1->Ok_0@ == r2->Ok_0@,
            r1 is Err ==> r1 == r2,
    {
    }
}

} // verus!
