//! Regular expressions over basic-block identifiers, parse trees, and the
//! greedy structural parsers (unbounded and star-bounded).

use std::collections::BTreeMap;
use vstd::prelude::*;

verus! {

/// Regular expression over block identifiers (`Literal`), with variables
/// (`Var`) that refer to named regular expressions in an environment.
#[derive(Debug)]
pub enum RegExp {
    Epsilon,
    Var(i32),
    Literal(i32),
    Concat(Box<RegExp>, Box<RegExp>),
    Alter(Box<RegExp>, Box<RegExp>),
    Star(Box<RegExp>),
}

/// Parse tree: one derivation of a literal sequence from a regular
/// expression. A star node lists its iteration witnesses in order.
#[derive(Debug)]
pub enum Val {
    Literal(i32),
    Concat(Box<Val>, Box<Val>),
    Star(Vec<Val>),
}

/// Mathematical model of a parse tree; star children form a `Seq`.
pub enum SpecVal {
    Literal(i32),
    Concat(Box<SpecVal>, Box<SpecVal>),
    Star(Seq<SpecVal>),
}

pub open spec fn val_view(v: Val) -> SpecVal
    decreases v,
{
    match v {
        Val::Literal(c) => SpecVal::Literal(c),
        Val::Concat(a, b) => SpecVal::Concat(Box::new(val_view(*a)), Box::new(val_view(*b))),
        Val::Star(vs) => SpecVal::Star(vals_view(vs@)),
    }
}

pub open spec fn vals_view(s: Seq<Val>) -> Seq<SpecVal>
    decreases s,
{
    if s.len() == 0 {
        Seq::empty()
    } else {
        vals_view(s.drop_last()).push(val_view(s.last()))
    }
}

impl View for Val {
    type V = SpecVal;

    open spec fn view(&self) -> SpecVal {
        val_view(*self)
    }
}

impl RegExp {
    pub fn var(x: i32) -> (r: Self)
        ensures
            r == RegExp::Var(x),
    {
        RegExp::Var(x)
    }

    pub fn literal(c: i32) -> (r: Self)
        ensures
            r == RegExp::Literal(c),
    {
        RegExp::Literal(c)
    }

    pub fn concat(r1: RegExp, r2: RegExp) -> (r: Self)
        ensures
            r == RegExp::Concat(Box::new(r1), Box::new(r2)),
    {
        RegExp::Concat(Box::new(r1), Box::new(r2))
    }

    pub fn alter(r1: Self, r2: Self) -> (r: Self)
        ensures
            r == RegExp::Alter(Box::new(r1), Box::new(r2)),
    {
        RegExp::Alter(Box::new(r1), Box::new(r2))
    }

    pub fn star(r: Self) -> (res: Self)
        ensures
            res == RegExp::Star(Box::new(r)),
    {
        RegExp::Star(Box::new(r))
    }

    /// Structural copy; the regex tree is immutable and freely shared.
    pub fn dup(&self) -> (r: Self)
        ensures
            r == *self,
        decreases *self,
    {
        match self {
            RegExp::Epsilon => RegExp::Epsilon,
            RegExp::Var(x) => RegExp::Var(*x),
            RegExp::Literal(c) => RegExp::Literal(*c),
            RegExp::Concat(a, b) => RegExp::Concat(Box::new(a.dup()), Box::new(b.dup())),
            RegExp::Alter(a, b) => RegExp::Alter(Box::new(a.dup()), Box::new(b.dup())),
            RegExp::Star(a) => RegExp::Star(Box::new(a.dup())),
        }
    }
}

/// Number of constructors in a regex tree.
pub open spec fn re_size(re: RegExp) -> nat
    decreases re,
{
    match re {
        RegExp::Epsilon => 1,
        RegExp::Var(_) => 1,
        RegExp::Literal(_) => 1,
        RegExp::Concat(a, b) => 1 + re_size(*a) + re_size(*b),
        RegExp::Alter(a, b) => 1 + re_size(*a) + re_size(*b),
        RegExp::Star(a) => 1 + re_size(*a),
    }
}

/// Syntactic under-approximation of "every successful match consumes at
/// least one symbol". Variables count as possibly empty.
pub open spec fn nonnull_syn(re: RegExp) -> bool
    decreases re,
{
    match re {
        RegExp::Epsilon => false,
        RegExp::Var(_) => false,
        RegExp::Literal(_) => true,
        RegExp::Concat(a, b) => nonnull_syn(*a) || nonnull_syn(*b),
        RegExp::Alter(a, b) => nonnull_syn(*a) && nonnull_syn(*b),
        RegExp::Star(_) => false,
    }
}

/// A regex is guarded when every variable occurrence is preceded by a
/// position that must consume a symbol. Parsing a guarded regex can only
/// expand a variable after the input cursor has advanced, which is what
/// makes parsing against a guarded environment terminate.
pub open spec fn guarded(re: RegExp) -> bool
    decreases re,
{
    match re {
        RegExp::Epsilon => true,
        RegExp::Var(_) => false,
        RegExp::Literal(_) => true,
        RegExp::Concat(a, b) => guarded(*a) && (nonnull_syn(*a) || guarded(*b)),
        RegExp::Alter(a, b) => guarded(*a) && guarded(*b),
        RegExp::Star(a) => guarded(*a),
    }
}

/// A name environment is well formed when every regex bound in it is
/// guarded.
pub open spec fn env_wf(env: Map<i32, RegExp>) -> bool {
    forall|x: i32| env.dom().contains(x) ==> guarded(#[trigger] env[x])
}

/// Termination rank used by the parsers: 0 when a variable may be expanded
/// without consuming input first, 1 otherwise.
pub open spec fn vflag(re: RegExp) -> int {
    if guarded(re) {
        0
    } else {
        1
    }
}

/// Outcome of a k-bounded parse: a clean match with the next input
/// position, a partial parse ended by input exhaustion, or a mismatch.
pub enum ParsedK {
    Matched(SpecVal, int),
    Aborted(SpecVal),
    Invalid,
}

/// Outcome of the star-iteration helper of the k-bounded parse.
pub enum StarK {
    Matched(Seq<SpecVal>, int),
    Aborted(SpecVal),
}

/// Greedy k-bounded parse of `s` from position `pos` against `re`, with
/// variables resolved through `env`. At most `k` star iteration witnesses
/// are recorded; further iterations advance the cursor without being
/// recorded. A literal that fails against exhausted input aborts; an abort
/// on the right of a concatenation keeps the left value; an alternation
/// commits to its left branch unless that branch is invalid.
pub open spec fn parse_k_spec(re: RegExp, s: Seq<i32>, pos: int, env: Map<i32, RegExp>, k: nat) -> ParsedK
    decreases s.len() - pos, vflag(re), re_size(re), 0int,
        when 0 <= pos <= s.len() && env_wf(env)
{
    match re {
        RegExp::Epsilon => ParsedK::Matched(SpecVal::Star(Seq::empty()), pos),
        RegExp::Var(x) => if env.dom().contains(x) {
            parse_k_spec(env[x], s, pos, env, k)
        } else {
            ParsedK::Invalid
        },
        RegExp::Literal(c) => if pos >= s.len() {
            ParsedK::Aborted(SpecVal::Star(Seq::empty()))
        } else if s[pos] == c {
            ParsedK::Matched(SpecVal::Literal(c), pos + 1)
        } else {
            ParsedK::Invalid
        },
        RegExp::Concat(r1, r2) => match parse_k_spec(*r1, s, pos, env, k) {
            ParsedK::Matched(v1, p1) => if !(pos <= p1 <= s.len()) || (p1 == pos && nonnull_syn(*r1)
                && !guarded(*r2)) {
                // never taken: a match advances the cursor monotonically, and a
                // match of a syntactically non-null regex consumes a symbol
                ParsedK::Invalid
            } else {
                match parse_k_spec(*r2, s, p1, env, k) {
                    ParsedK::Matched(v2, p2) => ParsedK::Matched(
                        SpecVal::Concat(Box::new(v1), Box::new(v2)),
                        p2,
                    ),
                    ParsedK::Aborted(v2) => ParsedK::Aborted(
                        SpecVal::Concat(Box::new(v1), Box::new(v2)),
                    ),
                    ParsedK::Invalid => ParsedK::Invalid,
                }
            },
            ParsedK::Aborted(v1) => ParsedK::Aborted(v1),
            ParsedK::Invalid => ParsedK::Invalid,
        },
        RegExp::Alter(r1, r2) => match parse_k_spec(*r1, s, pos, env, k) {
            ParsedK::Matched(v, p) => ParsedK::Matched(v, p),
            ParsedK::Aborted(v) => ParsedK::Aborted(v),
            ParsedK::Invalid => parse_k_spec(*r2, s, pos, env, k),
        },
        RegExp::Star(r) => match parse_star_k_spec(*r, s, pos, env, k, Seq::empty()) {
            StarK::Matched(vs, p) => ParsedK::Matched(SpecVal::Star(vs), p),
            StarK::Aborted(v) => ParsedK::Aborted(v),
        },
    }
}

/// Star iterations of `re`: keeps matching greedily, recording at most `k`
/// witnesses in `acc`. An iteration that consumes nothing ends the star.
pub open spec fn parse_star_k_spec(
    re: RegExp,
    s: Seq<i32>,
    pos: int,
    env: Map<i32, RegExp>,
    k: nat,
    acc: Seq<SpecVal>,
) -> StarK
    decreases s.len() - pos, vflag(re), re_size(re), 1int,
        when 0 <= pos <= s.len() && env_wf(env)
{
    match parse_k_spec(re, s, pos, env, k) {
        ParsedK::Matched(v, p1) => if pos < p1 <= s.len() {
            parse_star_k_spec(
                re,
                s,
                p1,
                env,
                k,
                if acc.len() < k {
                    acc.push(v)
                } else {
                    acc
                },
            )
        } else {
            StarK::Matched(acc, pos)
        },
        ParsedK::Aborted(v) => StarK::Aborted(
            SpecVal::Star(
                if acc.len() < k {
                    acc.push(v)
                } else {
                    acc
                },
            ),
        ),
        ParsedK::Invalid => StarK::Matched(acc, pos),
    }
}

/// Greedy unbounded parse: either a value with the position after the
/// consumed prefix, or no match. Stars consume as many iterations as match
/// and record all of them.
pub open spec fn parse_inf_spec(re: RegExp, s: Seq<i32>, pos: int, env: Map<i32, RegExp>) -> Option<
    (SpecVal, int),
>
    decreases s.len() - pos, vflag(re), re_size(re), 0int,
        when 0 <= pos <= s.len() && env_wf(env)
{
    match re {
        RegExp::Epsilon => Some((SpecVal::Star(Seq::empty()), pos)),
        RegExp::Var(x) => if env.dom().contains(x) {
            parse_inf_spec(env[x], s, pos, env)
        } else {
            None
        },
        RegExp::Literal(c) => if pos < s.len() && s[pos] == c {
            Some((SpecVal::Literal(c), pos + 1))
        } else {
            None
        },
        RegExp::Concat(r1, r2) => match parse_inf_spec(*r1, s, pos, env) {
            Some((v1, p1)) => if !(pos <= p1 <= s.len()) || (p1 == pos && nonnull_syn(*r1)
                && !guarded(*r2)) {
                // never taken, as in the k-bounded parse
                None
            } else {
                match parse_inf_spec(*r2, s, p1, env) {
                    Some((v2, p2)) => Some((SpecVal::Concat(Box::new(v1), Box::new(v2)), p2)),
                    None => None,
                }
            },
            None => None,
        },
        RegExp::Alter(r1, r2) => match parse_inf_spec(*r1, s, pos, env) {
            Some(r) => Some(r),
            None => parse_inf_spec(*r2, s, pos, env),
        },
        RegExp::Star(r) => {
            let (vs, p) = parse_star_inf_spec(*r, s, pos, env, Seq::empty());
            Some((SpecVal::Star(vs), p))
        },
    }
}

/// Star iterations of the unbounded parse; all witnesses are recorded.
pub open spec fn parse_star_inf_spec(
    re: RegExp,
    s: Seq<i32>,
    pos: int,
    env: Map<i32, RegExp>,
    acc: Seq<SpecVal>,
) -> (Seq<SpecVal>, int)
    decreases s.len() - pos, vflag(re), re_size(re), 1int,
        when 0 <= pos <= s.len() && env_wf(env)
{
    match parse_inf_spec(re, s, pos, env) {
        Some((v, p1)) => if pos < p1 <= s.len() {
            parse_star_inf_spec(re, s, p1, env, acc.push(v))
        } else {
            (acc, pos)
        },
        None => (acc, pos),
    }
}

/// A k-bounded match never moves the cursor backwards or past the end of
/// the input, and a match of a syntactically non-null regex consumes at
/// least one symbol.
pub proof fn lemma_parse_k_props(re: RegExp, s: Seq<i32>, pos: int, env: Map<i32, RegExp>, k: nat)
    requires
        0 <= pos <= s.len(),
        env_wf(env),
    ensures
        match parse_k_spec(re, s, pos, env, k) {
            ParsedK::Matched(v, p) => pos <= p <= s.len() && (nonnull_syn(re) ==> pos < p),
            _ => true,
        },
    decreases s.len() - pos, vflag(re), re_size(re), 0int,
{
    match re {
        RegExp::Epsilon => {},
        RegExp::Var(x) => {
            if env.dom().contains(x) {
                lemma_parse_k_props(env[x], s, pos, env, k);
            }
        },
        RegExp::Literal(_) => {},
        RegExp::Concat(r1, r2) => {
            lemma_parse_k_props(*r1, s, pos, env, k);
            match parse_k_spec(*r1, s, pos, env, k) {
                ParsedK::Matched(v1, p1) => {
                    if pos <= p1 <= s.len() && !(p1 == pos && nonnull_syn(*r1) && !guarded(*r2)) {
                        lemma_parse_k_props(*r2, s, p1, env, k);
                    }
                },
                _ => {},
            }
        },
        RegExp::Alter(r1, r2) => {
            lemma_parse_k_props(*r1, s, pos, env, k);
            if parse_k_spec(*r1, s, pos, env, k) is Invalid {
                lemma_parse_k_props(*r2, s, pos, env, k);
            }
        },
        RegExp::Star(r) => {
            lemma_parse_star_k_props(*r, s, pos, env, k, Seq::empty());
        },
    }
}

/// The star helper never moves the cursor backwards or past the end.
pub proof fn lemma_parse_star_k_props(
    re: RegExp,
    s: Seq<i32>,
    pos: int,
    env: Map<i32, RegExp>,
    k: nat,
    acc: Seq<SpecVal>,
)
    requires
        0 <= pos <= s.len(),
        env_wf(env),
    ensures
        match parse_star_k_spec(re, s, pos, env, k, acc) {
            StarK::Matched(vs, p) => pos <= p <= s.len(),
            _ => true,
        },
    decreases s.len() - pos, vflag(re), re_size(re), 1int,
{
    lemma_parse_k_props(re, s, pos, env, k);
    match parse_k_spec(re, s, pos, env, k) {
        ParsedK::Matched(v, p1) => {
            if pos < p1 <= s.len() {
                let acc1 = if acc.len() < k {
                    acc.push(v)
                } else {
                    acc
                };
                lemma_parse_star_k_props(re, s, p1, env, k, acc1);
            }
        },
        _ => {},
    }
}

/// The unbounded parse has the same cursor discipline as the k-bounded one.
pub proof fn lemma_parse_inf_props(re: RegExp, s: Seq<i32>, pos: int, env: Map<i32, RegExp>)
    requires
        0 <= pos <= s.len(),
        env_wf(env),
    ensures
        match parse_inf_spec(re, s, pos, env) {
            Some((v, p)) => pos <= p <= s.len() && (nonnull_syn(re) ==> pos < p),
            None => true,
        },
    decreases s.len() - pos, vflag(re), re_size(re), 0int,
{
    match re {
        RegExp::Epsilon => {},
        RegExp::Var(x) => {
            if env.dom().contains(x) {
                lemma_parse_inf_props(env[x], s, pos, env);
            }
        },
        RegExp::Literal(_) => {},
        RegExp::Concat(r1, r2) => {
            lemma_parse_inf_props(*r1, s, pos, env);
            match parse_inf_spec(*r1, s, pos, env) {
                Some((v1, p1)) => {
                    if pos <= p1 <= s.len() && !(p1 == pos && nonnull_syn(*r1) && !guarded(*r2)) {
                        lemma_parse_inf_props(*r2, s, p1, env);
                    }
                },
                None => {},
            }
        },
        RegExp::Alter(r1, r2) => {
            lemma_parse_inf_props(*r1, s, pos, env);
            if parse_inf_spec(*r1, s, pos, env) is None {
                lemma_parse_inf_props(*r2, s, pos, env);
            }
        },
        RegExp::Star(r) => {
            lemma_parse_star_inf_props(*r, s, pos, env, Seq::empty());
        },
    }
}

/// Cursor discipline of the unbounded star helper.
pub proof fn lemma_parse_star_inf_props(
    re: RegExp,
    s: Seq<i32>,
    pos: int,
    env: Map<i32, RegExp>,
    acc: Seq<SpecVal>,
)
    requires
        0 <= pos <= s.len(),
        env_wf(env),
    ensures
        ({
            let (vs, p) = parse_star_inf_spec(re, s, pos, env, acc);
            pos <= p <= s.len()
        }),
    decreases s.len() - pos, vflag(re), re_size(re), 1int,
{
    lemma_parse_inf_props(re, s, pos, env);
    match parse_inf_spec(re, s, pos, env) {
        Some((v, p1)) => {
            if pos < p1 <= s.len() {
                lemma_parse_star_inf_props(re, s, p1, env, acc.push(v));
            }
        },
        None => {},
    }
}

/// The view of a sequence of parse trees has the same length.
pub proof fn lemma_vals_view_len(s: Seq<Val>)
    ensures
        vals_view(s).len() == s.len(),
    decreases s,
{
    if s.len() > 0 {
        lemma_vals_view_len(s.drop_last());
    }
}

/// Viewing commutes with appending one parse tree.
pub proof fn lemma_vals_view_push(s: Seq<Val>, v: Val)
    ensures
        vals_view(s.push(v)) == vals_view(s).push(val_view(v)),
{
    assert(s.push(v).drop_last() =~= s);
    assert(s.push(v).last() == v);
}

/// The view of a sequence of parse trees is the sequence of their views.
pub proof fn lemma_vals_view_index(s: Seq<Val>, i: int)
    requires
        0 <= i < s.len(),
    ensures
        vals_view(s).len() == s.len(),
        vals_view(s)[i] == val_view(s[i]),
    decreases s,
{
    lemma_vals_view_len(s);
    if i < s.len() - 1 {
        lemma_vals_view_index(s.drop_last(), i);
    }
}

/// Flattening of a parse tree: its leaves from left to right, with every
/// star witness unfolded in order.
pub open spec fn val_flatten(v: SpecVal) -> Seq<i32>
    decreases v,
{
    match v {
        SpecVal::Literal(c) => seq![c],
        SpecVal::Concat(a, b) => val_flatten(*a) + val_flatten(*b),
        SpecVal::Star(vs) => vals_flatten(vs),
    }
}

pub open spec fn vals_flatten(vs: Seq<SpecVal>) -> Seq<i32>
    decreases vs,
{
    if vs.len() == 0 {
        Seq::empty()
    } else {
        vals_flatten(vs.drop_last()) + val_flatten(vs.last())
    }
}

/// k-bounded flattening of a parse tree: as `val_flatten`, but at most the
/// first `k` witnesses of every star node are kept.
pub open spec fn val_reduce_seq(v: SpecVal, k: nat) -> Seq<i32>
    decreases v,
{
    match v {
        SpecVal::Literal(c) => seq![c],
        SpecVal::Concat(a, b) => val_reduce_seq(*a, k) + val_reduce_seq(*b, k),
        SpecVal::Star(vs) => if vs.len() <= k {
            vals_reduce_seq(vs, k)
        } else {
            vals_reduce_seq(vs.take(k as int), k)
        },
    }
}

pub open spec fn vals_reduce_seq(vs: Seq<SpecVal>, k: nat) -> Seq<i32>
    decreases vs,
{
    if vs.len() == 0 {
        Seq::empty()
    } else {
        vals_reduce_seq(vs.drop_last(), k) + val_reduce_seq(vs.last(), k)
    }
}

/// Every star node of the parse tree records at most `k` witnesses.
pub open spec fn stars_bounded(v: SpecVal, k: nat) -> bool
    decreases v,
{
    match v {
        SpecVal::Literal(_) => true,
        SpecVal::Concat(a, b) => stars_bounded(*a, k) && stars_bounded(*b, k),
        SpecVal::Star(vs) => vs.len() <= k && (forall|i: int|
            0 <= i < vs.len() ==> stars_bounded(#[trigger] vs[i], k)),
    }
}

/// On a parse tree whose stars are already bounded by `k`, the k-bounded
/// flattening and the full flattening agree.
pub proof fn lemma_reduce_of_bounded(v: SpecVal, k: nat)
    requires
        stars_bounded(v, k),
    ensures
        val_reduce_seq(v, k) == val_flatten(v),
    decreases v,
{
    match v {
        SpecVal::Literal(_) => {},
        SpecVal::Concat(a, b) => {
            lemma_reduce_of_bounded(*a, k);
            lemma_reduce_of_bounded(*b, k);
        },
        SpecVal::Star(vs) => {
            lemma_reduce_seq_of_bounded(vs, k);
        },
    }
}

proof fn lemma_reduce_seq_of_bounded(vs: Seq<SpecVal>, k: nat)
    requires
        forall|i: int| 0 <= i < vs.len() ==> stars_bounded(#[trigger] vs[i], k),
    ensures
        vals_reduce_seq(vs, k) == vals_flatten(vs),
    decreases vs,
{
    if vs.len() > 0 {
        lemma_reduce_seq_of_bounded(vs.drop_last(), k);
        lemma_reduce_of_bounded(vs.last(), k);
    }
}

/// Error result of a k-bounded parse: a partial parse tree when the input
/// ran out, or a mismatch on non-empty input.
#[derive(Debug)]
pub enum ParseErr {
    Abort(Val),
    Invalid,
}

impl RegExp {
    /// Greedy unbounded parse of `s` from position `pos` under `env`:
    /// either the parse tree of a matched prefix with the position after
    /// it, or no match.
    pub fn parse_inf(&self, s: &[i32], pos: usize, env: &BTreeMap<i32, RegExp>) -> (r: Option<
        (Val, usize),
    >)
        requires
            pos <= s@.len(),
            env_wf(env@),
        ensures
            match r {
                Some((v, p)) => parse_inf_spec(*self, s@, pos as int, env@) == Some(
                    (v@, p as int),
                ) && pos <= p <= s@.len(),
                None => parse_inf_spec(*self, s@, pos as int, env@) is None,
            },
        decreases s@.len() - pos, vflag(*self), re_size(*self), 0int,
    {
        match self {
            RegExp::Epsilon => {
                let v = Val::Star(Vec::new());
                proof {
                    assert(vals_view(Seq::<Val>::empty()) == Seq::<SpecVal>::empty());
                    assert(v@ == SpecVal::Star(Seq::<SpecVal>::empty()));
                }
                Some((v, pos))
            },
            RegExp::Var(x) => match env.get(x) {
                Some(re) => re.parse_inf(s, pos, env),
                None => None,
            },
            RegExp::Literal(c) => {
                if pos < s.len() && s[pos] == *c {
                    Some((Val::Literal(*c), pos + 1))
                } else {
                    None
                }
            },
            RegExp::Concat(r1, r2) => {
                let (v1, p1) = match r1.parse_inf(s, pos, env) {
                    Some(res) => res,
                    None => {
                        return None;
                    },
                };
                proof {
                    lemma_parse_inf_props(**r1, s@, pos as int, env@);
                }
                match r2.parse_inf(s, p1, env) {
                    Some((v2, p2)) => Some((Val::Concat(Box::new(v1), Box::new(v2)), p2)),
                    None => None,
                }
            },
            RegExp::Alter(r1, r2) => match r1.parse_inf(s, pos, env) {
                Some(res) => Some(res),
                None => r2.parse_inf(s, pos, env),
            },
            RegExp::Star(r) => {
                let acc0: Vec<Val> = Vec::new();
                proof {
                    assert(vals_view(Seq::<Val>::empty()) == Seq::<SpecVal>::empty());
                    assert(vals_view(acc0@) == Seq::<SpecVal>::empty());
                }
                let (vs, p1) = r.parse_star_inf(s, pos, env, acc0);
                Some((Val::Star(vs), p1))
            },
        }
    }

    /// Iterations of a star of the unbounded parse, extending `acc`.
    /// An iteration that consumes nothing ends the star.
    fn parse_star_inf(&self, s: &[i32], pos: usize, env: &BTreeMap<i32, RegExp>, acc: Vec<Val>) -> (r: (
        Vec<Val>,
        usize,
    ))
        requires
            pos <= s@.len(),
            env_wf(env@),
        ensures
            parse_star_inf_spec(*self, s@, pos as int, env@, vals_view(acc@)) == (
                vals_view(r.0@),
                r.1 as int,
            ),
            pos <= r.1 <= s@.len(),
        decreases s@.len() - pos, vflag(*self), re_size(*self), 1int,
    {
        match self.parse_inf(s, pos, env) {
            Some((val, p1)) => {
                if p1 > pos {
                    proof {
                        lemma_vals_view_push(acc@, val);
                    }
                    let mut acc2 = acc;
                    acc2.push(val);
                    self.parse_star_inf(s, p1, env, acc2)
                } else {
                    (acc, pos)
                }
            },
            None => (acc, pos),
        }
    }

    /// Greedy k-bounded parse of `s` from position `pos` under `env`. At
    /// most `k` iteration witnesses are kept per star node; extra matching
    /// iterations advance the cursor without being recorded. The three
    /// outcomes are a clean prefix match, an abort on exhausted input with
    /// the partial parse tree, and a mismatch on non-empty input.
    pub fn parse_k(&self, s: &[i32], pos: usize, env: &BTreeMap<i32, RegExp>, k: usize) -> (r:
        Result<(Val, usize), ParseErr>)
        requires
            pos <= s@.len(),
            env_wf(env@),
        ensures
            match r {
                Ok((v, p)) => parse_k_spec(*self, s@, pos as int, env@, k as nat)
                    == ParsedK::Matched(v@, p as int) && pos <= p <= s@.len() && stars_bounded(
                    v@,
                    k as nat,
                ),
                Err(ParseErr::Abort(v)) => parse_k_spec(*self, s@, pos as int, env@, k as nat)
                    == ParsedK::Aborted(v@) && stars_bounded(v@, k as nat),
                Err(ParseErr::Invalid) => parse_k_spec(*self, s@, pos as int, env@, k as nat)
                    == ParsedK::Invalid,
            },
        decreases s@.len() - pos, vflag(*self), re_size(*self), 0int,
    {
        proof {
            lemma_parse_k_stars_bounded(*self, s@, pos as int, env@, k as nat);
        }
        match self {
            RegExp::Epsilon => {
                let v = Val::Star(Vec::new());
                proof {
                    assert(vals_view(Seq::<Val>::empty()) == Seq::<SpecVal>::empty());
                    assert(v@ == SpecVal::Star(Seq::<SpecVal>::empty()));
                }
                Ok((v, pos))
            },
            RegExp::Var(x) => match env.get(x) {
                Some(re) => re.parse_k(s, pos, env, k),
                None => Err(ParseErr::Invalid),
            },
            RegExp::Literal(c) => {
                if pos >= s.len() {
                    let v = Val::Star(Vec::new());
                    proof {
                        assert(vals_view(Seq::<Val>::empty()) == Seq::<SpecVal>::empty());
                        assert(v@ == SpecVal::Star(Seq::<SpecVal>::empty()));
                    }
                    Err(ParseErr::Abort(v))
                } else if s[pos] == *c {
                    Ok((Val::Literal(*c), pos + 1))
                } else {
                    Err(ParseErr::Invalid)
                }
            },
            RegExp::Concat(r1, r2) => {
                let (v1, p1) = match r1.parse_k(s, pos, env, k) {
                    Ok(res) => res,
                    Err(e) => {
                        return Err(e);
                    },
                };
                proof {
                    lemma_parse_k_props(**r1, s@, pos as int, env@, k as nat);
                }
                match r2.parse_k(s, p1, env, k) {
                    Ok((v2, p2)) => Ok((Val::Concat(Box::new(v1), Box::new(v2)), p2)),
                    Err(ParseErr::Abort(v2)) => Err(
                        ParseErr::Abort(Val::Concat(Box::new(v1), Box::new(v2))),
                    ),
                    Err(ParseErr::Invalid) => Err(ParseErr::Invalid),
                }
            },
            RegExp::Alter(r1, r2) => match r1.parse_k(s, pos, env, k) {
                Ok(res) => Ok(res),
                Err(ParseErr::Abort(v)) => Err(ParseErr::Abort(v)),
                Err(ParseErr::Invalid) => r2.parse_k(s, pos, env, k),
            },
            RegExp::Star(r) => {
                let acc0: Vec<Val> = Vec::new();
                proof {
                    assert(vals_view(Seq::<Val>::empty()) == Seq::<SpecVal>::empty());
                    assert(vals_view(acc0@) == Seq::<SpecVal>::empty());
                }
                match r.parse_star_k(s, pos, env, k, acc0) {
                    Ok((vals, p1)) => Ok((Val::Star(vals), p1)),
                    Err(e) => Err(e),
                }
            },
        }
    }

    /// Iterations of a star of the k-bounded parse, extending `acc` while
    /// fewer than `k` witnesses have been kept. An iteration that consumes
    /// nothing ends the star; an abort folds the partial iteration in.
    fn parse_star_k(
        &self,
        s: &[i32],
        pos: usize,
        env: &BTreeMap<i32, RegExp>,
        k: usize,
        acc: Vec<Val>,
    ) -> (r: Result<(Vec<Val>, usize), ParseErr>)
        requires
            pos <= s@.len(),
            env_wf(env@),
        ensures
            match r {
                Ok((vs, p)) => parse_star_k_spec(*self, s@, pos as int, env@, k as nat, vals_view(acc@))
                    == StarK::Matched(vals_view(vs@), p as int) && pos <= p <= s@.len(),
                Err(ParseErr::Abort(v)) => parse_star_k_spec(
                    *self,
                    s@,
                    pos as int,
                    env@,
                    k as nat,
                    vals_view(acc@),
                ) == StarK::Aborted(v@),
                Err(ParseErr::Invalid) => false,
            },
        decreases s@.len() - pos, vflag(*self), re_size(*self), 1int,
    {
        proof {
            lemma_vals_view_len(acc@);
        }
        match self.parse_k(s, pos, env, k) {
            Ok((val, p1)) => {
                if p1 > pos {
                    let acc2 = if acc.len() < k {
                        proof {
                            lemma_vals_view_push(acc@, val);
                        }
                        let mut a = acc;
                        a.push(val);
                        a
                    } else {
                        acc
                    };
                    self.parse_star_k(s, p1, env, k, acc2)
                } else {
                    Ok((acc, pos))
                }
            },
            Err(ParseErr::Abort(val)) => {
                let acc2 = if acc.len() < k {
                    proof {
                        lemma_vals_view_push(acc@, val);
                    }
                    let mut a = acc;
                    a.push(val);
                    a
                } else {
                    acc
                };
                Err(ParseErr::Abort(Val::Star(acc2)))
            },
            Err(ParseErr::Invalid) => Ok((acc, pos)),
        }
    }
}

impl Val {
    /// Flattens the parse tree, keeping at most the first `k` witnesses of
    /// every star node.
    pub fn reduce(&self, k: usize) -> (r: Vec<i32>)
        requires
            1 <= k,
        ensures
            r@ == val_reduce_seq(self@, k as nat),
        decreases *self,
    {
        match self {
            Val::Literal(c) => {
                let mut r: Vec<i32> = Vec::new();
                r.push(*c);
                r
            },
            Val::Concat(v1, v2) => {
                let mut r1 = v1.reduce(k);
                let mut r2 = v2.reduce(k);
                r1.append(&mut r2);
                r1
            },
            Val::Star(vs) => {
                proof {
                    lemma_vals_view_len(vs@);
                }
                let bound = if vs.len() < k {
                    vs.len()
                } else {
                    k
                };
                let mut res: Vec<i32> = Vec::new();
                let mut i: usize = 0;
                proof {
                    assert(vals_view(vs@).take(0) =~= Seq::<SpecVal>::empty());
                }
                #[verifier::loop_isolation(false)]
                while i < bound
                    invariant
                        1 <= k,
                        i <= bound,
                        bound == if vs@.len() < k {
                            vs@.len() as int
                        } else {
                            k as int
                        },
                        vals_view(vs@).len() == vs@.len(),
                        res@ == vals_reduce_seq(vals_view(vs@).take(i as int), k as nat),
                    decreases bound - i,
                {
                    proof {
                        assert(decreases_to!(*self => vs@[i as int])) by {
                            assert(decreases_to!(*self => self->Star_0));
                            assert(decreases_to!(self->Star_0 => self->Star_0@));
                            assert(decreases_to!(self->Star_0@ => self->Star_0@[i as int]));
                            assert(self->Star_0 == *vs);
                        }
                    }
                    let mut ri = vs[i].reduce(k);
                    res.append(&mut ri);
                    proof {
                        lemma_vals_view_index(vs@, i as int);
                        let w = vals_view(vs@);
                        assert(w.take(i + 1).drop_last() =~= w.take(i as int));
                        assert(w.take(i + 1).last() == w[i as int]);
                    }
                    i = i + 1;
                }
                proof {
                    let w = vals_view(vs@);
                    if w.len() <= k {
                        assert(w.take(bound as int) =~= w);
                    }
                }
                res
            },
        }
    }

    /// Flattens the parse tree completely, unfolding every star witness.
    pub fn into_vec(&self) -> (r: Vec<i32>)
        ensures
            r@ == val_flatten(self@),
        decreases *self,
    {
        match self {
            Val::Literal(c) => {
                let mut r: Vec<i32> = Vec::new();
                r.push(*c);
                r
            },
            Val::Concat(v1, v2) => {
                let mut r1 = v1.into_vec();
                let mut r2 = v2.into_vec();
                r1.append(&mut r2);
                r1
            },
            Val::Star(vs) => {
                proof {
                    lemma_vals_view_len(vs@);
                }
                let mut res: Vec<i32> = Vec::new();
                let mut i: usize = 0;
                proof {
                    assert(vals_view(vs@).take(0) =~= Seq::<SpecVal>::empty());
                }
                #[verifier::loop_isolation(false)]
                while i < vs.len()
                    invariant
                        i <= vs@.len(),
                        vals_view(vs@).len() == vs@.len(),
                        res@ == vals_flatten(vals_view(vs@).take(i as int)),
                    decreases vs@.len() - i,
                {
                    proof {
                        assert(decreases_to!(*self => vs@[i as int])) by {
                            assert(decreases_to!(*self => self->Star_0));
                            assert(decreases_to!(self->Star_0 => self->Star_0@));
                            assert(decreases_to!(self->Star_0@ => self->Star_0@[i as int]));
                            assert(self->Star_0 == *vs);
                        }
                    }
                    let mut ri = vs[i].into_vec();
                    res.append(&mut ri);
                    proof {
                        lemma_vals_view_index(vs@, i as int);
                        let w = vals_view(vs@);
                        assert(w.take(i + 1).drop_last() =~= w.take(i as int));
                        assert(w.take(i + 1).last() == w[i as int]);
                    }
                    i = i + 1;
                }
                proof {
                    assert(vals_view(vs@).take(vs@.len() as int) =~= vals_view(vs@));
                }
                res
            },
        }
    }
}

/// Star bounding happens during the k-bounded parse itself: every parse
/// tree that `parse_k_spec` produces, clean or aborted, has at most `k`
/// witnesses in each of its star nodes.
pub proof fn lemma_parse_k_stars_bounded(
    re: RegExp,
    s: Seq<i32>,
    pos: int,
    env: Map<i32, RegExp>,
    k: nat,
)
    requires
        0 <= pos <= s.len(),
        env_wf(env),
    ensures
        match parse_k_spec(re, s, pos, env, k) {
            ParsedK::Matched(v, _) => stars_bounded(v, k),
            ParsedK::Aborted(v) => stars_bounded(v, k),
            ParsedK::Invalid => true,
        },
    decreases s.len() - pos, vflag(re), re_size(re), 0int,
{
    match re {
        RegExp::Epsilon => {},
        RegExp::Var(x) => {
            if env.dom().contains(x) {
                lemma_parse_k_stars_bounded(env[x], s, pos, env, k);
            }
        },
        RegExp::Literal(_) => {},
        RegExp::Concat(r1, r2) => {
            lemma_parse_k_stars_bounded(*r1, s, pos, env, k);
            match parse_k_spec(*r1, s, pos, env, k) {
                ParsedK::Matched(v1, p1) => {
                    if pos <= p1 <= s.len() && !(p1 == pos && nonnull_syn(*r1) && !guarded(*r2)) {
                        lemma_parse_k_stars_bounded(*r2, s, p1, env, k);
                    }
                },
                _ => {},
            }
        },
        RegExp::Alter(r1, r2) => {
            lemma_parse_k_stars_bounded(*r1, s, pos, env, k);
            if parse_k_spec(*r1, s, pos, env, k) is Invalid {
                lemma_parse_k_stars_bounded(*r2, s, pos, env, k);
            }
        },
        RegExp::Star(r) => {
            lemma_parse_star_k_stars_bounded(*r, s, pos, env, k, Seq::empty());
        },
    }
}

/// The star bound makes the post-pass redundant: on any parse tree the
/// k-bounded parse produces, flattening with `Val::reduce` under the same
/// `k` and flattening completely with `Val::into_vec` agree.
pub proof fn lemma_parse_k_reduce_is_flatten(
    re: RegExp,
    s: Seq<i32>,
    pos: int,
    env: Map<i32, RegExp>,
    k: nat,
)
    requires
        0 <= pos <= s.len(),
        env_wf(env),
    ensures
        match parse_k_spec(re, s, pos, env, k) {
            ParsedK::Matched(v, _) => val_reduce_seq(v, k) == val_flatten(v),
            ParsedK::Aborted(v) => val_reduce_seq(v, k) == val_flatten(v),
            ParsedK::Invalid => true,
        },
{
    lemma_parse_k_stars_bounded(re, s, pos, env, k);
    match parse_k_spec(re, s, pos, env, k) {
        ParsedK::Matched(v, _) => {
            lemma_reduce_of_bounded(v, k);
        },
        ParsedK::Aborted(v) => {
            lemma_reduce_of_bounded(v, k);
        },
        ParsedK::Invalid => {},
    }
}

/// Star bounding of the star-iteration helper: if the accumulator holds at
/// most `k` bounded witnesses, so does every outcome.
pub proof fn lemma_parse_star_k_stars_bounded(
    re: RegExp,
    s: Seq<i32>,
    pos: int,
    env: Map<i32, RegExp>,
    k: nat,
    acc: Seq<SpecVal>,
)
    requires
        0 <= pos <= s.len(),
        env_wf(env),
        acc.len() <= k,
        forall|i: int| 0 <= i < acc.len() ==> stars_bounded(#[trigger] acc[i], k),
    ensures
        match parse_star_k_spec(re, s, pos, env, k, acc) {
            StarK::Matched(vs, _) => vs.len() <= k && (forall|i: int|
                0 <= i < vs.len() ==> stars_bounded(#[trigger] vs[i], k)),
            StarK::Aborted(v) => stars_bounded(v, k),
        },
    decreases s.len() - pos, vflag(re), re_size(re), 1int,
{
    lemma_parse_k_stars_bounded(re, s, pos, env, k);
    match parse_k_spec(re, s, pos, env, k) {
        ParsedK::Matched(v, p1) => {
            if pos < p1 <= s.len() {
                let acc1 = if acc.len() < k {
                    acc.push(v)
                } else {
                    acc
                };
                lemma_parse_star_k_stars_bounded(re, s, p1, env, k, acc1);
            }
        },
        _ => {},
    }
}

/// The leftmost literal of a regex in tree order; for an alternation both
/// sides must agree. This is the first block of a function's regex as the
/// GNFA construction produces it.
pub open spec fn spec_re_first(re: RegExp) -> Option<i32>
    decreases re,
{
    match re {
        RegExp::Epsilon => None,
        RegExp::Var(_) => None,
        RegExp::Literal(c) => Some(c),
        RegExp::Concat(a, b) => if spec_re_first(*a) is Some {
            spec_re_first(*a)
        } else {
            spec_re_first(*b)
        },
        RegExp::Alter(a, b) => if spec_re_first(*a) is Some && spec_re_first(*a) == spec_re_first(
            *b,
        ) {
            spec_re_first(*a)
        } else {
            None
        },
        RegExp::Star(a) => spec_re_first(*a),
    }
}

impl RegExp {
    /// The leftmost literal of the regex; `None` when there is none or an
    /// alternation's sides disagree.
    pub fn first(&self) -> (r: Option<i32>)
        ensures
            r == spec_re_first(*self),
        decreases *self,
    {
        match self {
            RegExp::Epsilon => None,
            RegExp::Var(_) => None,
            RegExp::Literal(c) => Some(*c),
            RegExp::Concat(a, b) => match a.first() {
                Some(c) => Some(c),
                None => b.first(),
            },
            RegExp::Alter(a, b) => match (a.first(), b.first()) {
                (Some(c1), Some(c2)) => if c1 == c2 {
                    Some(c1)
                } else {
                    None
                },
                _ => None,
            },
            RegExp::Star(a) => a.first(),
        }
    }

    /// Whether every successful match of the regex must consume a symbol,
    /// judged syntactically.
    pub fn is_nonnull(&self) -> (r: bool)
        ensures
            r == nonnull_syn(*self),
        decreases *self,
    {
        match self {
            RegExp::Epsilon => false,
            RegExp::Var(_) => false,
            RegExp::Literal(_) => true,
            RegExp::Concat(a, b) => a.is_nonnull() || b.is_nonnull(),
            RegExp::Alter(a, b) => a.is_nonnull() && b.is_nonnull(),
            RegExp::Star(_) => false,
        }
    }

    /// Whether every variable occurrence is preceded by a consuming
    /// position, so that parsing under a guarded environment terminates.
    pub fn is_guarded(&self) -> (r: bool)
        ensures
            r == guarded(*self),
        decreases *self,
    {
        match self {
            RegExp::Epsilon => true,
            RegExp::Var(_) => false,
            RegExp::Literal(_) => true,
            RegExp::Concat(a, b) => a.is_guarded() && (a.is_nonnull() || b.is_guarded()),
            RegExp::Alter(a, b) => a.is_guarded() && b.is_guarded(),
            RegExp::Star(a) => a.is_guarded(),
        }
    }
}

/// Saturation of the star bound, the shape-equivalence half that is
/// structural: once `k` witnesses have been recorded, further matching
/// star iterations advance the cursor but leave the recorded witnesses
/// unchanged. Two inputs that differ only in how often a star body repeats
/// beyond `k` therefore produce the same witness list for that star.
pub proof fn lemma_parse_star_k_saturated(
    re: RegExp,
    s: Seq<i32>,
    pos: int,
    env: Map<i32, RegExp>,
    k: nat,
    acc: Seq<SpecVal>,
)
    requires
        0 <= pos <= s.len(),
        env_wf(env),
        acc.len() >= k,
    ensures
        match parse_star_k_spec(re, s, pos, env, k, acc) {
            StarK::Matched(vs, _) => vs == acc,
            StarK::Aborted(v) => v == SpecVal::Star(acc),
        },
    decreases s.len() - pos, vflag(re), re_size(re), 1int,
{
    match parse_k_spec(re, s, pos, env, k) {
        ParsedK::Matched(v, p1) => {
            if pos < p1 <= s.len() {
                lemma_parse_star_k_saturated(re, s, p1, env, k, acc);
            }
        },
        _ => {},
    }
}

} // verus!
