//! Multipatterns: several patterns bound to variables, searched or applied
//! together under one substitution.

use vstd::prelude::*;

use crate::Id;
use crate::subst::{is_var_text, str_chars, Var, VarParseError};
use crate::machine::{Program, clauses_ok, multi_compiles, normal_vars, not_count, pat_ok};
use crate::pattern::{
    is_space, char_is_space, skip_spaces, trimmed, trim_chars, slice_range, PatNode, PatternAst,
    ENodeOrVar, ENodeOrVarParseError, RecExprParseError, ParseFail, fail_of, parse_pattern_text,
    nodes_view, var_texts, push_new_var, lemma_skip_spaces_bounds,
};

verus! {

/// How a clause binds its variable.
pub enum ClauseOp {
    /// `?v = p`: the variable's class matches `p`.
    Eq,
    /// `?v |= p`: one of the alternatives bound with `|=` to `?v` matches.
    OrEq,
    /// `?v != p`: the variable's class must not match `p`.
    NotEq,
}

/// A character allowed in a clause's variable name.
pub open spec fn is_var_char(c: char) -> bool {
    ||| ('a' <= c && c <= 'z')
    ||| ('A' <= c && c <= 'Z')
    ||| ('0' <= c && c <= '9')
    ||| c == '_' || c == '/' || c == '-' || c == '+' || c == '*' || c == '^'
    ||| c == '%' || c == '$' || c == '#' || c == '@' || c == '!'
}

fn char_is_var_char(c: char) -> (r: bool)
    ensures
        r == is_var_char(c),
{
    ('a' <= c && c <= 'z') || ('A' <= c && c <= 'Z') || ('0' <= c && c <= '9') || c == '_' || c
        == '/' || c == '-' || c == '+' || c == '*' || c == '^' || c == '%' || c == '$' || c == '#'
        || c == '@' || c == '!'
}

/// The end of the longest run of variable-name characters from `i`.
pub open spec fn var_end(s: Seq<char>, i: int) -> int
    decreases s.len() - i,
{
    if 0 <= i < s.len() && is_var_char(s[i]) {
        var_end(s, i + 1)
    } else {
        i
    }
}

/// The end of the line that starts at `i`: the first `\n` at or after `i`,
/// or the end of the text.
pub open spec fn line_end(s: Seq<char>, i: int) -> int
    decreases s.len() - i,
{
    if 0 <= i < s.len() && s[i] != '\n' {
        line_end(s, i + 1)
    } else {
        i
    }
}

/// A clause of a trimmed text that starts with the `?` at `p`:
/// `?name`, white space, one of `|=`, `!=`, `=`, white space, and a
/// right-hand side that runs to the end of its line. The name is the
/// longest run of name characters. Gives the end of the name, the binding,
/// and the bounds of the right-hand side.
pub open spec fn clause_at(s: Seq<char>, p: int) -> Option<(int, ClauseOp, int, int)> {
    let e = var_end(s, p + 1);
    let w = skip_spaces(s, e);
    if !(0 <= p < s.len() && s[p] == '?') || e == p + 1 {
        None
    } else {
        let op: Option<(ClauseOp, int)> = if w + 1 < s.len() && s[w] == '|' && s[w + 1] == '=' {
            Some((ClauseOp::OrEq, w + 2))
        } else if w + 1 < s.len() && s[w] == '!' && s[w + 1] == '=' {
            Some((ClauseOp::NotEq, w + 2))
        } else if w < s.len() && s[w] == '=' {
            Some((ClauseOp::Eq, w + 1))
        } else {
            None
        };
        match op {
            None => None,
            Some((k, o)) => {
                let x = skip_spaces(s, o);
                if x < s.len() {
                    Some((e, k, x, line_end(s, x)))
                } else {
                    None
                }
            },
        }
    }
}

/// The leftmost clause at or after position `p`: its start, and what
/// [`clause_at`] gives there.
pub open spec fn clause_search(s: Seq<char>, p: int) -> Option<(int, int, ClauseOp, int, int)>
    decreases s.len() - p,
{
    if p < 0 || p >= s.len() {
        None
    } else {
        match clause_at(s, p) {
            Some((e, k, a, b)) => Some((p, e, k, a, b)),
            None => clause_search(s, p + 1),
        }
    }
}

/// The leftmost clause found from `p` is a clause at its start.
pub proof fn lemma_clause_search_found(s: Seq<char>, p: int)
    requires
        clause_search(s, p) is Some,
    ensures
        ({
            let (q, e, k, a, b) = clause_search(s, p)->0;
            &&& p <= q
            &&& clause_at(s, q) == Some((e, k, a, b))
        }),
    decreases s.len() - p,
{
    if 0 <= p < s.len() && clause_at(s, p) is None {
        lemma_clause_search_found(s, p + 1);
    }
}

/// The pieces of `s` from `i` on, split at each `,`.
pub open spec fn split_commas(s: Seq<char>, i: int) -> Seq<Seq<char>>
    decreases s.len() - i,
{
    if i < 0 || i > s.len() {
        Seq::empty()
    } else {
        let c = next_comma(s, i);
        proof {
            lemma_next_comma_bounds(s, i);
        }
        if c >= s.len() {
            seq![s.subrange(i, s.len() as int)]
        } else {
            seq![s.subrange(i, c)] + split_commas(s, c + 1)
        }
    }
}

/// The first `,` at or after `i`, or the end of the text.
pub open spec fn next_comma(s: Seq<char>, i: int) -> int
    decreases s.len() - i,
{
    if 0 <= i < s.len() && s[i] != ',' {
        next_comma(s, i + 1)
    } else {
        i
    }
}

/// The next comma is at or after `i` and within the text.
pub proof fn lemma_next_comma_bounds(s: Seq<char>, i: int)
    requires
        0 <= i <= s.len(),
    ensures
        i <= next_comma(s, i) <= s.len(),
    decreases s.len() - i,
{
    if i < s.len() && s[i] != ',' {
        lemma_next_comma_bounds(s, i + 1);
    }
}

/// The clauses of a multipattern as values: `(variable, pattern)` pairs,
/// alternatives grouped by variable, and negated pairs.
pub struct MultiPatternV {
    pub asts: Seq<(Seq<char>, Seq<PatNode>)>,
    pub or_asts: Seq<(Seq<char>, Seq<Seq<PatNode>>)>,
    pub not_asts: Seq<(Seq<char>, Seq<PatNode>)>,
}

/// Why a multipattern failed to parse.
pub enum MultiParseFail {
    /// A clause is not of the form `?var (=|!=||=) pattern`.
    Assignment(Seq<char>),
    /// A clause's pattern failed to parse.
    Pattern(ParseFail),
}

/// Adds `pat` to the alternatives of `v`, opening a group for `v` if it has
/// none yet.
pub open spec fn add_alternative(
    groups: Seq<(Seq<char>, Seq<Seq<PatNode>>)>,
    v: Seq<char>,
    pat: Seq<PatNode>,
) -> Seq<(Seq<char>, Seq<Seq<PatNode>>)>
    decreases groups.len(),
{
    if groups.len() == 0 {
        seq![(v, seq![pat])]
    } else if groups[0].0 == v {
        groups.update(0, (v, groups[0].1.push(pat)))
    } else {
        seq![groups[0]] + add_alternative(groups.drop_first(), v, pat)
    }
}

/// The clauses read from the first `k` pieces.
pub open spec fn clauses_upto(pieces: Seq<Seq<char>>, k: nat) -> Result<MultiPatternV, MultiParseFail>
    decreases k,
{
    if k == 0 {
        Ok(MultiPatternV { asts: Seq::empty(), or_asts: Seq::empty(), not_asts: Seq::empty() })
    } else {
        match clauses_upto(pieces, (k - 1) as nat) {
            Err(f) => Err(f),
            Ok(acc) => {
                let q = trimmed(pieces[k - 1]);
                if q.len() == 0 {
                    Ok(acc)
                } else {
                    match clause_search(q, 0) {
                        None => Err(MultiParseFail::Assignment(q)),
                        Some((p, e, op, a, b)) => {
                            let v = q.subrange(p, e);
                            match parse_pattern_text(q.subrange(a, b)) {
                                Err(f) => Err(MultiParseFail::Pattern(f)),
                                Ok(pat) => Ok(
                                    match op {
                                        ClauseOp::NotEq => MultiPatternV {
                                            not_asts: acc.not_asts.push((v, pat)),
                                            ..acc
                                        },
                                        ClauseOp::OrEq => MultiPatternV {
                                            or_asts: add_alternative(acc.or_asts, v, pat),
                                            ..acc
                                        },
                                        ClauseOp::Eq => MultiPatternV {
                                            asts: acc.asts.push((v, pat)),
                                            ..acc
                                        },
                                    },
                                ),
                            }
                        },
                    }
                }
            },
        }
    }
}

/// The number of variable leaves of a pattern.
pub open spec fn holes_upto(p: Seq<PatNode>, k: nat) -> nat
    decreases k,
{
    if k == 0 {
        0
    } else {
        holes_upto(p, (k - 1) as nat) + (if p[k - 1] is Var {
            1nat
        } else {
            0nat
        })
    }
}

/// The number of childless e-nodes (constants) of a pattern.
pub open spec fn consts_upto(p: Seq<PatNode>, k: nat) -> nat
    decreases k,
{
    if k == 0 {
        0
    } else {
        consts_upto(p, (k - 1) as nat) + (match p[k - 1] {
            PatNode::ENode { children, .. } => if children.len() == 0 {
                1nat
            } else {
                0nat
            },
            PatNode::Var { .. } => 0nat,
        })
    }
}

/// The number of variable leaves of a pattern.
pub open spec fn holes(p: Seq<PatNode>) -> nat {
    holes_upto(p, p.len())
}

/// The number of constants of a pattern.
pub open spec fn consts(p: Seq<PatNode>) -> nat {
    consts_upto(p, p.len())
}

/// Whether pattern `a` is searched strictly before pattern `b`: ground
/// patterns first, then patterns with more constants.
pub open spec fn goes_before(a: Seq<PatNode>, b: Seq<PatNode>) -> bool {
    ||| (holes(a) == 0 && holes(b) > 0)
    ||| (holes(a) > 0 && holes(b) > 0 && consts(a) > consts(b))
}

/// Inserts `x` into `s` just before the first element it goes before.
pub open spec fn insert_ordered(s: Seq<(Seq<char>, Seq<PatNode>)>, x: (Seq<char>, Seq<PatNode>)) -> Seq<
    (Seq<char>, Seq<PatNode>),
>
    decreases s.len(),
{
    if s.len() == 0 {
        seq![x]
    } else if goes_before(x.1, s[0].1) {
        seq![x] + s
    } else {
        seq![s[0]] + insert_ordered(s.drop_first(), x)
    }
}

/// The first `k` clauses ordered for searching; the order is stable.
pub open spec fn order_upto(s: Seq<(Seq<char>, Seq<PatNode>)>, k: nat) -> Seq<(Seq<char>, Seq<PatNode>)>
    decreases k,
{
    if k == 0 {
        Seq::empty()
    } else {
        insert_ordered(order_upto(s, (k - 1) as nat), s[k - 1])
    }
}

/// `insert_ordered` puts `x` at the first position whose element `x` goes
/// before.
pub proof fn lemma_insert_ordered_at(s: Seq<(Seq<char>, Seq<PatNode>)>, x: (Seq<char>, Seq<PatNode>), k: int)
    requires
        0 <= k <= s.len(),
        forall|j: int| 0 <= j < k ==> !goes_before(x.1, #[trigger] s[j].1),
        k == s.len() || goes_before(x.1, s[k].1),
    ensures
        insert_ordered(s, x) == s.insert(k, x),
    decreases s.len(),
{
    if s.len() == 0 {
        assert(insert_ordered(s, x) =~= s.insert(k, x));
    } else if k == 0 {
        assert(insert_ordered(s, x) =~= s.insert(k, x));
    } else {
        let t = s.drop_first();
        assert forall|j: int| 0 <= j < k - 1 implies !goes_before(x.1, #[trigger] t[j].1) by {
            assert(t[j] == s[j + 1]);
        }
        lemma_insert_ordered_at(t, x, k - 1);
        assert(insert_ordered(s, x) =~= s.insert(k, x));
    }
}

/// Neither pattern goes before the other: both are ground, or neither is
/// and they have as many constants.
pub open spec fn same_rank(a: Seq<PatNode>, b: Seq<PatNode>) -> bool {
    !goes_before(a, b) && !goes_before(b, a)
}

/// The clauses are in search order: no clause goes before an earlier one.
pub open spec fn in_search_order(s: Seq<(Seq<char>, Seq<PatNode>)>) -> bool {
    forall|i: int, j: int| 0 <= i < j < s.len() ==> !goes_before(#[trigger] s[j].1, #[trigger] s[i].1)
}

/// The clauses of `s` with the rank of `y`, in their order.
pub open spec fn rank_class(s: Seq<(Seq<char>, Seq<PatNode>)>, y: Seq<PatNode>) -> Seq<(Seq<char>, Seq<PatNode>)> {
    s.filter(|x: (Seq<char>, Seq<PatNode>)| same_rank(x.1, y))
}

/// Where `insert_ordered` puts `x`: after every element that `x` does not
/// go before, and before the first that it goes before.
proof fn lemma_insert_ordered_shape(t: Seq<(Seq<char>, Seq<PatNode>)>, x: (Seq<char>, Seq<PatNode>)) -> (p: int)
    ensures
        0 <= p <= t.len(),
        insert_ordered(t, x) == t.insert(p, x),
        forall|j: int| 0 <= j < p ==> !goes_before(x.1, #[trigger] t[j].1),
        p < t.len() ==> goes_before(x.1, t[p].1),
    decreases t.len(),
{
    if t.len() == 0 {
        assert(insert_ordered(t, x) =~= t.insert(0, x));
        0
    } else if goes_before(x.1, t[0].1) {
        assert(insert_ordered(t, x) =~= t.insert(0, x));
        0
    } else {
        let q = lemma_insert_ordered_shape(t.drop_first(), x);
        assert forall|j: int| 0 <= j < q + 1 implies !goes_before(x.1, #[trigger] t[j].1) by {
            if j > 0 {
                assert(t[j] == t.drop_first()[j - 1]);
            }
        }
        if q < t.drop_first().len() {
            assert(t[q + 1] == t.drop_first()[q]);
        }
        assert(insert_ordered(t, x) =~= t.insert(q + 1, x));
        q + 1
    }
}

/// The search order is a stable sort: `order_upto` puts the first `k`
/// clauses in search order (ground patterns first, then patterns with more
/// constants), and the clauses of one rank keep the order they had.
pub proof fn law_order_is_stable_sort(s: Seq<(Seq<char>, Seq<PatNode>)>, k: nat)
    requires
        k <= s.len(),
    ensures
        in_search_order(order_upto(s, k)),
        forall|y: Seq<PatNode>| #[trigger] rank_class(order_upto(s, k), y) == rank_class(s.take(k as int), y),
    decreases k,
{
    if k == 0 {
        assert(s.take(0) =~= Seq::<(Seq<char>, Seq<PatNode>)>::empty());
        assert forall|y: Seq<PatNode>| #[trigger] rank_class(order_upto(s, k), y) == rank_class(s.take(k as int), y) by {
            assert(order_upto(s, 0) =~= Seq::<(Seq<char>, Seq<PatNode>)>::empty());
            reveal_with_fuel(Seq::filter, 1);
        }
    } else {
        let k1 = (k - 1) as nat;
        law_order_is_stable_sort(s, k1);
        let t = order_upto(s, k1);
        let x = s[k1 as int];
        let p = lemma_insert_ordered_shape(t, x);
        let o = order_upto(s, k);
        assert(o == t.insert(p, x));
        // what follows the insertion point ranks after x
        assert forall|j: int| p <= j < t.len() implies goes_before(x.1, #[trigger] t[j].1) by {
            if j > p {
                assert(!goes_before(t[j].1, t[p].1));
            }
        }
        assert forall|i: int, j: int| 0 <= i < j < o.len() implies !goes_before(#[trigger] o[j].1, #[trigger] o[i].1) by {
            if j < p {
                assert(o[i] == t[i] && o[j] == t[j]);
            } else if j == p {
                assert(o[i] == t[i]);
            } else if i == p {
                assert(o[j] == t[j - 1]);
            } else if i < p {
                assert(o[i] == t[i] && o[j] == t[j - 1]);
            } else {
                assert(o[i] == t[i - 1] && o[j] == t[j - 1]);
            }
        }
        assert forall|y: Seq<PatNode>| #[trigger] rank_class(o, y) == rank_class(s.take(k as int), y) by {
            let pr = |z: (Seq<char>, Seq<PatNode>)| same_rank(z.1, y);
            assert(s.take(k as int) =~= s.take(k1 as int).push(x));
            s.take(k1 as int).lemma_filter_push(x, pr);
            assert(t =~= t.take(p) + t.skip(p));
            assert(o =~= t.take(p) + seq![x] + t.skip(p));
            Seq::filter_distributes_over_add(t.take(p), t.skip(p), pr);
            Seq::filter_distributes_over_add(t.take(p) + seq![x], t.skip(p), pr);
            Seq::filter_distributes_over_add(t.take(p), seq![x], pr);
            assert(seq![x] =~= Seq::<(Seq<char>, Seq<PatNode>)>::empty().push(x));
            Seq::<(Seq<char>, Seq<PatNode>)>::empty().lemma_filter_push(x, pr);
            assert(Seq::<(Seq<char>, Seq<PatNode>)>::empty().filter(pr) =~= Seq::<(Seq<char>, Seq<PatNode>)>::empty()) by {
                reveal_with_fuel(Seq::filter, 1);
            }
            if pr(x) {
                assert forall|j: int| 0 <= j < t.skip(p).len() implies !pr(#[trigger] t.skip(p)[j]) by {
                    assert(t.skip(p)[j] == t[p + j]);
                    assert(goes_before(x.1, t[p + j].1));
                }
                t.skip(p).lemma_all_neg_filter_empty(pr);
                assert(t.take(p).filter(pr) + seq![x].filter(pr) + t.skip(p).filter(pr) =~= (t.take(p).filter(pr)
                    + t.skip(p).filter(pr)).push(x));
            } else {
                assert(t.take(p).filter(pr) + seq![x].filter(pr) + t.skip(p).filter(pr) =~= t.take(p).filter(pr)
                    + t.skip(p).filter(pr));
            }
            assert(rank_class(t, y) == rank_class(s.take(k1 as int), y));
        }
    }
}

/// Clauses that all have one rank are already in search order: ordering
/// them leaves them as they are, so a multipattern built with the ordering
/// holds its clauses as given.
pub proof fn law_one_rank_keeps_order(s: Seq<(Seq<char>, Seq<PatNode>)>, k: nat)
    requires
        k <= s.len(),
        forall|i: int, j: int| 0 <= i < s.len() && 0 <= j < s.len() ==> same_rank(#[trigger] s[i].1, #[trigger] s[j].1),
    ensures
        order_upto(s, k) == s.take(k as int),
    decreases k,
{
    if k == 0 {
        assert(s.take(0) =~= order_upto(s, 0));
    } else {
        let k1 = (k - 1) as nat;
        law_one_rank_keeps_order(s, k1);
        let t = s.take(k1 as int);
        let x = s[k1 as int];
        assert forall|j: int| 0 <= j < t.len() implies !goes_before(x.1, #[trigger] t[j].1) by {
            assert(t[j] == s[j]);
            assert(same_rank(s[k1 as int].1, s[j].1));
        }
        lemma_insert_ordered_at(t, x, t.len() as int);
        assert(t.insert(t.len() as int, x) =~= s.take(k as int));
    }
}

/// The view of a list of `(variable, pattern)` pairs.
pub open spec fn pairs_view(v: Seq<(Var, PatternAst)>) -> Seq<(Seq<char>, Seq<PatNode>)> {
    v.map_values(|p: (Var, PatternAst)| (p.0@, p.1@))
}

/// The view of a list of patterns.
pub open spec fn asts_view(v: Seq<PatternAst>) -> Seq<Seq<PatNode>> {
    v.map_values(|p: PatternAst| p@)
}

/// The view of grouped alternatives.
pub open spec fn groups_view(v: Seq<(Var, Vec<PatternAst>)>) -> Seq<(Seq<char>, Seq<Seq<PatNode>>)> {
    v.map_values(|p: (Var, Vec<PatternAst>)| (p.0@, asts_view(p.1@)))
}

/// A set of patterns bound to variables, searched or applied together.
pub struct MultiPattern {
    asts: Vec<(Var, PatternAst)>,
    or_asts: Vec<(Var, Vec<PatternAst>)>,
    not_asts: Vec<(Var, PatternAst)>,
    program: Program,
}

impl View for MultiPattern {
    type V = MultiPatternV;

    closed spec fn view(&self) -> MultiPatternV {
        MultiPatternV {
            asts: pairs_view(self.asts@),
            or_asts: groups_view(self.or_asts@),
            not_asts: pairs_view(self.not_asts@),
        }
    }
}

/// The error of parsing a multipattern.
#[derive(Debug)]
pub enum MultiPatternParseError<E> {
    /// One of the patterns failed to parse.
    PatternParseError(E),
    /// A clause was not of the form `?var (=|!=||=) pattern`; carries it.
    PatternAssignmentError(String),
    /// A variable failed to parse.
    VariableError(VarParseError),
}

/// What a multipattern parse error stands for.
pub open spec fn multi_fail_of(
    e: MultiPatternParseError<RecExprParseError<ENodeOrVarParseError<String>>>,
) -> MultiParseFail {
    match e {
        MultiPatternParseError::PatternParseError(p) => MultiParseFail::Pattern(fail_of(p)),
        MultiPatternParseError::PatternAssignmentError(s) => MultiParseFail::Assignment(s@),
        MultiPatternParseError::VariableError(_) => MultiParseFail::Assignment(Seq::empty()),
    }
}

/// The number of variable leaves of a pattern.
fn count_holes(p: &PatternAst) -> (r: usize)
    ensures
        r == holes(p@),
{
    let nodes = p.as_ref();
    let mut n: usize = 0;
    let mut i: usize = 0;
    while i < nodes.len()
        invariant
            0 <= i <= nodes@.len(),
            nodes_view(nodes@) == p@,
            n == holes_upto(p@, i as nat),
            n <= i,
        decreases nodes@.len() - i,
    {
        proof {
            assert(p@[i as int] == nodes@[i as int]@);
        }
        match &nodes[i] {
            ENodeOrVar::Var(_) => {
                n = n + 1;
            },
            _ => {},
        }
        i = i + 1;
    }
    n
}

/// The number of childless e-nodes of a pattern.
fn count_consts(p: &PatternAst) -> (r: usize)
    ensures
        r == consts(p@),
{
    let nodes = p.as_ref();
    let mut n: usize = 0;
    let mut i: usize = 0;
    while i < nodes.len()
        invariant
            0 <= i <= nodes@.len(),
            nodes_view(nodes@) == p@,
            n == consts_upto(p@, i as nat),
            n <= i,
        decreases nodes@.len() - i,
    {
        proof {
            assert(p@[i as int] == nodes@[i as int]@);
        }
        match &nodes[i] {
            ENodeOrVar::ENode(e, _) => {
                if e.children.len() == 0 {
                    n = n + 1;
                }
            },
            _ => {},
        }
        i = i + 1;
    }
    n
}

/// Whether pattern `a` is searched strictly before pattern `b`.
fn goes_before_exec(a: &PatternAst, b: &PatternAst) -> (r: bool)
    ensures
        r == goes_before(a@, b@),
{
    let ha = count_holes(a);
    let hb = count_holes(b);
    if ha == 0 && hb > 0 {
        return true;
    }
    ha > 0 && hb > 0 && count_consts(a) > count_consts(b)
}

/// Adding a well-formed alternative keeps every alternative well formed.
pub proof fn lemma_add_alternative_ok(groups: Seq<(Seq<char>, Seq<Seq<PatNode>>)>, v: Seq<char>, pat: Seq<PatNode>)
    requires
        forall|g: int, j: int| 0 <= g < groups.len() && 0 <= j < groups[g].1.len() ==> pat_ok(#[trigger] groups[g].1[j]),
        pat_ok(pat),
    ensures
        ({
            let r = add_alternative(groups, v, pat);
            forall|g: int, j: int| 0 <= g < r.len() && 0 <= j < r[g].1.len() ==> pat_ok(#[trigger] r[g].1[j])
        }),
    decreases groups.len(),
{
    let r = add_alternative(groups, v, pat);
    if groups.len() == 0 {
        assert forall|g: int, j: int| 0 <= g < r.len() && 0 <= j < r[g].1.len() implies pat_ok(#[trigger] r[g].1[j]) by {
            assert(r[g].1 == seq![pat]);
        }
    } else if groups[0].0 == v {
        assert forall|g: int, j: int| 0 <= g < r.len() && 0 <= j < r[g].1.len() implies pat_ok(#[trigger] r[g].1[j]) by {
            if g == 0 {
                if j < groups[0].1.len() {
                    assert(r[0].1[j] == groups[0].1[j]);
                }
            } else {
                assert(r[g] == groups[g]);
            }
        }
    } else {
        let t = groups.drop_first();
        assert forall|g: int, j: int| 0 <= g < t.len() && 0 <= j < t[g].1.len() implies pat_ok(#[trigger] t[g].1[j]) by {
            assert(t[g] == groups[g + 1]);
        }
        lemma_add_alternative_ok(t, v, pat);
        let rt = add_alternative(t, v, pat);
        assert forall|g: int, j: int| 0 <= g < r.len() && 0 <= j < r[g].1.len() implies pat_ok(#[trigger] r[g].1[j]) by {
            if g == 0 {
                assert(r[0] == groups[0]);
            } else {
                assert(r[g] == rt[g - 1]);
            }
        }
    }
}

impl MultiPattern {
    /// The compiled program.
    pub closed spec fn program_spec(&self) -> Program {
        self.program
    }

    /// Creates a multipattern binding each pattern to its variable, and
    /// compiles it.
    pub fn new(asts: Vec<(Var, PatternAst)>) -> (r: Self)
        requires
            clauses_ok(pairs_view(asts@), Seq::empty(), Seq::empty()),
            multi_compiles(pairs_view(asts@), Seq::empty(), Seq::empty()),
        ensures
            r@.asts == pairs_view(asts@),
            r@.or_asts.len() == 0,
            r@.not_asts.len() == 0,
            r.program_spec().var_regs().map_values(|p: (Seq<char>, Id)| p.0).to_set() == normal_vars(pairs_view(asts@)),
            crate::machine::bind_count(r.program_spec().instructions_spec()) == crate::machine::asts_enodes(
                pairs_view(asts@),
            ),
    {
        let or_asts: Vec<(Var, Vec<PatternAst>)> = Vec::new();
        let not_asts: Vec<(Var, PatternAst)> = Vec::new();
        proof {
            assert(groups_view(or_asts@) =~= Seq::<(Seq<char>, Seq<Seq<PatNode>>)>::empty());
            assert(pairs_view(not_asts@) =~= Seq::<(Seq<char>, Seq<PatNode>)>::empty());
        }
        let program = Program::compile_from_multi_pat(&asts, &or_asts, &not_asts);
        MultiPattern { asts, or_asts, not_asts, program }
    }

    /// Creates a multipattern with alternatives and negations. The bound
    /// patterns are ordered for searching: ground patterns first, then
    /// patterns with more constants; the order is otherwise kept.
    pub fn new_with_specials(
        asts: Vec<(Var, PatternAst)>,
        or_asts: Vec<(Var, Vec<PatternAst>)>,
        not_asts: Vec<(Var, PatternAst)>,
    ) -> (r: Self)
        requires
            clauses_ok(pairs_view(asts@), groups_view(or_asts@), pairs_view(not_asts@)),
            multi_compiles(order_upto(pairs_view(asts@), asts@.len()), groups_view(or_asts@), pairs_view(not_asts@)),
        ensures
            r@.asts == order_upto(pairs_view(asts@), asts@.len()),
            r@.or_asts == groups_view(or_asts@),
            r@.not_asts == pairs_view(not_asts@),
            r.program_spec().var_regs().map_values(|p: (Seq<char>, Id)| p.0).to_set() == normal_vars(r@.asts),
            not_count(r.program_spec().instructions_spec()) == not_asts@.len(),
            crate::machine::bind_count(r.program_spec().instructions_spec()) == crate::machine::asts_enodes(r@.asts),
            crate::machine::or_count(r.program_spec().instructions_spec()) == crate::machine::kept_count(
                r@.asts,
                r@.or_asts,
            ),
            in_search_order(r@.asts),
            forall|y: Seq<PatNode>| #[trigger] rank_class(r@.asts, y) == rank_class(pairs_view(asts@), y),
    {
        let ghost input = pairs_view(asts@);
        proof {
            law_order_is_stable_sort(input, input.len() as nat);
            assert(input.take(input.len() as int) =~= input);
        }
        let mut sorted: Vec<(Var, PatternAst)> = Vec::new();
        let mut rest = asts;
        let mut taken: usize = 0;
        let total = rest.len();
        proof {
            assert(pairs_view(sorted@) =~= order_upto(input, 0));
            assert(pairs_view(rest@) =~= input.subrange(0, total as int));
        }
        while rest.len() > 0
            invariant
                rest@.len() + taken == total,
                total == input.len(),
                pairs_view(sorted@) == order_upto(input, taken as nat),
                pairs_view(rest@) == input.subrange(taken as int, total as int),
                forall|j: int| 0 <= j < input.len() ==> pat_ok(#[trigger] input[j].1),
                forall|j: int| 0 <= j < sorted@.len() ==> pat_ok(#[trigger] pairs_view(sorted@)[j].1),
            decreases rest@.len(),
        {
            let ghost rest_before = rest@;
            let x = rest.remove(0);
            proof {
                assert(pairs_view(rest_before)[0] == (x.0@, x.1@));
                assert((x.0@, x.1@) == input[taken as int]);
                assert forall|j: int| 0 <= j < rest@.len() implies #[trigger] pairs_view(rest@)[j]
                    == input.subrange(taken + 1, total as int)[j] by {
                    assert(rest@[j] == rest_before[j + 1]);
                    assert(pairs_view(rest_before)[j + 1] == input[taken + 1 + j]);
                }
                assert(pairs_view(rest@) =~= input.subrange(taken + 1, total as int));
            }
            let mut k: usize = 0;
            while k < sorted.len() && !goes_before_exec(&x.1, &sorted[k].1)
                invariant
                    0 <= k <= sorted@.len(),
                    forall|j: int|
                        0 <= j < k ==> !goes_before(x.1@, #[trigger] pairs_view(sorted@)[j].1),
                decreases sorted@.len() - k,
            {
                proof {
                    assert(pairs_view(sorted@)[k as int].1 == sorted@[k as int].1@);
                }
                k = k + 1;
            }
            proof {
                if k < sorted@.len() {
                    assert(pairs_view(sorted@)[k as int].1 == sorted@[k as int].1@);
                }
                lemma_insert_ordered_at(pairs_view(sorted@), (x.0@, x.1@), k as int);
            }
            let ghost before = pairs_view(sorted@);
            let ghost xv = (x.0@, x.1@);
            sorted.insert(k, x);
            proof {
                assert(pairs_view(sorted@) =~= before.insert(k as int, xv));
                assert forall|j: int| 0 <= j < sorted@.len() implies pat_ok(#[trigger] pairs_view(sorted@)[j].1) by {
                    if j < k {
                        assert(pairs_view(sorted@)[j] == before[j]);
                    } else if j == k {
                        assert(pairs_view(sorted@)[j] == xv);
                    } else {
                        assert(pairs_view(sorted@)[j] == before[j - 1]);
                    }
                }
            }
            taken = taken + 1;
        }
        let program = Program::compile_from_multi_pat(&sorted, &or_asts, &not_asts);
        MultiPattern { asts: sorted, or_asts, not_asts, program }
    }
}

} // verus!

verus! {

/// Once reading a piece fails, the whole reading fails the same way.
pub proof fn lemma_clauses_fail_sticks(pieces: Seq<Seq<char>>, k: nat, n: nat)
    requires
        k <= n,
        clauses_upto(pieces, k) is Err,
    ensures
        clauses_upto(pieces, n) == clauses_upto(pieces, k),
    decreases n - k,
{
    if k < n {
        lemma_clauses_fail_sticks(pieces, k, (n - 1) as nat);
    }
}

/// The alternatives grouped under `w`: those of its first group, none if
/// it has no group.
pub open spec fn alternatives_of(groups: Seq<(Seq<char>, Seq<Seq<PatNode>>)>, w: Seq<char>) -> Seq<Seq<PatNode>>
    decreases groups.len(),
{
    if groups.len() == 0 {
        Seq::empty()
    } else if groups[0].0 == w {
        groups[0].1
    } else {
        alternatives_of(groups.drop_first(), w)
    }
}

/// No two groups of alternatives have the same variable.
pub open spec fn distinct_group_vars(groups: Seq<(Seq<char>, Seq<Seq<PatNode>>)>) -> bool {
    forall|i: int, j: int| 0 <= i < j < groups.len() ==> #[trigger] groups[i].0 != #[trigger] groups[j].0
}

/// Adding an alternative of `v` appends it to `v`'s alternatives and
/// leaves every other variable's alternatives as they were; the groups
/// keep having distinct variables.
pub proof fn law_add_alternative(groups: Seq<(Seq<char>, Seq<Seq<PatNode>>)>, v: Seq<char>, pat: Seq<PatNode>, w: Seq<char>)
    requires
        distinct_group_vars(groups),
    ensures
        distinct_group_vars(add_alternative(groups, v, pat)),
        alternatives_of(add_alternative(groups, v, pat), w) == (if w == v {
            alternatives_of(groups, v).push(pat)
        } else {
            alternatives_of(groups, w)
        }),
    decreases groups.len(),
{
    let r = add_alternative(groups, v, pat);
    if groups.len() == 0 {
        assert(alternatives_of(groups, v) =~= Seq::<Seq<PatNode>>::empty());
        assert(r.drop_first() =~= Seq::<(Seq<char>, Seq<Seq<PatNode>>)>::empty());
        assert(alternatives_of(r.drop_first(), w) =~= Seq::<Seq<PatNode>>::empty());
        assert(alternatives_of(groups, w) =~= Seq::<Seq<PatNode>>::empty());
        assert(seq![pat] =~= Seq::<Seq<PatNode>>::empty().push(pat));
    } else if groups[0].0 == v {
        assert(r.drop_first() =~= groups.drop_first());
        assert(alternatives_of(r.drop_first(), w) == alternatives_of(groups.drop_first(), w));
        assert forall|i: int, j: int| 0 <= i < j < r.len() implies #[trigger] r[i].0 != #[trigger] r[j].0 by {
            assert(groups[i].0 == r[i].0 && groups[j].0 == r[j].0);
        }
    } else {
        let t = groups.drop_first();
        assert forall|i: int, j: int| 0 <= i < j < t.len() implies #[trigger] t[i].0 != #[trigger] t[j].0 by {
            assert(t[i] == groups[i + 1] && t[j] == groups[j + 1]);
        }
        law_add_alternative(t, v, pat, w);
        let rt = add_alternative(t, v, pat);
        assert(r == seq![groups[0]] + rt);
        assert(r.drop_first() =~= rt);
        lemma_alternatives_vars(t, v, pat);
        assert forall|i: int, j: int| 0 <= i < j < r.len() implies #[trigger] r[i].0 != #[trigger] r[j].0 by {
            if i == 0 {
                assert(r[j] == rt[j - 1]);
                if rt[j - 1].0 != v {
                    let x = choose|x: int| 0 <= x < t.len() && t[x].0 == rt[j - 1].0;
                    assert(t[x] == groups[x + 1]);
                }
            } else {
                assert(r[i] == rt[i - 1] && r[j] == rt[j - 1]);
            }
        }
    }
}

/// The variables of the groups after adding an alternative of `v`: `v`, and
/// those that were there.
proof fn lemma_alternatives_vars(groups: Seq<(Seq<char>, Seq<Seq<PatNode>>)>, v: Seq<char>, pat: Seq<PatNode>)
    ensures
        forall|j: int|
            0 <= j < add_alternative(groups, v, pat).len() ==> (#[trigger] add_alternative(groups, v, pat)[j]).0 == v
                || exists|x: int| 0 <= x < groups.len() && groups[x].0 == add_alternative(groups, v, pat)[j].0,
    decreases groups.len(),
{
    let r = add_alternative(groups, v, pat);
    if groups.len() > 0 && groups[0].0 != v {
        let t = groups.drop_first();
        lemma_alternatives_vars(t, v, pat);
        let rt = add_alternative(t, v, pat);
        assert forall|j: int| 0 <= j < r.len() implies (#[trigger] r[j]).0 == v || exists|x: int|
            0 <= x < groups.len() && groups[x].0 == r[j].0 by {
            if j == 0 {
                assert(groups[0].0 == r[0].0);
            } else {
                assert(r[j] == rt[j - 1]);
                if rt[j - 1].0 != v {
                    let x = choose|x: int| 0 <= x < t.len() && t[x].0 == rt[j - 1].0;
                    assert(t[x] == groups[x + 1]);
                }
            }
        }
    } else if groups.len() > 0 {
        assert forall|j: int| 0 <= j < r.len() implies (#[trigger] r[j]).0 == v || exists|x: int|
            0 <= x < groups.len() && groups[x].0 == r[j].0 by {
            if j > 0 {
                assert(groups[j].0 == r[j].0);
            }
        }
    }
}

/// Parsing a multipattern gives every variable at most one group of
/// alternatives.
pub proof fn law_parsed_groups_distinct(pieces: Seq<Seq<char>>, k: nat)
    ensures
        clauses_upto(pieces, k) matches Ok(m) ==> distinct_group_vars(m.or_asts),
    decreases k,
{
    if k > 0 {
        law_parsed_groups_distinct(pieces, (k - 1) as nat);
        if let Ok(m0) = clauses_upto(pieces, (k - 1) as nat) {
            law_add_alternative(m0.or_asts, Seq::empty(), Seq::empty(), Seq::empty());
            let q = trimmed(pieces[k - 1]);
            if q.len() > 0 {
                if let Some((p, e, op, a, b)) = clause_search(q, 0) {
                    if let Ok(pat) = parse_pattern_text(q.subrange(a, b)) {
                        law_add_alternative(m0.or_asts, q.subrange(p, e), pat, Seq::empty());
                    }
                }
            }
        }
    }
}

/// The variable and pattern of a piece that is a well-formed `?v |= p`
/// clause.
pub open spec fn or_clause(q: Seq<char>) -> Option<(Seq<char>, Seq<PatNode>)> {
    if q.len() == 0 {
        None
    } else {
        match clause_search(q, 0) {
            Some((p, e, op, a, b)) => match op {
                ClauseOp::OrEq => match parse_pattern_text(q.subrange(a, b)) {
                    Ok(pat) => Some((q.subrange(p, e), pat)),
                    Err(_) => None,
                },
                _ => None,
            },
            None => None,
        }
    }
}

/// One more clause read: a `?w |= p` clause appends `p` to the
/// alternatives of `w`, in order, and no other clause changes them; the
/// alternatives of every other variable stay as they were.
pub proof fn law_parsed_alternatives_step(pieces: Seq<Seq<char>>, k: nat, w: Seq<char>)
    requires
        clauses_upto(pieces, k + 1) is Ok,
    ensures
        clauses_upto(pieces, k) is Ok,
        ({
            let m0 = clauses_upto(pieces, k)->Ok_0;
            let m1 = clauses_upto(pieces, k + 1)->Ok_0;
            let q = trimmed(pieces[k as int]);
            alternatives_of(m1.or_asts, w) == (if or_clause(q) is Some && or_clause(q).unwrap().0 == w {
                alternatives_of(m0.or_asts, w).push(or_clause(q).unwrap().1)
            } else {
                alternatives_of(m0.or_asts, w)
            })
        }),
{
    law_parsed_groups_distinct(pieces, k);
    let m0 = clauses_upto(pieces, k)->Ok_0;
    let q = trimmed(pieces[k as int]);
    if q.len() > 0 {
        if let Some((p, e, op, a, b)) = clause_search(q, 0) {
            if let Ok(pat) = parse_pattern_text(q.subrange(a, b)) {
                law_add_alternative(m0.or_asts, q.subrange(p, e), pat, w);
            }
        }
    }
}

/// `add_alternative` extends the first group of `v`, or opens a new group.
pub proof fn lemma_add_alternative_at(
    groups: Seq<(Seq<char>, Seq<Seq<PatNode>>)>,
    v: Seq<char>,
    pat: Seq<PatNode>,
    i: int,
)
    requires
        0 <= i <= groups.len(),
        forall|j: int| 0 <= j < i ==> #[trigger] groups[j].0 != v,
        i == groups.len() || groups[i].0 == v,
    ensures
        add_alternative(groups, v, pat) == (if i == groups.len() {
            groups.push((v, seq![pat]))
        } else {
            groups.update(i, (v, groups[i].1.push(pat)))
        }),
    decreases groups.len(),
{
    if groups.len() == 0 {
        assert(add_alternative(groups, v, pat) =~= groups.push((v, seq![pat])));
    } else if i == 0 {
    } else {
        let t = groups.drop_first();
        assert forall|j: int| 0 <= j < i - 1 implies #[trigger] t[j].0 != v by {
            assert(t[j] == groups[j + 1]);
        }
        lemma_add_alternative_at(t, v, pat, i - 1);
        if i == groups.len() {
            assert(add_alternative(groups, v, pat) =~= groups.push((v, seq![pat])));
        } else {
            assert(add_alternative(groups, v, pat) =~= groups.update(
                i,
                (v, groups[i].1.push(pat)),
            ));
        }
    }
}

fn var_end_exec(s: &[char], i: usize) -> (r: usize)
    requires
        i <= s@.len(),
    ensures
        r as int == var_end(s@, i as int),
        i <= r <= s@.len(),
{
    let mut j = i;
    while j < s.len() && char_is_var_char(s[j])
        invariant
            i <= j <= s@.len(),
            var_end(s@, j as int) == var_end(s@, i as int),
        decreases s@.len() - j,
    {
        j = j + 1;
    }
    j
}

fn line_end_exec(s: &[char], i: usize) -> (r: usize)
    requires
        i <= s@.len(),
    ensures
        r as int == line_end(s@, i as int),
        i <= r <= s@.len(),
{
    let mut j = i;
    while j < s.len() && s[j] != '\n'
        invariant
            i <= j <= s@.len(),
            line_end(s@, j as int) == line_end(s@, i as int),
        decreases s@.len() - j,
    {
        j = j + 1;
    }
    j
}

fn skip_spaces_from(s: &[char], i: usize) -> (r: usize)
    requires
        i <= s@.len(),
    ensures
        r as int == skip_spaces(s@, i as int),
        i <= r <= s@.len(),
{
    let mut j = i;
    while j < s.len() && char_is_space(s[j])
        invariant
            i <= j <= s@.len(),
            skip_spaces(s@, j as int) == skip_spaces(s@, i as int),
        decreases s@.len() - j,
    {
        j = j + 1;
    }
    j
}

/// The clause that starts with the `?` at `p`, if any.
fn clause_at_exec(s: &[char], p: usize) -> (r: Option<(usize, ClauseOp, usize, usize)>)
    requires
        p < s@.len(),
    ensures
        match clause_at(s@, p as int) {
            None => r is None,
            Some((e, k, a, b)) => r matches Some((e2, k2, a2, b2)) && e2 == e && k2 == k && a2 == a
                && b2 == b && p < e <= a <= b <= s@.len(),
        },
{
    if s[p] != '?' {
        return None;
    }
    let e = var_end_exec(s, p + 1);
    if e == p + 1 {
        return None;
    }
    let w = skip_spaces_from(s, e);
    let (k, o) = if w < s.len() && s.len() - w > 1 && s[w] == '|' && s[w + 1] == '=' {
        (ClauseOp::OrEq, w + 2)
    } else if w < s.len() && s.len() - w > 1 && s[w] == '!' && s[w + 1] == '=' {
        (ClauseOp::NotEq, w + 2)
    } else if w < s.len() && s[w] == '=' {
        (ClauseOp::Eq, w + 1)
    } else {
        return None;
    };
    let x = skip_spaces_from(s, o);
    if x < s.len() {
        let b = line_end_exec(s, x);
        Some((e, k, x, b))
    } else {
        None
    }
}

/// The leftmost clause in `s`.
fn clause_search_exec(s: &[char]) -> (r: Option<(usize, usize, ClauseOp, usize, usize)>)
    ensures
        match clause_search(s@, 0) {
            None => r is None,
            Some((p, e, k, a, b)) => r matches Some((p2, e2, k2, a2, b2)) && p2 == p && e2 == e && k2
                == k && a2 == a && b2 == b && p < e <= a <= b <= s@.len(),
        },
{
    let mut p: usize = 0;
    while p < s.len()
        invariant
            0 <= p <= s@.len(),
            clause_search(s@, p as int) == clause_search(s@, 0),
        decreases s@.len() - p,
    {
        match clause_at_exec(s, p) {
            Some((e, k, a, b)) => {
                return Some((p, e, k, a, b));
            },
            None => {},
        }
        p = p + 1;
    }
    None
}

/// Adds `pat` to the alternatives of `v`.
fn add_alternative_exec(groups: &mut Vec<(Var, Vec<PatternAst>)>, v: Var, pat: PatternAst)
    ensures
        groups_view(final(groups)@) == add_alternative(groups_view(old(groups)@), v@, pat@),
{
    let ghost g0 = groups_view(groups@);
    let mut i: usize = 0;
    while i < groups.len()
        invariant
            0 <= i <= groups@.len(),
            groups@ == old(groups)@,
            g0 == groups_view(groups@),
            forall|j: int| 0 <= j < i ==> #[trigger] g0[j].0 != v@,
        decreases groups@.len() - i,
    {
        if groups[i].0.same(&v) {
            proof {
                assert(g0[i as int].0 == v@);
                lemma_add_alternative_at(g0, v@, pat@, i as int);
            }
            let (gv, mut gl) = groups.remove(i);
            let ghost pv = pat@;
            let ghost gl0 = asts_view(gl@);
            gl.push(pat);
            proof {
                assert(asts_view(gl@) =~= gl0.push(pv));
            }
            groups.insert(i, (gv, gl));
            proof {
                assert(groups_view(groups@) =~= g0.update(i as int, (v@, g0[i as int].1.push(pv))));
            }
            return;
        }
        proof {
            assert(g0[i as int].0 == groups@[i as int].0@);
        }
        i = i + 1;
    }
    proof {
        lemma_add_alternative_at(g0, v@, pat@, g0.len() as int);
    }
    let ghost vv = v@;
    let ghost pv = pat@;
    let mut gl: Vec<PatternAst> = Vec::new();
    gl.push(pat);
    proof {
        assert(asts_view(gl@) =~= seq![pv]);
    }
    groups.push((v, gl));
    proof {
        assert(groups_view(groups@) =~= g0.push((vv, seq![pv])));
    }
}

impl MultiPattern {
    /// Parses a multipattern: clauses separated by commas, each of the form
    /// `?var = pattern`, `?var |= pattern` (an alternative) or
    /// `?var != pattern` (a negation). Empty clauses are skipped.
    pub fn from_str(s: &str) -> (r: Result<
        MultiPattern,
        MultiPatternParseError<RecExprParseError<ENodeOrVarParseError<String>>>,
    >)
        requires
            s@.len() <= 0x4000_0000,
            ({
                let pieces = split_commas(trimmed(s@), 0);
                clauses_upto(pieces, pieces.len()) matches Ok(v) ==> multi_compiles(
                    order_upto(v.asts, v.asts.len()),
                    v.or_asts,
                    v.not_asts,
                )
            }),
        ensures
            ({
                let pieces = split_commas(trimmed(s@), 0);
                match clauses_upto(pieces, pieces.len()) {
                    Ok(v) => r matches Ok(m) && m@ == MultiPatternV {
                        asts: order_upto(v.asts, v.asts.len()),
                        ..v
                    },
                    Err(f) => r matches Err(e) && multi_fail_of(e) == f,
                }
            }),
            r matches Ok(m) ==> m.program_spec().var_regs().map_values(|p: (Seq<char>, Id)| p.0).to_set()
                == normal_vars(m@.asts) && not_count(m.program_spec().instructions_spec()) == m@.not_asts.len()
                && crate::machine::bind_count(m.program_spec().instructions_spec()) == crate::machine::asts_enodes(
                m@.asts,
            ) && crate::machine::or_count(m.program_spec().instructions_spec()) == crate::machine::kept_count(
                m@.asts,
                m@.or_asts,
            ),
    {
        let all = str_chars(s);
        let t = trim_chars(all.as_slice());
        proof {
            crate::pattern::lemma_trimmed_len(s@);
        }
        let ghost pieces = split_commas(t@, 0);
        let mut asts: Vec<(Var, PatternAst)> = Vec::new();
        let mut or_asts: Vec<(Var, Vec<PatternAst>)> = Vec::new();
        let mut not_asts: Vec<(Var, PatternAst)> = Vec::new();
        let mut i: usize = 0;
        let ghost mut k: nat = 0;
        proof {
            assert(pairs_view(asts@) =~= Seq::<(Seq<char>, Seq<PatNode>)>::empty());
            assert(pairs_view(not_asts@) =~= Seq::<(Seq<char>, Seq<PatNode>)>::empty());
            assert(groups_view(or_asts@) =~= Seq::<(Seq<char>, Seq<Seq<PatNode>>)>::empty());
            assert(pieces.subrange(0, pieces.len() as int) =~= pieces);
        }
        loop
            invariant_except_break
                0 <= i <= t@.len(),
                k < pieces.len(),
                pieces.subrange(k as int, pieces.len() as int) == split_commas(t@, i as int),
            invariant
                pieces == split_commas(t@, 0),
                t@ == trimmed(s@),
                t@.len() <= 0x4000_0000,
                clauses_ok(pairs_view(asts@), groups_view(or_asts@), pairs_view(not_asts@)),
                clauses_upto(pieces, k) == Ok::<MultiPatternV, MultiParseFail>(
                    MultiPatternV {
                        asts: pairs_view(asts@),
                        or_asts: groups_view(or_asts@),
                        not_asts: pairs_view(not_asts@),
                    },
                ),
            ensures
                k == pieces.len(),
            decreases t@.len() - i + 1,
        {
            let c = next_comma_exec(t.as_slice(), i);
            let piece = slice_range(t.as_slice(), i, c);
            proof {
                lemma_next_comma_bounds(t@, i as int);
                let rest = split_commas(t@, i as int);
                assert(rest.len() >= 1);
                assert(rest[0] == piece@);
                assert(pieces.subrange(k as int, pieces.len() as int)[0] == pieces[k as int]);
                assert(pieces[k as int] == rest[0]);
            }
            let q = trim_chars(piece.as_slice());
            proof {
                crate::pattern::lemma_trimmed_len(piece@);
            }
            if q.len() > 0 {
                match clause_search_exec(q.as_slice()) {
                    None => {
                        proof {
                            assert(q@ == trimmed(pieces[k as int]));
                            assert(clauses_upto(pieces, k + 1) == Err::<MultiPatternV, MultiParseFail>(
                                MultiParseFail::Assignment(q@),
                            ));
                            lemma_clauses_fail_sticks(pieces, k + 1, pieces.len());
                        }
                        return Err(
                            MultiPatternParseError::PatternAssignmentError(
                                crate::subst::string_from_chars(q.as_slice()),
                            ),
                        );
                    },
                    Some((p, e, op, a, b)) => {
                        let vtext = slice_range(q.as_slice(), p, e);
                        proof {
                            lemma_clause_search_found(q@, 0);
                            assert(clause_at(q@, p as int) is Some);
                            assert(q@[p as int] == '?');
                            assert(vtext@[0] == '?');
                        }
                        let v = Var::from_chars(vtext.as_slice());
                        let rhs = slice_range(q.as_slice(), a, b);
                        match PatternAst::from_chars(rhs.as_slice()) {
                            Err(err) => {
                                proof {
                                    lemma_clauses_fail_sticks(pieces, k + 1, pieces.len());
                                }
                                return Err(MultiPatternParseError::PatternParseError(err));
                            },
                            Ok(pat) => {
                                proof {
                                    assert(pat_ok(pat@));
                                }
                                match op {
                                    ClauseOp::NotEq => {
                                        let ghost pre = pairs_view(not_asts@);
                                        let ghost item = (v@, pat@);
                                        not_asts.push((v, pat));
                                        proof {
                                            assert(pairs_view(not_asts@) =~= pre.push(item));
                                            assert forall|j: int| 0 <= j < pairs_view(not_asts@).len() implies pat_ok(
                                                #[trigger] pairs_view(not_asts@)[j].1,
                                            ) by {
                                                if j < pre.len() {
                                                    assert(pairs_view(not_asts@)[j] == pre[j]);
                                                }
                                            }
                                        }
                                    },
                                    ClauseOp::OrEq => {
                                        proof {
                                            lemma_add_alternative_ok(groups_view(or_asts@), v@, pat@);
                                        }
                                        add_alternative_exec(&mut or_asts, v, pat);
                                    },
                                    ClauseOp::Eq => {
                                        let ghost pre = pairs_view(asts@);
                                        let ghost item = (v@, pat@);
                                        asts.push((v, pat));
                                        proof {
                                            assert(pairs_view(asts@) =~= pre.push(item));
                                            assert forall|j: int| 0 <= j < pairs_view(asts@).len() implies pat_ok(
                                                #[trigger] pairs_view(asts@)[j].1,
                                            ) by {
                                                if j < pre.len() {
                                                    assert(pairs_view(asts@)[j] == pre[j]);
                                                }
                                            }
                                        }
                                    },
                                }
                            },
                        }
                    },
                }
            }
            proof {
                k = k + 1;
            }
            if c >= t.len() {
                proof {
                    assert(k == pieces.len());
                }
                break;
            }
            proof {
                let rest = split_commas(t@, i as int);
                assert(rest == seq![piece@] + split_commas(t@, c + 1));
                assert(pieces.subrange(k - 1, pieces.len() as int) == rest);
                assert forall|j: int| 0 <= j < pieces.len() - k implies #[trigger] pieces.subrange(
                    k as int,
                    pieces.len() as int,
                )[j] == split_commas(t@, c + 1)[j] by {
                    assert(pieces.subrange(k - 1, pieces.len() as int)[j + 1] == rest[j + 1]);
                }
                assert(pieces.subrange(k as int, pieces.len() as int) =~= split_commas(
                    t@,
                    c + 1,
                ));
            }
            i = c + 1;
        }
        Ok(MultiPattern::new_with_specials(asts, or_asts, not_asts))
    }
}

/// The first comma at or after `i`, or the end.
fn next_comma_exec(s: &[char], i: usize) -> (r: usize)
    requires
        i <= s@.len(),
    ensures
        r as int == next_comma(s@, i as int),
        i <= r <= s@.len(),
{
    let mut j = i;
    while j < s.len() && s[j] != ','
        invariant
            i <= j <= s@.len(),
            next_comma(s@, j as int) == next_comma(s@, i as int),
        decreases s@.len() - j,
    {
        j = j + 1;
    }
    j
}

} // verus!

verus! {

/// The distinct entries of the first `k` elements of `s`, in order of first
/// occurrence.
pub open spec fn dedup_upto(s: Seq<Seq<char>>, k: nat) -> Seq<Seq<char>>
    decreases k,
{
    if k == 0 {
        Seq::empty()
    } else {
        let d = dedup_upto(s, (k - 1) as nat);
        if d.contains(s[k - 1]) {
            d
        } else {
            d.push(s[k - 1])
        }
    }
}

/// The distinct entries of `s`, in order of first occurrence.
pub open spec fn dedup(s: Seq<Seq<char>>) -> Seq<Seq<char>> {
    dedup_upto(s, s.len())
}

/// The variable leaves of a pattern, in node order, skipping those in
/// `bound`.
pub open spec fn var_leaves_upto(p: Seq<PatNode>, bound: Set<Seq<char>>, k: nat) -> Seq<Seq<char>>
    decreases k,
{
    if k == 0 {
        Seq::empty()
    } else {
        let d = var_leaves_upto(p, bound, (k - 1) as nat);
        match p[k - 1] {
            PatNode::Var { name } => if bound.contains(name) {
                d
            } else {
                d.push(name)
            },
            _ => d,
        }
    }
}

/// The variables a multipattern's search binds, with repeats: for each
/// clause, its variable and then its pattern's variable leaves.
pub open spec fn search_vars_upto(asts: Seq<(Seq<char>, Seq<PatNode>)>, k: nat) -> Seq<Seq<char>>
    decreases k,
{
    if k == 0 {
        Seq::empty()
    } else {
        search_vars_upto(asts, (k - 1) as nat).push(asts[k - 1].0) + var_leaves_upto(
            asts[k - 1].1,
            Set::empty(),
            asts[k - 1].1.len(),
        )
    }
}

/// The clause variables of the first `k` clauses.
pub open spec fn bound_upto(asts: Seq<(Seq<char>, Seq<PatNode>)>, k: nat) -> Set<Seq<char>>
    decreases k,
{
    if k == 0 {
        Set::empty()
    } else {
        bound_upto(asts, (k - 1) as nat).insert(asts[k - 1].0)
    }
}

/// The variables an application of a multipattern needs from the search,
/// with repeats: the variable leaves of each clause's pattern that no
/// earlier clause binds.
pub open spec fn apply_vars_upto(asts: Seq<(Seq<char>, Seq<PatNode>)>, k: nat) -> Seq<Seq<char>>
    decreases k,
{
    if k == 0 {
        Seq::empty()
    } else {
        apply_vars_upto(asts, (k - 1) as nat) + var_leaves_upto(
            asts[k - 1].1,
            bound_upto(asts, (k - 1) as nat),
            asts[k - 1].1.len(),
        )
    }
}

/// Deduplicating one more entry.
pub proof fn lemma_dedup_push(s: Seq<Seq<char>>, x: Seq<char>)
    ensures
        dedup(s.push(x)) == (if dedup(s).contains(x) {
            dedup(s)
        } else {
            dedup(s).push(x)
        }),
{
    assert(s.push(x).subrange(0, s.len() as int) =~= s.subrange(0, s.len() as int));
    lemma_dedup_prefix(s.push(x), s, s.len());
}

/// Deduplication only looks at the prefix it is given.
pub proof fn lemma_dedup_prefix(a: Seq<Seq<char>>, b: Seq<Seq<char>>, k: nat)
    requires
        k <= a.len(),
        k <= b.len(),
        a.subrange(0, k as int) == b.subrange(0, k as int),
    ensures
        dedup_upto(a, k) == dedup_upto(b, k),
    decreases k,
{
    if k > 0 {
        assert(a.subrange(0, k - 1) =~= b.subrange(0, k - 1)) by {
            assert forall|j: int| 0 <= j < k - 1 implies #[trigger] a.subrange(0, k - 1)[j] == b.subrange(
                0,
                k - 1,
            )[j] by {
                assert(a.subrange(0, k as int)[j] == b.subrange(0, k as int)[j]);
            }
        }
        lemma_dedup_prefix(a, b, (k - 1) as nat);
        assert(a.subrange(0, k as int)[k - 1] == b.subrange(0, k as int)[k - 1]);
    }
}

/// Appends the variable leaves of `pat` not in `bound` to `vars` (keeping
/// entries distinct); `seen` tracks the entries with repeats.
fn push_leaves(
    vars: &mut Vec<Var>,
    pat: &PatternAst,
    bound: &Vec<Var>,
    Ghost(seen): Ghost<Seq<Seq<char>>>,
) -> (r: Ghost<Seq<Seq<char>>>)
    requires
        var_texts(old(vars)@) == dedup(seen),
    ensures
        r@ == seen + var_leaves_upto(pat@, var_texts(bound@).to_set(), pat@.len()),
        var_texts(final(vars)@) == dedup(r@),
{
    let nodes = pat.as_ref();
    let ghost bset = var_texts(bound@).to_set();
    let ghost mut cur = seen;
    let mut i: usize = 0;
    proof {
        assert(seen + var_leaves_upto(pat@, bset, 0) =~= seen);
    }
    while i < nodes.len()
        invariant
            0 <= i <= nodes@.len(),
            nodes_view(nodes@) == pat@,
            bset == var_texts(bound@).to_set(),
            cur == seen + var_leaves_upto(pat@, bset, i as nat),
            var_texts(vars@) == dedup(cur),
        decreases nodes@.len() - i,
    {
        proof {
            assert(pat@[i as int] == nodes@[i as int]@);
        }
        match &nodes[i] {
            ENodeOrVar::Var(v) => {
                let is_bound = crate::pattern::contains_var(bound, v);
                proof {
                    assert(is_bound == bset.contains(v@));
                }
                if !is_bound {
                    proof {
                        lemma_dedup_push(cur, v@);
                        assert(seen + var_leaves_upto(pat@, bset, (i + 1) as nat) =~= cur.push(v@));
                        cur = cur.push(v@);
                    }
                    push_new_var(vars, v.clone());
                }
            },
            _ => {},
        }
        i = i + 1;
    }
    Ghost(cur)
}

impl MultiPattern {
    /// The variables that searching this multipattern binds: each clause's
    /// variable and the variable leaves of its pattern, each once, in order
    /// of first occurrence.
    pub fn vars(&self) -> (r: Vec<Var>)
        ensures
            var_texts(r@) == dedup(search_vars_upto(self@.asts, self@.asts.len())),
    {
        let mut vars: Vec<Var> = Vec::new();
        let no_bound: Vec<Var> = Vec::new();
        let ghost mut seen: Seq<Seq<char>> = Seq::empty();
        let mut i: usize = 0;
        proof {
            assert(var_texts(vars@) =~= dedup(seen));
            assert(var_texts(no_bound@).to_set() =~= Set::<Seq<char>>::empty());
        }
        while i < self.asts.len()
            invariant
                0 <= i <= self.asts@.len(),
                var_texts(no_bound@).to_set() == Set::<Seq<char>>::empty(),
                seen == search_vars_upto(self@.asts, i as nat),
                var_texts(vars@) == dedup(seen),
            decreases self.asts@.len() - i,
        {
            let v = self.asts[i].0.clone();
            proof {
                assert(self@.asts[i as int] == (self.asts@[i as int].0@, self.asts@[i as int].1@));
                lemma_dedup_push(seen, v@);
                seen = seen.push(v@);
            }
            push_new_var(&mut vars, v);
            let Ghost(s2) = push_leaves(&mut vars, &self.asts[i].1, &no_bound, Ghost(seen));
            proof {
                seen = s2;
            }
            i = i + 1;
        }
        vars
    }

    /// The variables that applying this multipattern needs from a search:
    /// the variable leaves of each clause's pattern that no earlier clause
    /// binds, each once, in order of first occurrence.
    pub fn applier_vars(&self) -> (r: Vec<Var>)
        ensures
            var_texts(r@) == dedup(apply_vars_upto(self@.asts, self@.asts.len())),
    {
        let mut vars: Vec<Var> = Vec::new();
        let mut bound: Vec<Var> = Vec::new();
        let ghost mut seen: Seq<Seq<char>> = Seq::empty();
        let mut i: usize = 0;
        proof {
            assert(var_texts(vars@) =~= dedup(seen));
            assert(var_texts(bound@).to_set() =~= bound_upto(self@.asts, 0));
        }
        while i < self.asts.len()
            invariant
                0 <= i <= self.asts@.len(),
                var_texts(bound@).to_set() == bound_upto(self@.asts, i as nat),
                seen == apply_vars_upto(self@.asts, i as nat),
                var_texts(vars@) == dedup(seen),
            decreases self.asts@.len() - i,
        {
            proof {
                assert(self@.asts[i as int] == (self.asts@[i as int].0@, self.asts@[i as int].1@));
            }
            let Ghost(s2) = push_leaves(&mut vars, &self.asts[i].1, &bound, Ghost(seen));
            proof {
                seen = s2;
            }
            let bv = self.asts[i].0.clone();
            let ghost b0 = var_texts(bound@);
            let ghost bvv = bv@;
            bound.push(bv);
            proof {
                assert(var_texts(bound@) =~= b0.push(bvv));
                assert(var_texts(bound@).to_set() =~= b0.to_set().insert(bvv)) by {
                    assert forall|x: Seq<char>| var_texts(bound@).to_set().contains(x)
                        <==> b0.to_set().insert(bvv).contains(x) by {
                        if var_texts(bound@).contains(x) && x != bvv {
                            let j = choose|j: int| 0 <= j < var_texts(bound@).len() && var_texts(bound@)[j] == x;
                            assert(j < b0.len());
                            assert(b0[j] == x);
                        }
                        if b0.contains(x) {
                            let j = choose|j: int| 0 <= j < b0.len() && b0[j] == x;
                            assert(var_texts(bound@)[j] == x);
                        }
                        if x == bvv {
                            assert(var_texts(bound@)[b0.len() as int] == x);
                        }
                    }
                }
            }
            i = i + 1;
        }
        vars
    }
}

} // verus!
