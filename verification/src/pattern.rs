//! Patterns: s-expressions over the symbol language whose leaves may be
//! pattern variables, their syntax, and the variables they mention.

use vstd::prelude::*;

use crate::Id;
use crate::subst::{is_var_text, str_chars, string_from_chars, Var, VarParseError};
use crate::machine::Program;

verus! {

/// An e-node of the symbol language: an operator name and child ids.
pub struct SymbolLang {
    pub op: String,
    pub children: Vec<Id>,
}

/// A pattern node as a value: an e-node (operator, children, optional name
/// that binds the matched class) or a pattern variable.
pub enum PatNode {
    ENode { op: Seq<char>, children: Seq<Id>, name: Option<Seq<char>> },
    Var { name: Seq<char> },
}

/// The language of patterns.
pub enum ENodeOrVar {
    /// An e-node, with an optional name that binds the class it matches.
    ENode(SymbolLang, Option<String>),
    /// A pattern variable.
    Var(Var),
}

/// The value of an optional string.
pub open spec fn opt_text(o: Option<String>) -> Option<Seq<char>> {
    match o {
        Some(s) => Some(s@),
        None => None,
    }
}

impl View for ENodeOrVar {
    type V = PatNode;

    open spec fn view(&self) -> PatNode {
        match self {
            ENodeOrVar::ENode(n, name) => PatNode::ENode {
                op: n.op@,
                children: n.children@,
                name: opt_text(*name),
            },
            ENodeOrVar::Var(v) => PatNode::Var { name: v@ },
        }
    }
}

/// The error of building a pattern node from an operator.
#[derive(Debug)]
pub enum ENodeOrVarParseError<E> {
    /// A variable failed to parse.
    BadVar(VarParseError),
    /// A pattern variable stood in operator position (it had children).
    UnexpectedVar(String),
    /// The operator itself failed to parse.
    BadOp(E),
}

/// The outcome of building a pattern node from an operator and children.
pub enum OpOutcome {
    Node(PatNode),
    UnexpectedVar(Seq<char>),
}

/// A pattern node from an operator and its children: an operator with the
/// variable syntax is a variable and may not have children.
pub open spec fn node_from_op(op: Seq<char>, children: Seq<Id>) -> OpOutcome {
    if is_var_text(op) {
        if children.len() == 0 {
            OpOutcome::Node(PatNode::Var { name: op })
        } else {
            OpOutcome::UnexpectedVar(op)
        }
    } else {
        OpOutcome::Node(PatNode::ENode { op, children, name: None })
    }
}

impl ENodeOrVar {
    /// Builds a pattern node from an operator and its children.
    pub fn from_op(op: &str, children: Vec<Id>) -> (r: Result<ENodeOrVar, ENodeOrVarParseError<String>>)
        ensures
            match node_from_op(op@, children@) {
                OpOutcome::Node(n) => r matches Ok(x) && x@ == n,
                OpOutcome::UnexpectedVar(t) => r matches Err(
                    ENodeOrVarParseError::UnexpectedVar(s),
                ) && s@ == t,
            },
    {
        let cs = str_chars(op);
        Self::from_op_chars(cs.as_slice(), children)
    }

    pub(crate) fn from_op_chars(cs: &[char], children: Vec<Id>) -> (r: Result<
        ENodeOrVar,
        ENodeOrVarParseError<String>,
    >)
        ensures
            match node_from_op(cs@, children@) {
                OpOutcome::Node(n) => r matches Ok(x) && x@ == n,
                OpOutcome::UnexpectedVar(t) => r matches Err(
                    ENodeOrVarParseError::UnexpectedVar(s),
                ) && s@ == t,
            },
    {
        if cs.len() >= 2 && cs[0] == '?' {
            if children.len() == 0 {
                Ok(ENodeOrVar::Var(Var::from_chars(cs)))
            } else {
                Err(ENodeOrVarParseError::UnexpectedVar(string_from_chars(cs)))
            }
        } else {
            Ok(ENodeOrVar::ENode(SymbolLang { op: string_from_chars(cs), children }, None))
        }
    }

    /// The text shown for this node's operator: an e-node's operator, or a
    /// variable's name.
    pub fn display_op(&self) -> (r: String)
        ensures
            r@ == (match self@ {
                PatNode::ENode { op, .. } => op,
                PatNode::Var { name } => name,
            }),
    {
        match self {
            ENodeOrVar::ENode(e, _) => e.op.clone(),
            ENodeOrVar::Var(v) => v.to_string(),
        }
    }

    /// The children of this node (none for a variable).
    pub fn children(&self) -> (r: &[Id])
        ensures
            r@ == (match self@ {
                PatNode::ENode { children, .. } => children,
                PatNode::Var { .. } => Seq::<Id>::empty(),
            }),
    {
        match self {
            ENodeOrVar::ENode(e, _) => e.children.as_slice(),
            ENodeOrVar::Var(_) => &[],
        }
    }
}

/// Whether a character is white space (`char::is_whitespace`).
pub open spec fn is_space(c: char) -> bool {
    let u = c as u32;
    ||| (9 <= u && u <= 13)
    ||| u == 32
    ||| u == 0x85
    ||| u == 0xA0
    ||| u == 0x1680
    ||| (0x2000 <= u && u <= 0x200A)
    ||| u == 0x2028
    ||| u == 0x2029
    ||| u == 0x202F
    ||| u == 0x205F
    ||| u == 0x3000
}

/// Whether a character is white space.
pub fn char_is_space(c: char) -> (r: bool)
    ensures
        r == is_space(c),
{
    let u = c as u32;
    (9 <= u && u <= 13) || u == 32 || u == 0x85 || u == 0xA0 || u == 0x1680 || (0x2000 <= u && u
        <= 0x200A) || u == 0x2028 || u == 0x2029 || u == 0x202F || u == 0x205F || u == 0x3000
}

/// The first position at or after `i` that is not white space.
pub open spec fn skip_spaces(s: Seq<char>, i: int) -> int
    decreases s.len() - i,
{
    if 0 <= i < s.len() && is_space(s[i]) {
        skip_spaces(s, i + 1)
    } else {
        i
    }
}

/// Skipping white space moves forward and stays within the text.
pub proof fn lemma_skip_spaces_bounds(s: Seq<char>, i: int)
    requires
        0 <= i <= s.len(),
    ensures
        i <= skip_spaces(s, i) <= s.len(),
    decreases s.len() - i,
{
    if i < s.len() && is_space(s[i]) {
        lemma_skip_spaces_bounds(s, i + 1);
    }
}

/// An atom ends at or after its start and within the text.
pub proof fn lemma_atom_end_bounds(s: Seq<char>, i: int)
    requires
        0 <= i <= s.len(),
    ensures
        i <= atom_end(s, i) <= s.len(),
    decreases s.len() - i,
{
    if i < s.len() && !is_space(s[i]) && s[i] != '(' && s[i] != ')' {
        lemma_atom_end_bounds(s, i + 1);
    }
}

/// The end of the atom that starts at `i`: the first position at or after
/// `i` holding white space or a parenthesis.
pub open spec fn atom_end(s: Seq<char>, i: int) -> int
    decreases s.len() - i,
{
    if 0 <= i < s.len() && !is_space(s[i]) && s[i] != '(' && s[i] != ')' {
        atom_end(s, i + 1)
    } else {
        i
    }
}

/// The text without leading and trailing white space (`str::trim`).
pub open spec fn trimmed(s: Seq<char>) -> Seq<char> {
    let b = skip_spaces(s, 0);
    let e = trim_end(s, s.len() as int);
    if b < e {
        s.subrange(b, e)
    } else {
        Seq::empty()
    }
}

/// The end of the text once trailing white space before `j` is dropped.
pub open spec fn trim_end(s: Seq<char>, j: int) -> int
    decreases j,
{
    if 0 < j <= s.len() && is_space(s[j - 1]) {
        trim_end(s, j - 1)
    } else {
        j
    }
}

/// Why an s-expression failed to parse into a pattern.
pub enum ParseFail {
    /// Unbalanced parentheses, a stray `)`, or text after the expression.
    BadSexp,
    /// The text, or a list, is empty.
    EmptySexp,
    /// A list starts with a list instead of an operator.
    HeadList,
    /// A pattern variable stood in operator position.
    UnexpectedVar(Seq<char>),
}

/// The outcome of parsing part of an s-expression.
pub enum ParseOutcome {
    /// The nodes so far, and the position after what was parsed.
    Done(Seq<PatNode>, int),
    Fail(ParseFail),
}

/// Adds the node for `op` with `kids` to the nodes parsed so far.
pub open spec fn push_node(acc: Seq<PatNode>, op: Seq<char>, kids: Seq<Id>, pos: int) -> ParseOutcome {
    match node_from_op(op, kids) {
        OpOutcome::Node(n) => ParseOutcome::Done(acc.push(n), pos),
        OpOutcome::UnexpectedVar(t) => ParseOutcome::Fail(ParseFail::UnexpectedVar(t)),
    }
}

/// Parses the expression at `i` (which holds no white space), appending its
/// nodes after their children to `acc`; the expression's node comes last.
pub open spec fn parse_expr(s: Seq<char>, i: int, acc: Seq<PatNode>) -> ParseOutcome
    decreases s.len() - i, 0int,
{
    if i < 0 || i >= s.len() || s[i] == ')' {
        ParseOutcome::Fail(ParseFail::BadSexp)
    } else if s[i] == '(' {
        let j = skip_spaces(s, i + 1);
        proof {
            lemma_skip_spaces_bounds(s, i + 1);
        }
        if j >= s.len() {
            ParseOutcome::Fail(ParseFail::BadSexp)
        } else if s[j] == ')' {
            ParseOutcome::Fail(ParseFail::EmptySexp)
        } else if s[j] == '(' {
            ParseOutcome::Fail(ParseFail::HeadList)
        } else {
            let e = atom_end(s, j);
            proof {
                lemma_atom_end_bounds(s, j);
            }
            parse_args(s, e, acc, s.subrange(j, e), Seq::empty())
        }
    } else {
        let e = atom_end(s, i);
        push_node(acc, s.subrange(i, e), Seq::empty(), e)
    }
}

/// Parses the arguments of a list from `i` up to its `)`, then adds the
/// list's node for `op` with the arguments' ids `kids`.
pub open spec fn parse_args(
    s: Seq<char>,
    i: int,
    acc: Seq<PatNode>,
    op: Seq<char>,
    kids: Seq<Id>,
) -> ParseOutcome
    decreases s.len() - i, 1int,
{
    let j = skip_spaces(s, i);
    if i < 0 || i > s.len() || j >= s.len() {
        ParseOutcome::Fail(ParseFail::BadSexp)
    } else if s[j] == ')' {
        push_node(acc, op, kids, j + 1)
    } else {
        proof {
            lemma_skip_spaces_bounds(s, i);
        }
        match parse_expr(s, j, acc) {
            ParseOutcome::Done(acc2, k) => if k <= j || k > s.len() || acc2.len() == 0 {
                ParseOutcome::Fail(ParseFail::BadSexp)
            } else {
                parse_args(s, k, acc2, op, kids.push(Id((acc2.len() - 1) as u32)))
            },
            ParseOutcome::Fail(f) => ParseOutcome::Fail(f),
        }
    }
}

/// Parses a whole pattern: the trimmed text must be exactly one
/// s-expression.
pub open spec fn parse_pattern_text(s: Seq<char>) -> Result<Seq<PatNode>, ParseFail> {
    let t = trimmed(s);
    if t.len() == 0 {
        Err(ParseFail::EmptySexp)
    } else {
        match parse_expr(t, 0, Seq::empty()) {
            ParseOutcome::Done(nodes, k) => if skip_spaces(t, k) == t.len() {
                Ok(nodes)
            } else {
                Err(ParseFail::BadSexp)
            },
            ParseOutcome::Fail(f) => Err(f),
        }
    }
}

/// The children of a pattern node (none for a variable).
pub open spec fn node_kids(n: PatNode) -> Seq<Id> {
    match n {
        PatNode::ENode { children, .. } => children,
        PatNode::Var { .. } => Seq::empty(),
    }
}

/// Every node's children come before it.
pub open spec fn kids_before(nodes: Seq<PatNode>) -> bool {
    forall|i: int, j: int|
        0 <= i < nodes.len() && 0 <= j < node_kids(nodes[i]).len() ==> (#[trigger] node_kids(nodes[i])[j]).0 < i
}

/// The number of nodes in the tree below node `i`, the node included, a
/// node counted each time it is reached.
pub open spec fn tree_size(nodes: Seq<PatNode>, i: int) -> nat
    decreases i, 1int,
{
    if 0 <= i < nodes.len() {
        1 + kids_size(nodes, node_kids(nodes[i]), i)
    } else {
        0
    }
}

/// The tree sizes of the children `ks` that come before `bound`, summed.
pub open spec fn kids_size(nodes: Seq<PatNode>, ks: Seq<Id>, bound: int) -> nat
    decreases bound, 0int, ks.len(),
{
    if ks.len() == 0 {
        0
    } else {
        kids_size(nodes, ks.drop_last(), bound) + if 0 <= ks.last().0 < bound {
            tree_size(nodes, ks.last().0 as int)
        } else {
            0
        }
    }
}

/// The nodes of a parsed pattern: there is at least one, children come
/// before their parents, every node's tree fits in the nodes up to it, and
/// the last node's tree holds them all.
pub open spec fn ast_wf(nodes: Seq<PatNode>) -> bool {
    &&& nodes.len() > 0
    &&& kids_before(nodes)
    &&& forall|j: int| 0 <= j < nodes.len() ==> #[trigger] tree_size(nodes, j) <= j + 1
    &&& tree_size(nodes, nodes.len() - 1) == nodes.len()
    &&& root_covers_vars(nodes)
    &&& tree_enodes(nodes, nodes.len() - 1) == enode_count(nodes)
}

/// The number of e-nodes in the tree below node `i`, each counted every
/// time it is reached.
pub open spec fn tree_enodes(nodes: Seq<PatNode>, i: int) -> nat
    decreases i, 1int,
{
    if 0 <= i < nodes.len() {
        match nodes[i] {
            PatNode::Var { .. } => 0,
            PatNode::ENode { children, .. } => 1 + kids_enodes(nodes, children, i),
        }
    } else {
        0
    }
}

/// The e-nodes in the trees of the children `ks` that come before `bound`.
pub open spec fn kids_enodes(nodes: Seq<PatNode>, ks: Seq<Id>, bound: int) -> nat
    decreases bound, 0int, ks.len(),
{
    if ks.len() == 0 {
        0
    } else {
        kids_enodes(nodes, ks.drop_last(), bound) + if 0 <= ks.last().0 < bound {
            tree_enodes(nodes, ks.last().0 as int)
        } else {
            0
        }
    }
}

/// The number of e-nodes from `lo` up to `hi`.
pub open spec fn block_enodes(nodes: Seq<PatNode>, lo: int, hi: int) -> nat
    decreases hi - lo,
{
    if hi <= lo {
        0
    } else {
        block_enodes(nodes, lo, hi - 1) + if nodes[hi - 1] is ENode {
            1nat
        } else {
            0nat
        }
    }
}

/// The number of e-nodes of a pattern.
pub open spec fn enode_count(nodes: Seq<PatNode>) -> nat {
    block_enodes(nodes, 0, nodes.len() as int)
}

/// Tree e-node counts only look at the nodes up to the one asked about.
pub proof fn lemma_tree_enodes_prefix(a: Seq<PatNode>, b: Seq<PatNode>, j: int)
    requires
        a.len() <= b.len(),
        b.subrange(0, a.len() as int) == a,
        0 <= j < a.len(),
    ensures
        tree_enodes(b, j) == tree_enodes(a, j),
    decreases j, 1int,
{
    assert(b[j] == a[j]);
    lemma_kids_enodes_prefix(a, b, node_kids(a[j]), j);
}

/// Children's e-node counts only look at the nodes before the bound.
pub proof fn lemma_kids_enodes_prefix(a: Seq<PatNode>, b: Seq<PatNode>, ks: Seq<Id>, bound: int)
    requires
        a.len() <= b.len(),
        b.subrange(0, a.len() as int) == a,
        bound <= a.len(),
    ensures
        kids_enodes(b, ks, bound) == kids_enodes(a, ks, bound),
    decreases bound, 0int, ks.len(),
{
    if ks.len() > 0 {
        lemma_kids_enodes_prefix(a, b, ks.drop_last(), bound);
        let c = ks.last().0 as int;
        if 0 <= c < bound {
            lemma_tree_enodes_prefix(a, b, c);
        }
    }
}

/// The bound does not matter when every child comes before both bounds.
pub proof fn lemma_kids_enodes_bound(nodes: Seq<PatNode>, ks: Seq<Id>, b1: int, b2: int)
    requires
        forall|j: int| 0 <= j < ks.len() ==> (#[trigger] ks[j]).0 < b1 && ks[j].0 < b2,
    ensures
        kids_enodes(nodes, ks, b1) == kids_enodes(nodes, ks, b2),
    decreases ks.len(),
{
    if ks.len() > 0 {
        assert(ks.last() == ks[ks.len() - 1]);
        lemma_kids_enodes_bound(nodes, ks.drop_last(), b1, b2);
    }
}

/// Block counts only look at the block.
pub proof fn lemma_block_enodes_prefix(a: Seq<PatNode>, b: Seq<PatNode>, lo: int, hi: int)
    requires
        a.len() <= b.len(),
        b.subrange(0, a.len() as int) == a,
        0 <= lo,
        hi <= a.len(),
    ensures
        block_enodes(b, lo, hi) == block_enodes(a, lo, hi),
    decreases hi - lo,
{
    if hi > lo {
        assert(b[hi - 1] == a[hi - 1]);
        lemma_block_enodes_prefix(a, b, lo, hi - 1);
    }
}

/// Adjacent blocks add up.
pub proof fn lemma_block_enodes_split(nodes: Seq<PatNode>, lo: int, mid: int, hi: int)
    requires
        lo <= mid <= hi,
    ensures
        block_enodes(nodes, lo, hi) == block_enodes(nodes, lo, mid) + block_enodes(nodes, mid, hi),
    decreases hi - mid,
{
    if hi > mid {
        lemma_block_enodes_split(nodes, lo, mid, hi - 1);
    }
}

/// The variables in the tree below node `i`.
pub open spec fn tree_vars(nodes: Seq<PatNode>, i: int) -> Set<Seq<char>>
    decreases i, 1int,
{
    if 0 <= i < nodes.len() {
        match nodes[i] {
            PatNode::Var { name } => set![name],
            PatNode::ENode { children, .. } => kids_vars(nodes, children, i),
        }
    } else {
        Set::empty()
    }
}

/// The variables in the trees of the children `ks` that come before
/// `bound`.
pub open spec fn kids_vars(nodes: Seq<PatNode>, ks: Seq<Id>, bound: int) -> Set<Seq<char>>
    decreases bound, 0int, ks.len(),
{
    if ks.len() == 0 {
        Set::empty()
    } else {
        kids_vars(nodes, ks.drop_last(), bound).union(
            if 0 <= ks.last().0 < bound {
                tree_vars(nodes, ks.last().0 as int)
            } else {
                Set::empty()
            },
        )
    }
}

/// The variables of the variable nodes from `lo` up to `hi`.
pub open spec fn block_vars(nodes: Seq<PatNode>, lo: int, hi: int) -> Set<Seq<char>> {
    Set::new(|v: Seq<char>| exists|x: int| lo <= x < hi && #[trigger] nodes[x] == (PatNode::Var { name: v }))
}

/// Every node of an expression is an e-node.
pub proof fn lemma_expr_enodes(e: Seq<SymbolLang>, k: int)
    requires
        0 <= k <= e.len(),
    ensures
        block_enodes(expr_view(e), 0, k) == k,
    decreases k,
{
    if k > 0 {
        lemma_expr_enodes(e, k - 1);
    }
}

/// The variables of all variable nodes.
pub open spec fn pattern_vars(nodes: Seq<PatNode>) -> Set<Seq<char>> {
    block_vars(nodes, 0, nodes.len() as int)
}

/// The root's tree holds every variable of the pattern.
pub open spec fn root_covers_vars(nodes: Seq<PatNode>) -> bool {
    tree_vars(nodes, nodes.len() - 1) == pattern_vars(nodes)
}

/// Tree variables only look at the nodes up to the one asked about.
pub proof fn lemma_tree_vars_prefix(a: Seq<PatNode>, b: Seq<PatNode>, j: int)
    requires
        a.len() <= b.len(),
        b.subrange(0, a.len() as int) == a,
        0 <= j < a.len(),
    ensures
        tree_vars(b, j) == tree_vars(a, j),
    decreases j, 1int,
{
    assert(b[j] == a[j]);
    lemma_kids_vars_prefix(a, b, node_kids(a[j]), j);
}

/// Children's variables only look at the nodes before the bound.
pub proof fn lemma_kids_vars_prefix(a: Seq<PatNode>, b: Seq<PatNode>, ks: Seq<Id>, bound: int)
    requires
        a.len() <= b.len(),
        b.subrange(0, a.len() as int) == a,
        bound <= a.len(),
    ensures
        kids_vars(b, ks, bound) == kids_vars(a, ks, bound),
    decreases bound, 0int, ks.len(),
{
    if ks.len() > 0 {
        lemma_kids_vars_prefix(a, b, ks.drop_last(), bound);
        let c = ks.last().0 as int;
        if 0 <= c < bound {
            lemma_tree_vars_prefix(a, b, c);
        }
    }
}

/// The bound does not matter when every child comes before both bounds.
pub proof fn lemma_kids_vars_bound(nodes: Seq<PatNode>, ks: Seq<Id>, b1: int, b2: int)
    requires
        forall|j: int| 0 <= j < ks.len() ==> (#[trigger] ks[j]).0 < b1 && ks[j].0 < b2,
    ensures
        kids_vars(nodes, ks, b1) == kids_vars(nodes, ks, b2),
    decreases ks.len(),
{
    if ks.len() > 0 {
        assert(ks.last() == ks[ks.len() - 1]);
        lemma_kids_vars_bound(nodes, ks.drop_last(), b1, b2);
    }
}

/// Tree sizes only look at the nodes up to the one asked about.
pub proof fn lemma_tree_size_prefix(a: Seq<PatNode>, b: Seq<PatNode>, j: int)
    requires
        a.len() <= b.len(),
        b.subrange(0, a.len() as int) == a,
        0 <= j < a.len(),
    ensures
        tree_size(b, j) == tree_size(a, j),
    decreases j, 1int,
{
    assert(b[j] == a[j]);
    lemma_kids_size_prefix(a, b, node_kids(a[j]), j);
}

/// Summed tree sizes only look at the nodes before the bound.
pub proof fn lemma_kids_size_prefix(a: Seq<PatNode>, b: Seq<PatNode>, ks: Seq<Id>, bound: int)
    requires
        a.len() <= b.len(),
        b.subrange(0, a.len() as int) == a,
        bound <= a.len(),
    ensures
        kids_size(b, ks, bound) == kids_size(a, ks, bound),
    decreases bound, 0int, ks.len(),
{
    if ks.len() > 0 {
        lemma_kids_size_prefix(a, b, ks.drop_last(), bound);
        let c = ks.last().0 as int;
        if 0 <= c < bound {
            lemma_tree_size_prefix(a, b, c);
        }
    }
}

/// The bound does not matter when every child comes before both bounds.
pub proof fn lemma_kids_size_bound(nodes: Seq<PatNode>, ks: Seq<Id>, b1: int, b2: int)
    requires
        forall|j: int| 0 <= j < ks.len() ==> (#[trigger] ks[j]).0 < b1 && ks[j].0 < b2,
    ensures
        kids_size(nodes, ks, b1) == kids_size(nodes, ks, b2),
    decreases ks.len(),
{
    if ks.len() > 0 {
        assert(ks.last() == ks[ks.len() - 1]);
        lemma_kids_size_bound(nodes, ks.drop_last(), b1, b2);
    }
}

/// Past the spaces skipped there is no space.
pub proof fn lemma_skip_spaces_stops(s: Seq<char>, i: int)
    requires
        0 <= i <= s.len(),
        skip_spaces(s, i) < s.len(),
    ensures
        !is_space(s[skip_spaces(s, i)]),
    decreases s.len() - i,
{
    if i < s.len() && is_space(s[i]) {
        lemma_skip_spaces_stops(s, i + 1);
    }
}

/// Parsing an expression appends a block of nodes, at most one per
/// character read, whose last node's tree is the whole block.
pub proof fn lemma_parse_expr_tree(s: Seq<char>, i: int, acc: Seq<PatNode>)
    requires
        0 <= i < s.len() <= 0x1_0000_0000,
        s[i] == '(' || !is_space(s[i]),
        acc.len() <= i,
        kids_before(acc),
    ensures
        parse_expr(s, i, acc) matches ParseOutcome::Done(acc2, k) ==> {
            &&& acc.len() < acc2.len()
            &&& acc2.subrange(0, acc.len() as int) == acc
            &&& acc2.len() - acc.len() <= k - i
            &&& k <= s.len()
            &&& kids_before(acc2)
            &&& tree_size(acc2, acc2.len() - 1) == acc2.len() - acc.len()
            &&& forall|j: int| acc.len() <= j < acc2.len() ==> #[trigger] tree_size(acc2, j) <= j - acc.len() + 1
            &&& tree_vars(acc2, acc2.len() - 1) == block_vars(acc2, acc.len() as int, acc2.len() as int)
            &&& tree_enodes(acc2, acc2.len() - 1) == block_enodes(acc2, acc.len() as int, acc2.len() as int)
        },
    decreases s.len() - i, 0int,
{
    if s[i] == ')' {
    } else if s[i] == '(' {
        let j = skip_spaces(s, i + 1);
        lemma_skip_spaces_bounds(s, i + 1);
        if j < s.len() && s[j] != ')' && s[j] != '(' {
            let e = atom_end(s, j);
            lemma_skip_spaces_stops(s, i + 1);
            lemma_atom_end_bounds(s, j + 1);
            assert(e == atom_end(s, j + 1));
            assert(block_vars(acc, acc.len() as int, acc.len() as int) =~= Set::<Seq<char>>::empty());
            lemma_parse_args_tree(s, e, acc, s.subrange(j, e), Seq::empty(), acc.len() as int);
        }
    } else {
        let e = atom_end(s, i);
        lemma_atom_end_bounds(s, i + 1);
        assert(e == atom_end(s, i + 1));
        assert(block_vars(acc, acc.len() as int, acc.len() as int) =~= Set::<Seq<char>>::empty());
        lemma_push_node_tree(acc, s.subrange(i, e), Seq::empty(), e, acc.len() as int);
    }
}

/// Adding a list's node closes its block.
proof fn lemma_push_node_tree(acc: Seq<PatNode>, op: Seq<char>, kids: Seq<Id>, pos: int, base: int)
    requires
        0 <= base <= acc.len(),
        kids_before(acc),
        forall|j: int| 0 <= j < kids.len() ==> base <= (#[trigger] kids[j]).0 < acc.len(),
        kids_size(acc, kids, acc.len() as int) == acc.len() - base,
        forall|j: int| base <= j < acc.len() ==> #[trigger] tree_size(acc, j) <= j - base + 1,
        kids_vars(acc, kids, acc.len() as int) == block_vars(acc, base, acc.len() as int),
        kids_enodes(acc, kids, acc.len() as int) == block_enodes(acc, base, acc.len() as int),
    ensures
        push_node(acc, op, kids, pos) matches ParseOutcome::Done(acc2, k) ==> {
            &&& acc2.len() == acc.len() + 1
            &&& k == pos
            &&& acc2.subrange(0, acc.len() as int) == acc
            &&& kids_before(acc2)
            &&& tree_size(acc2, acc2.len() - 1) == acc2.len() - base
            &&& forall|j: int| base <= j < acc2.len() ==> #[trigger] tree_size(acc2, j) <= j - base + 1
            &&& tree_vars(acc2, acc2.len() - 1) == block_vars(acc2, base, acc2.len() as int)
            &&& tree_enodes(acc2, acc2.len() - 1) == block_enodes(acc2, base, acc2.len() as int)
        },
{
    match node_from_op(op, kids) {
        OpOutcome::Node(n) => {
            let acc2 = acc.push(n);
            let m = acc.len() as int;
            assert(acc2.subrange(0, m) =~= acc);
            assert(node_kids(n) == (if is_var_text(op) { Seq::<Id>::empty() } else { kids }));
            assert(kids_before(acc2)) by {
                assert forall|i: int, j: int|
                    0 <= i < acc2.len() && 0 <= j < node_kids(acc2[i]).len() implies (#[trigger] node_kids(
                        acc2[i],
                    )[j]).0 < i by {
                    if i < m {
                        assert(acc2[i] == acc[i]);
                    } else {
                        assert(node_kids(acc2[i])[j] == kids[j]);
                    }
                }
            }
            lemma_kids_size_prefix(acc, acc2, node_kids(n), m);
            if is_var_text(op) {
                assert(kids.len() == 0);
                assert(kids_size(acc, kids, m) == 0);
            }
            assert(tree_size(acc2, m) == 1 + kids_size(acc2, node_kids(n), m));
            assert forall|j: int| base <= j < acc2.len() implies #[trigger] tree_size(acc2, j) <= j - base + 1 by {
                if j < m {
                    lemma_tree_size_prefix(acc, acc2, j);
                }
            }
            lemma_kids_enodes_prefix(acc, acc2, node_kids(n), m);
            lemma_block_enodes_prefix(acc, acc2, base, m);
            if is_var_text(op) {
                assert(kids_enodes(acc, kids, m) == 0);
            }
            assert(tree_enodes(acc2, m) == block_enodes(acc2, base, acc2.len() as int));
            lemma_kids_vars_prefix(acc, acc2, node_kids(n), m);
            assert(tree_vars(acc2, m) =~= block_vars(acc2, base, acc2.len() as int)) by {
                assert forall|v: Seq<char>| #[trigger] block_vars(acc2, base, m).contains(v) == block_vars(acc, base, m).contains(v) by {
                    if block_vars(acc2, base, m).contains(v) {
                        let x = choose|x: int| base <= x < m && #[trigger] acc2[x] == (PatNode::Var { name: v });
                        assert(acc[x] == acc2[x]);
                    }
                    if block_vars(acc, base, m).contains(v) {
                        let x = choose|x: int| base <= x < m && #[trigger] acc[x] == (PatNode::Var { name: v });
                        assert(acc[x] == acc2[x]);
                    }
                }
                if is_var_text(op) {
                    assert(base == m);
                    assert(acc2[m] == (PatNode::Var { name: op }));
                    assert forall|v: Seq<char>| #[trigger] block_vars(acc2, base, acc2.len() as int).contains(v) == (v == op) by {
                        if block_vars(acc2, base, acc2.len() as int).contains(v) {
                            let x = choose|x: int| base <= x < acc2.len() && #[trigger] acc2[x] == (PatNode::Var { name: v });
                            assert(x == m);
                        }
                    }
                } else {
                    assert forall|v: Seq<char>| #[trigger] block_vars(acc2, base, acc2.len() as int).contains(v) == block_vars(acc2, base, m).contains(v) by {
                        if block_vars(acc2, base, acc2.len() as int).contains(v) {
                            let x = choose|x: int| base <= x < acc2.len() && #[trigger] acc2[x] == (PatNode::Var { name: v });
                            assert(x != m);
                        }
                    }
                }
            }
        },
        OpOutcome::UnexpectedVar(_) => {},
    }
}

/// Parsing a list's arguments appends their blocks and closes the list's
/// block with its node.
pub proof fn lemma_parse_args_tree(s: Seq<char>, i: int, acc: Seq<PatNode>, op: Seq<char>, kids: Seq<Id>, base: int)
    requires
        0 <= i <= s.len() <= 0x1_0000_0000,
        0 <= base <= acc.len() <= i,
        kids_before(acc),
        forall|j: int| 0 <= j < kids.len() ==> base <= (#[trigger] kids[j]).0 < acc.len(),
        kids_size(acc, kids, acc.len() as int) == acc.len() - base,
        forall|j: int| base <= j < acc.len() ==> #[trigger] tree_size(acc, j) <= j - base + 1,
        kids_vars(acc, kids, acc.len() as int) == block_vars(acc, base, acc.len() as int),
        kids_enodes(acc, kids, acc.len() as int) == block_enodes(acc, base, acc.len() as int),
    ensures
        parse_args(s, i, acc, op, kids) matches ParseOutcome::Done(acc2, k) ==> {
            &&& acc.len() < acc2.len()
            &&& acc2.subrange(0, acc.len() as int) == acc
            &&& acc2.len() - acc.len() <= k - i
            &&& k <= s.len()
            &&& kids_before(acc2)
            &&& tree_size(acc2, acc2.len() - 1) == acc2.len() - base
            &&& forall|j: int| base <= j < acc2.len() ==> #[trigger] tree_size(acc2, j) <= j - base + 1
            &&& tree_vars(acc2, acc2.len() - 1) == block_vars(acc2, base, acc2.len() as int)
            &&& tree_enodes(acc2, acc2.len() - 1) == block_enodes(acc2, base, acc2.len() as int)
        },
    decreases s.len() - i, 1int,
{
    let j = skip_spaces(s, i);
    lemma_skip_spaces_bounds(s, i);
    if j < s.len() {
        if s[j] == ')' {
            lemma_push_node_tree(acc, op, kids, j + 1, base);
        } else {
            lemma_skip_spaces_stops(s, i);
            lemma_parse_expr_tree(s, j, acc);
            match parse_expr(s, j, acc) {
                ParseOutcome::Done(acc2, k) => {
                    if k > j && k <= s.len() && acc2.len() > 0 {
                        let c = acc2.len() - 1;
                        let kids2 = kids.push(Id(c as u32));
                        assert(kids2.last().0 == c);
                        assert(kids2.drop_last() =~= kids);
                        assert forall|t: int| 0 <= t < kids2.len() implies base <= (#[trigger] kids2[t]).0 < acc2.len() by {
                            if t < kids.len() {
                                assert(kids2[t] == kids[t]);
                            }
                        }
                        lemma_kids_size_prefix(acc, acc2, kids, acc.len() as int);
                        lemma_kids_size_bound(acc2, kids, acc.len() as int, acc2.len() as int);
                        assert(kids_size(acc2, kids2, acc2.len() as int) == kids_size(acc2, kids, acc2.len() as int)
                            + tree_size(acc2, c));
                        assert forall|t: int| base <= t < acc2.len() implies #[trigger] tree_size(acc2, t) <= t - base + 1 by {
                            if t < acc.len() {
                                lemma_tree_size_prefix(acc, acc2, t);
                            }
                        }
                        lemma_kids_enodes_prefix(acc, acc2, kids, acc.len() as int);
                        lemma_kids_enodes_bound(acc2, kids, acc.len() as int, acc2.len() as int);
                        lemma_block_enodes_prefix(acc, acc2, base, acc.len() as int);
                        lemma_block_enodes_split(acc2, base, acc.len() as int, acc2.len() as int);
                        assert(kids_enodes(acc2, kids2, acc2.len() as int) == kids_enodes(acc2, kids, acc2.len() as int)
                            + tree_enodes(acc2, c));
                        lemma_kids_vars_prefix(acc, acc2, kids, acc.len() as int);
                        lemma_kids_vars_bound(acc2, kids, acc.len() as int, acc2.len() as int);
                        assert(kids_vars(acc2, kids2, acc2.len() as int) =~= block_vars(acc2, base, acc2.len() as int)) by {
                            assert(kids_vars(acc2, kids2, acc2.len() as int) == kids_vars(acc2, kids, acc2.len() as int).union(
                                tree_vars(acc2, c),
                            ));
                            let m = acc.len() as int;
                            assert forall|v: Seq<char>| #[trigger] block_vars(acc2, base, m).contains(v) == block_vars(acc, base, m).contains(v) by {
                                if block_vars(acc2, base, m).contains(v) {
                                    let x = choose|x: int| base <= x < m && #[trigger] acc2[x] == (PatNode::Var { name: v });
                                    assert(acc[x] == acc2[x]);
                                }
                                if block_vars(acc, base, m).contains(v) {
                                    let x = choose|x: int| base <= x < m && #[trigger] acc[x] == (PatNode::Var { name: v });
                                    assert(acc[x] == acc2[x]);
                                }
                            }
                            assert forall|v: Seq<char>| #[trigger] block_vars(acc2, base, acc2.len() as int).contains(v) == (block_vars(acc2, base, m).contains(v) || block_vars(acc2, m, acc2.len() as int).contains(v)) by {
                                if block_vars(acc2, base, acc2.len() as int).contains(v) {
                                    let x = choose|x: int| base <= x < acc2.len() && #[trigger] acc2[x] == (PatNode::Var { name: v });
                                    if x < m {
                                        assert(block_vars(acc2, base, m).contains(v));
                                    } else {
                                        assert(block_vars(acc2, m, acc2.len() as int).contains(v));
                                    }
                                }
                                if block_vars(acc2, base, m).contains(v) {
                                    let x = choose|x: int| base <= x < m && #[trigger] acc2[x] == (PatNode::Var { name: v });
                                    assert(block_vars(acc2, base, acc2.len() as int).contains(v));
                                }
                                if block_vars(acc2, m, acc2.len() as int).contains(v) {
                                    let x = choose|x: int| m <= x < acc2.len() && #[trigger] acc2[x] == (PatNode::Var { name: v });
                                    assert(block_vars(acc2, base, acc2.len() as int).contains(v));
                                }
                            }
                        }
                        lemma_parse_args_tree(s, k, acc2, op, kids2, base);
                        match parse_args(s, k, acc2, op, kids2) {
                            ParseOutcome::Done(acc3, k3) => {
                                assert(acc3.subrange(0, acc.len() as int) =~= acc2.subrange(0, acc.len() as int));
                            },
                            ParseOutcome::Fail(_) => {},
                        }
                    }
                },
                ParseOutcome::Fail(_) => {},
            }
        }
    }
}

/// A parsed pattern's nodes are well formed.
pub proof fn lemma_parsed_pattern_wf(s: Seq<char>)
    requires
        s.len() <= 0x1_0000_0000,
    ensures
        parse_pattern_text(s) matches Ok(nodes) ==> ast_wf(nodes) && nodes.len() <= s.len(),
{
    let t = trimmed(s);
    let b = skip_spaces(s, 0);
    let e = trim_end(s, s.len() as int);
    lemma_skip_spaces_bounds(s, 0);
    if t.len() > 0 {
        assert(b < e);
        lemma_trim_end_bounds(s, s.len() as int);
        lemma_skip_spaces_stops(s, 0);
        assert(t[0] == s[b]);
        assert(kids_before(Seq::<PatNode>::empty()));
        lemma_parse_expr_tree(t, 0, Seq::empty());
        match parse_expr(t, 0, Seq::empty()) {
            ParseOutcome::Done(nodes, k) => {
                assert forall|j: int| 0 <= j < nodes.len() implies #[trigger] tree_size(nodes, j) <= j + 1 by {
                }
            },
            ParseOutcome::Fail(_) => {},
        }
    }
}

/// Trimming keeps at most the text.
pub proof fn lemma_trimmed_len(s: Seq<char>)
    ensures
        trimmed(s).len() <= s.len(),
{
    lemma_skip_spaces_bounds(s, 0);
    lemma_trim_end_bounds(s, s.len() as int);
}

/// Trimming the end stays within the text.
pub proof fn lemma_trim_end_bounds(s: Seq<char>, j: int)
    requires
        0 <= j <= s.len(),
    ensures
        0 <= trim_end(s, j) <= j,
    decreases j,
{
    if 0 < j && is_space(s[j - 1]) {
        lemma_trim_end_bounds(s, j - 1);
    }
}

/// The error of parsing an s-expression into a recursive expression.
#[derive(Debug)]
pub enum RecExprParseError<E> {
    /// The text is not a single well-formed s-expression.
    BadSexp(String),
    /// The text, or a list in it, is empty.
    EmptySexp,
    /// A list starts with a list instead of an operator.
    HeadList,
    /// A node failed to build from its operator.
    BadOp(E),
}

/// What a parse error stands for.
pub open spec fn fail_of(e: RecExprParseError<ENodeOrVarParseError<String>>) -> ParseFail {
    match e {
        RecExprParseError::BadSexp(_) => ParseFail::BadSexp,
        RecExprParseError::EmptySexp => ParseFail::EmptySexp,
        RecExprParseError::HeadList => ParseFail::HeadList,
        RecExprParseError::BadOp(ENodeOrVarParseError::UnexpectedVar(t)) => ParseFail::UnexpectedVar(
            t@,
        ),
        RecExprParseError::BadOp(_) => ParseFail::BadSexp,
    }
}

/// The values of a list of pattern nodes.
pub open spec fn nodes_view(v: Seq<ENodeOrVar>) -> Seq<PatNode> {
    v.map_values(|n: ENodeOrVar| n@)
}

fn bad_sexp() -> (r: RecExprParseError<ENodeOrVarParseError<String>>)
    ensures
        fail_of(r) == ParseFail::BadSexp,
{
    RecExprParseError::BadSexp(String::new())
}

/// The first non-space position at or after `i`.
fn skip_spaces_exec(s: &[char], i: usize) -> (r: usize)
    requires
        i <= s@.len(),
    ensures
        r as int == skip_spaces(s@, i as int),
        i <= r <= s@.len(),
{
    let mut j = i;
    while j < s.len() && char_is_space(s[j])
        invariant
            i <= j <= s@.len(),
            skip_spaces(s@, j as int) == skip_spaces(s@, i as int),
        decreases s@.len() - j,
    {
        j = j + 1;
    }
    j
}

/// The end of the atom starting at `i`.
fn atom_end_exec(s: &[char], i: usize) -> (r: usize)
    requires
        i <= s@.len(),
    ensures
        r as int == atom_end(s@, i as int),
        i <= r <= s@.len(),
{
    let mut j = i;
    while j < s.len() && !char_is_space(s[j]) && s[j] != '(' && s[j] != ')'
        invariant
            i <= j <= s@.len(),
            atom_end(s@, j as int) == atom_end(s@, i as int),
        decreases s@.len() - j,
    {
        j = j + 1;
    }
    j
}

/// Appends the node for `op` with `kids`.
fn push_node_exec(acc: &mut Vec<ENodeOrVar>, op: &[char], kids: Vec<Id>) -> (r: Result<
    (),
    RecExprParseError<ENodeOrVarParseError<String>>,
>)
    ensures
        match push_node(nodes_view(old(acc)@), op@, kids@, 0) {
            ParseOutcome::Done(a, _) => r is Ok && nodes_view(final(acc)@) == a,
            ParseOutcome::Fail(f) => r matches Err(e) && fail_of(e) == f,
        },
{
    match ENodeOrVar::from_op_chars(op, kids) {
        Ok(n) => {
            let ghost nv = n@;
            acc.push(n);
            proof {
                assert(nodes_view(acc@) =~= nodes_view(old(acc)@).push(nv));
            }
            Ok(())
        },
        Err(e) => Err(RecExprParseError::BadOp(e)),
    }
}

/// Parses the expression at `i`, appending its nodes; returns the position
/// after it.
fn parse_expr_exec(s: &[char], i: usize, acc: &mut Vec<ENodeOrVar>) -> (r: Result<
    usize,
    RecExprParseError<ENodeOrVarParseError<String>>,
>)
    requires
        i <= s@.len(),
    ensures
        match parse_expr(s@, i as int, nodes_view(old(acc)@)) {
            ParseOutcome::Done(a, k) => r matches Ok(x) && x as int == k && nodes_view(final(acc)@)
                == a,
            ParseOutcome::Fail(f) => r matches Err(e) && fail_of(e) == f,
        },
        r matches Ok(x) ==> i <= x <= s@.len(),
    decreases s@.len() - i, 0int,
{
    if i >= s.len() || s[i] == ')' {
        return Err(bad_sexp());
    }
    if s[i] == '(' {
        let j = skip_spaces_exec(s, i + 1);
        if j >= s.len() {
            return Err(bad_sexp());
        }
        if s[j] == ')' {
            return Err(RecExprParseError::EmptySexp);
        }
        if s[j] == '(' {
            return Err(RecExprParseError::HeadList);
        }
        let e = atom_end_exec(s, j);
        let op = slice_range(s, j, e);
        parse_args_exec(s, e, acc, op.as_slice(), Vec::new())
    } else {
        let e = atom_end_exec(s, i);
        let op = slice_range(s, i, e);
        match push_node_exec(acc, op.as_slice(), Vec::new()) {
            Ok(()) => Ok(e),
            Err(err) => Err(err),
        }
    }
}

/// Parses list arguments from `i` to the closing `)`, then appends the
/// list's node.
fn parse_args_exec(
    s: &[char],
    i: usize,
    acc: &mut Vec<ENodeOrVar>,
    op: &[char],
    kids: Vec<Id>,
) -> (r: Result<usize, RecExprParseError<ENodeOrVarParseError<String>>>)
    requires
        i <= s@.len(),
    ensures
        match parse_args(s@, i as int, nodes_view(old(acc)@), op@, kids@) {
            ParseOutcome::Done(a, k) => r matches Ok(x) && x as int == k && nodes_view(final(acc)@)
                == a,
            ParseOutcome::Fail(f) => r matches Err(e) && fail_of(e) == f,
        },
        r matches Ok(x) ==> i < x <= s@.len(),
    decreases s@.len() - i, 1int,
{
    let j = skip_spaces_exec(s, i);
    if j >= s.len() {
        return Err(bad_sexp());
    }
    if s[j] == ')' {
        return match push_node_exec(acc, op, kids) {
            Ok(()) => Ok(j + 1),
            Err(err) => Err(err),
        };
    }
    match parse_expr_exec(s, j, acc) {
        Ok(k) => {
            if k <= j || k > s.len() || acc.len() == 0 {
                return Err(bad_sexp());
            }
            let mut kids = kids;
            kids.push(Id((acc.len() - 1) as u32));
            parse_args_exec(s, k, acc, op, kids)
        },
        Err(err) => Err(err),
    }
}

/// A copy of `s[from..to]`.
pub(crate) fn slice_range(s: &[char], from: usize, to: usize) -> (r: Vec<char>)
    requires
        from <= to <= s@.len(),
    ensures
        r@ == s@.subrange(from as int, to as int),
{
    let mut r: Vec<char> = Vec::new();
    let mut k = from;
    while k < to
        invariant
            from <= k <= to,
            to <= s@.len(),
            r@ == s@.subrange(from as int, k as int),
        decreases to - k,
    {
        r.push(s[k]);
        k = k + 1;
    }
    r
}

/// The trimmed characters of `s`.
pub(crate) fn trim_chars(s: &[char]) -> (r: Vec<char>)
    ensures
        r@ == trimmed(s@),
{
    let b = skip_spaces_exec(s, 0);
    let mut e = s.len();
    while e > 0 && char_is_space(s[e - 1])
        invariant
            e <= s@.len(),
            trim_end(s@, e as int) == trim_end(s@, s@.len() as int),
        decreases e,
    {
        e = e - 1;
    }
    if b < e {
        slice_range(s, b, e)
    } else {
        Vec::new()
    }
}

/// A pattern's nodes: each node's children come before it, and the root is
/// the last node.
pub struct PatternAst {
    nodes: Vec<ENodeOrVar>,
}

impl View for PatternAst {
    type V = Seq<PatNode>;

    closed spec fn view(&self) -> Seq<PatNode> {
        nodes_view(self.nodes@)
    }
}

impl PatternAst {
    /// Parses a pattern from an s-expression.
    pub fn from_str(s: &str) -> (r: Result<PatternAst, RecExprParseError<ENodeOrVarParseError<String>>>)
        ensures
            match parse_pattern_text(s@) {
                Ok(nodes) => r matches Ok(p) && p@ == nodes,
                Err(f) => r matches Err(e) && fail_of(e) == f,
            },
            s@.len() <= 0x1_0000_0000 ==> (r matches Ok(p) ==> ast_wf(p@) && p@.len() <= s@.len()),
    {
        let all = str_chars(s);
        proof {
            if s@.len() <= 0x1_0000_0000 {
                lemma_parsed_pattern_wf(s@);
            }
        }
        Self::from_chars(all.as_slice())
    }

    /// Parses a pattern from the characters of an s-expression.
    pub(crate) fn from_chars(all: &[char]) -> (r: Result<PatternAst, RecExprParseError<ENodeOrVarParseError<String>>>)
        ensures
            match parse_pattern_text(all@) {
                Ok(nodes) => r matches Ok(p) && p@ == nodes,
                Err(f) => r matches Err(e) && fail_of(e) == f,
            },
            all@.len() <= 0x1_0000_0000 ==> (r matches Ok(p) ==> ast_wf(p@) && p@.len() <= all@.len()),
    {
        proof {
            if all@.len() <= 0x1_0000_0000 {
                lemma_parsed_pattern_wf(all@);
            }
        }
        let t = trim_chars(all);
        if t.len() == 0 {
            return Err(RecExprParseError::EmptySexp);
        }
        let mut acc: Vec<ENodeOrVar> = Vec::new();
        proof {
            assert(nodes_view(acc@) =~= Seq::<PatNode>::empty());
        }
        match parse_expr_exec(t.as_slice(), 0, &mut acc) {
            Ok(k) => {
                let k2 = skip_spaces_exec(t.as_slice(), k);
                if k2 == t.len() {
                    Ok(PatternAst { nodes: acc })
                } else {
                    Err(bad_sexp())
                }
            },
            Err(e) => Err(e),
        }
    }

    /// The nodes of this pattern.
    pub fn as_ref(&self) -> (r: &[ENodeOrVar])
        ensures
            nodes_view(r@) == self@,
    {
        self.nodes.as_slice()
    }
}

} // verus!

verus! {

/// The variable a pattern node binds, if any: a variable's own name, or the
/// name given to an e-node.
pub open spec fn node_var_name(n: PatNode) -> Option<Seq<char>> {
    match n {
        PatNode::ENode { name, .. } => name,
        PatNode::Var { name } => Some(name),
    }
}

/// The distinct variables bound by the first `k` nodes, in order of first
/// occurrence.
pub open spec fn vars_upto(nodes: Seq<PatNode>, k: nat) -> Seq<Seq<char>>
    decreases k,
{
    if k == 0 {
        Seq::empty()
    } else {
        let d = vars_upto(nodes, (k - 1) as nat);
        match node_var_name(nodes[k - 1]) {
            Some(v) => if d.contains(v) {
                d
            } else {
                d.push(v)
            },
            None => d,
        }
    }
}

/// Every name given to an e-node is variable syntax.
pub open spec fn names_are_vars(nodes: Seq<PatNode>) -> bool {
    forall|i: int|
        0 <= i < nodes.len() ==> (#[trigger] node_var_name(nodes[i]) matches Some(v) ==> is_var_text(
            v,
        ))
}

/// The texts of a list of variables.
pub open spec fn var_texts(v: Seq<Var>) -> Seq<Seq<char>> {
    v.map_values(|x: Var| x@)
}

/// Whether `v` is among `vars`.
pub(crate) fn contains_var(vars: &Vec<Var>, v: &Var) -> (r: bool)
    ensures
        r == var_texts(vars@).contains(v@),
{
    let mut i: usize = 0;
    while i < vars.len()
        invariant
            0 <= i <= vars@.len(),
            forall|j: int| 0 <= j < i ==> var_texts(vars@)[j] != v@,
        decreases vars@.len() - i,
    {
        if vars[i].same(v) {
            proof {
                assert(var_texts(vars@)[i as int] == v@);
            }
            return true;
        }
        i = i + 1;
    }
    proof {
        if var_texts(vars@).contains(v@) {
            let j = choose|j: int| 0 <= j < var_texts(vars@).len() && var_texts(vars@)[j] == v@;
            assert(var_texts(vars@)[j] != v@);
        }
    }
    false
}

/// Appends `v` unless it is already present.
pub(crate) fn push_new_var(vars: &mut Vec<Var>, v: Var)
    ensures
        var_texts(final(vars)@) == (if var_texts(old(vars)@).contains(v@) {
            var_texts(old(vars)@)
        } else {
            var_texts(old(vars)@).push(v@)
        }),
{
    if !contains_var(vars, &v) {
        let ghost t = v@;
        vars.push(v);
        proof {
            assert(var_texts(vars@) =~= var_texts(old(vars)@).push(t));
        }
    }
}

/// An expression's e-nodes as pattern nodes.
pub open spec fn expr_view(e: Seq<SymbolLang>) -> Seq<PatNode> {
    e.map_values(|n: SymbolLang| PatNode::ENode { op: n.op@, children: n.children@, name: None })
}

/// Pattern nodes with the names of e-nodes dropped.
pub open spec fn unnamed(nodes: Seq<PatNode>) -> Seq<PatNode> {
    nodes.map_values(
        |n: PatNode|
            match n {
                PatNode::ENode { op, children, .. } => PatNode::ENode { op, children, name: None },
                PatNode::Var { name } => PatNode::Var { name },
            },
    )
}

/// The variable of the first variable node at or after `i`, if any.
pub open spec fn first_var(nodes: Seq<PatNode>, i: int) -> Option<Seq<char>>
    decreases nodes.len() - i,
{
    if i < 0 || i >= nodes.len() {
        None
    } else {
        match nodes[i] {
            PatNode::Var { name } => Some(name),
            PatNode::ENode { .. } => first_var(nodes, i + 1),
        }
    }
}

/// A pattern: an expression whose leaves may be variables.
pub struct Pattern {
    /// The pattern's nodes.
    pub ast: PatternAst,
    program: Program,
}

impl Pattern {
    /// The compiled program of this pattern.
    pub closed spec fn program_spec(&self) -> Program {
        self.program
    }

    /// The nodes of this pattern.
    pub closed spec fn nodes(&self) -> Seq<PatNode> {
        self.ast@
    }

    /// A pattern from its nodes, compiled for matching.
    pub fn from_ast(ast: PatternAst) -> (r: Pattern)
        requires
            ast_wf(ast@),
            ast@.len() <= 0x4000_0000,
        ensures
            r.nodes() == ast@,
            r.program_spec().var_regs().map_values(|p: (Seq<char>, Id)| p.0).to_set() == pattern_vars(ast@),
            crate::machine::bind_count(r.program_spec().instructions_spec()) == enode_count(ast@),
            crate::machine::compare_count(r.program_spec().instructions_spec()) + pattern_vars(ast@).len()
                + enode_count(ast@) == ast@.len(),
    {
        let program = Program::compile_from_pat(&ast);
        Pattern { ast, program }
    }

    /// A pattern whose nodes are the e-nodes of an expression (children
    /// before parents, the root last), compiled for matching.
    pub fn from_expr(expr: &[SymbolLang]) -> (r: Pattern)
        requires
            ast_wf(expr_view(expr@)),
            expr@.len() <= 0x4000_0000,
        ensures
            r.nodes() == expr_view(expr@),
            crate::machine::bind_count(r.program_spec().instructions_spec()) == expr@.len(),
            crate::machine::compare_count(r.program_spec().instructions_spec()) == 0,
            r.program_spec().var_regs().len() == 0,
    {
        let mut nodes: Vec<ENodeOrVar> = Vec::new();
        let mut i: usize = 0;
        while i < expr.len()
            invariant
                0 <= i <= expr@.len(),
                nodes_view(nodes@) == expr_view(expr@).subrange(0, i as int),
            decreases expr@.len() - i,
        {
            let n = crate::machine::copy_node(&expr[i]);
            let ghost pre = nodes_view(nodes@);
            let ghost item = PatNode::ENode { op: n.op@, children: n.children@, name: None };
            let e = ENodeOrVar::ENode(n, None);
            proof {
                assert(e@ == item);
                assert(expr_view(expr@)[i as int] == item);
            }
            nodes.push(e);
            proof {
                assert(nodes_view(nodes@) =~= pre.push(item));
                assert(nodes_view(nodes@) =~= expr_view(expr@).subrange(0, i + 1));
            }
            i = i + 1;
        }
        proof {
            assert(expr_view(expr@).subrange(0, expr@.len() as int) =~= expr_view(expr@));
            lemma_expr_enodes(expr@, expr@.len() as int);
            assert(pattern_vars(expr_view(expr@)) =~= Set::<Seq<char>>::empty());
        }
        let r = Pattern::from_ast(PatternAst { nodes });
        proof {
            let keys = r.program_spec().var_regs().map_values(|p: (Seq<char>, Id)| p.0);
            assert(keys.to_set() =~= Set::<Seq<char>>::empty());
            if keys.len() > 0 {
                assert(keys.to_set().contains(keys[0]));
            }
        }
        r
    }

    /// The expression of a pattern without variables (names given to
    /// e-nodes are dropped), or the first variable node's variable.
    pub fn to_expr(&self) -> (r: Result<Vec<SymbolLang>, Var>)
        ensures
            match first_var(self.nodes(), 0) {
                Some(v) => r matches Err(x) && x@ == v,
                None => r matches Ok(e) && expr_view(e@) == unnamed(self.nodes()),
            },
    {
        let nodes = self.ast.as_ref();
        let mut out: Vec<SymbolLang> = Vec::new();
        let mut i: usize = 0;
        while i < nodes.len()
            invariant
                0 <= i <= nodes@.len(),
                nodes_view(nodes@) == self.nodes(),
                first_var(self.nodes(), 0) == first_var(self.nodes(), i as int),
                expr_view(out@) == unnamed(self.nodes()).subrange(0, i as int),
            decreases nodes@.len() - i,
        {
            proof {
                assert(self.nodes()[i as int] == nodes@[i as int]@);
            }
            match &nodes[i] {
                ENodeOrVar::Var(v) => {
                    return Err(v.clone());
                },
                ENodeOrVar::ENode(n, _) => {
                    let c = crate::machine::copy_node(n);
                    let ghost pre = expr_view(out@);
                    let ghost item = PatNode::ENode { op: c.op@, children: c.children@, name: None };
                    proof {
                        assert(unnamed(self.nodes())[i as int] == item);
                    }
                    out.push(c);
                    proof {
                        assert(expr_view(out@) =~= pre.push(item));
                        assert(expr_view(out@) =~= unnamed(self.nodes()).subrange(0, i + 1));
                    }
                },
            }
            i = i + 1;
        }
        proof {
            assert(unnamed(self.nodes()).subrange(0, nodes@.len() as int) =~= unnamed(self.nodes()));
        }
        Ok(out)
    }

    /// Parses a pattern from an s-expression and compiles it.
    pub fn from_str(s: &str) -> (r: Result<Pattern, RecExprParseError<ENodeOrVarParseError<String>>>)
        requires
            s@.len() <= 0x4000_0000,
        ensures
            match parse_pattern_text(s@) {
                Ok(nodes) => r matches Ok(p) && p.nodes() == nodes,
                Err(f) => r matches Err(e) && fail_of(e) == f,
            },
            r matches Ok(p) ==> p.program_spec().var_regs().map_values(|q: (Seq<char>, Id)| q.0).to_set()
                == pattern_vars(p.nodes()) && crate::machine::bind_count(p.program_spec().instructions_spec())
                == enode_count(p.nodes()),
    {
        match PatternAst::from_str(s) {
            Ok(ast) => Ok(Pattern::from_ast(ast)),
            Err(e) => Err(e),
        }
    }

    /// The distinct variables of this pattern, in order of first occurrence:
    /// its variables and the names given to its e-nodes.
    pub fn vars(&self) -> (r: Vec<Var>)
        requires
            names_are_vars(self.nodes()),
        ensures
            var_texts(r@) == vars_upto(self.nodes(), self.nodes().len()),
    {
        let nodes = self.ast.as_ref();
        let mut vars: Vec<Var> = Vec::new();
        let mut i: usize = 0;
        proof {
            assert(var_texts(vars@) =~= Seq::<Seq<char>>::empty());
        }
        while i < nodes.len()
            invariant
                0 <= i <= nodes@.len(),
                nodes_view(nodes@) == self.ast@,
                names_are_vars(self.ast@),
                var_texts(vars@) == vars_upto(self.ast@, i as nat),
            decreases nodes@.len() - i,
        {
            proof {
                assert(self.ast@[i as int] == nodes@[i as int]@);
                assert(node_var_name(self.ast@[i as int]) matches Some(v) ==> is_var_text(v));
            }
            match &nodes[i] {
                ENodeOrVar::ENode(_, Some(n)) => {
                    let cs = str_chars(n.as_str());
                    let v = Var::from_chars(cs.as_slice());
                    push_new_var(&mut vars, v);
                },
                ENodeOrVar::Var(v) => {
                    push_new_var(&mut vars, v.clone());
                },
                _ => {},
            }
            i = i + 1;
        }
        vars
    }
}

/// The first position at or after `i` where the naming marker `|@|`
/// starts, or -1 if there is none.
pub open spec fn marker_from(s: Seq<char>, i: int) -> int
    decreases s.len() - i,
{
    if i < 0 || i + 3 > s.len() {
        -1
    } else if s[i] == '|' && s[i + 1] == '@' && s[i + 2] == '|' {
        i
    } else {
        marker_from(s, i + 1)
    }
}

/// A marker found from `i` starts at or after `i` and fits in the text.
pub proof fn lemma_marker_bounds(s: Seq<char>, i: int)
    requires
        0 <= i,
    ensures
        marker_from(s, i) == -1 || (i <= marker_from(s, i) && marker_from(s, i) + 3 <= s.len()),
    decreases s.len() - i,
{
    if i + 3 <= s.len() && !(s[i] == '|' && s[i + 1] == '@' && s[i + 2] == '|') {
        lemma_marker_bounds(s, i + 1);
    }
}

/// The pattern node, or the error message, for an operator given as text.
/// A leading `|@|name|@|` gives the node a name, which must start with `?`.
pub open spec fn op_str_outcome(op: Seq<char>, children: Seq<Id>) -> Result<PatNode, Seq<char>> {
    if is_var_text(op) {
        if children.len() == 0 {
            Ok(PatNode::Var { name: op })
        } else {
            Err(seq!['T', 'r', 'i', 'e', 'd', ' ', 't', 'o', ' ', 'p', 'a', 'r', 's', 'e', ' ', 'p', 'a', 't', 't', 'e', 'r', 'n', ' ', 'v', 'a', 'r', 'i', 'a', 'b', 'l', 'e', ' ', '\''] + op + seq!['\'', ' ', 'i', 'n', ' ', 't', 'h', 'e', ' ', 'o', 'p', ' ', 'p', 'o', 's', 'i', 't', 'i', 'o', 'n'])
        }
    } else if marker_from(op, 0) == 0 && marker_from(op, 3) >= 3 {
        let m = marker_from(op, 3);
        let name = op.subrange(3, m);
        if !(name.len() >= 1 && name[0] == '?') {
            Err(seq!['I', 'n', 'v', 'a', 'l', 'i', 'd', ' ', 'n', 'a', 'm', 'e', ' ', 'f', 'o', 'r', ' ', 'p', 'a', 't', 't', 'e', 'r', 'n', ':', ' '] + name + seq!['.', ' ', 'N', 'a', 'm', 'e', ' ', 's', 'h', 'o', 'u', 'l', 'd', ' ', 's', 't', 'a', 'r', 't', ' ', 'w', 'i', 't', 'h', ' ', '?'])
        } else {
            Ok(PatNode::ENode { op: op.subrange(m + 3, op.len() as int), children, name: Some(name) })
        }
    } else {
        Ok(PatNode::ENode { op, children, name: None })
    }
}

/// The first position at or after `i` where `|@|` starts, or -1.
fn marker_from_exec(s: &[char], i: usize) -> (r: i64)
    requires
        s@.len() < 0x1_0000_0000,
    ensures
        r == marker_from(s@, i as int),
{
    let mut k = i;
    while k < s.len() && s.len() - k >= 3
        invariant
            i <= k,
            s@.len() < 0x1_0000_0000,
            marker_from(s@, k as int) == marker_from(s@, i as int),
        decreases s@.len() - k,
    {
        if s[k] == '|' && s[k + 1] == '@' && s[k + 2] == '|' {
            return k as i64;
        }
        k = k + 1;
    }
    -1
}

/// Appends the characters of a string literal.
fn push_text(out: &mut String, t: &str)
    ensures
        final(out)@ == old(out)@ + t@,
{
    out.append(t);
}

impl ENodeOrVar {
    /// Builds a pattern node from an operator given as text; a leading
    /// `|@|name|@|` names the node. Fails with a message for a variable in
    /// operator position and for a name that does not start with `?`.
    pub fn from_op_str(op_str: &str, children: Vec<Id>) -> (r: Result<ENodeOrVar, String>)
        requires
            op_str@.len() < 0x1_0000_0000,
        ensures
            match op_str_outcome(op_str@, children@) {
                Ok(n) => r matches Ok(x) && x@ == n,
                Err(m) => r matches Err(e) && e@ == m,
            },
    {
        let cs = str_chars(op_str);
        if cs.len() >= 2 && cs[0] == '?' {
            if children.len() == 0 {
                return Ok(ENodeOrVar::Var(Var::from_chars(cs.as_slice())));
            } else {
                let mut msg = String::new();
                proof {
                    reveal_strlit("Tried to parse pattern variable '");
                    reveal_strlit("' in the op position");
                }
                push_text(&mut msg, "Tried to parse pattern variable '");
                push_text(&mut msg, op_str);
                push_text(&mut msg, "' in the op position");
                return Err(msg);
            }
        }
        let m0 = marker_from_exec(cs.as_slice(), 0);
        let m1 = marker_from_exec(cs.as_slice(), 3);
        proof {
            lemma_marker_bounds(cs@, 3);
        }
        if m0 == 0 && m1 >= 3 {
            let m = m1 as usize;
            proof {
                assert(m as int == marker_from(op_str@, 3));
            }
            let name = slice_range(cs.as_slice(), 3, m);
            if !(name.len() >= 1 && name[0] == '?') {
                let mut msg = String::new();
                proof {
                    reveal_strlit("Invalid name for pattern: ");
                    reveal_strlit(". Name should start with ?");
                }
                push_text(&mut msg, "Invalid name for pattern: ");
                let name_text = string_from_chars(name.as_slice());
                push_text(&mut msg, name_text.as_str());
                push_text(&mut msg, ". Name should start with ?");
                return Err(msg);
            }
            let op = slice_range(cs.as_slice(), m + 3, cs.len());
            let name_text = string_from_chars(name.as_slice());
            return Ok(
                ENodeOrVar::ENode(
                    SymbolLang { op: string_from_chars(op.as_slice()), children },
                    Some(name_text),
                ),
            );
        }
        Ok(ENodeOrVar::ENode(SymbolLang { op: string_from_chars(cs.as_slice()), children }, None))
    }
}

} // verus!
