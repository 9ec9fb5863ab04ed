//! Syntax constructs that declare variables.
use vstd::prelude::*;
use crate::binding::{is_underscored, underscored, Binding, Ident};
use crate::usage::{find, inherit_sites, used_in_any};
use crate::syntax::{
    Class, Tree, NODE_ATTRPATH, NODE_ATTRPATH_VALUE, NODE_ATTR_SET, NODE_IDENT, NODE_IDENT_PARAM,
    NODE_INHERIT, NODE_INHERIT_FROM, NODE_LAMBDA, NODE_LET_IN, NODE_PATTERN, NODE_PAT_BIND,
    NODE_PAT_ENTRY, TOKEN_REC,
};

verus! {

/// Subtree that declares variables. Each field is an element of the tree.
#[derive(Clone, Copy, Debug, PartialEq, Eq, Structural)]
pub enum Scope {
    /// `{ ... }: ...`: the pattern and the lambda body.
    LambdaPattern(usize, usize),
    /// `...: ...`: the argument's identifier and the lambda body.
    LambdaArg(usize, usize),
    /// `let ... in ...`: the `let` node.
    LetIn(usize),
    /// `rec { ... }`: the attribute set.
    RecAttrSet(usize),
}

/// Output color for dead code warnings.
#[derive(Clone, Copy, Debug, PartialEq, Eq, Structural)]
pub enum Color {
    Magenta,
    Cyan,
    Red,
    Yellow,
}

/// The scope that node `i` opens, if any.
pub open spec fn scope_of(t: &Tree, i: usize) -> Option<Scope> {
    if t.is_a(i as int, Class::Node(NODE_LAMBDA)) {
        match (t.first_child(i as int, Class::Param), t.first_child(i as int, Class::Expr)) {
            (Some(p), Some(b)) => if t.is_a(p as int, Class::Node(NODE_IDENT_PARAM)) {
                match t.first_child(p as int, Class::Node(NODE_IDENT)) {
                    Some(n) => Some(Scope::LambdaArg(n, b)),
                    None => None,
                }
            } else {
                Some(Scope::LambdaPattern(p, b))
            },
            _ => None,
        }
    } else if t.is_a(i as int, Class::Node(NODE_LET_IN)) {
        Some(Scope::LetIn(i))
    } else if t.is_a(i as int, Class::Node(NODE_ATTR_SET)) && t.first_child(
        i as int,
        Class::Token(TOKEN_REC),
    ) is Some {
        Some(Scope::RecAttrSet(i))
    } else {
        None
    }
}

/// A binding as (name node, declaration, mortal).
pub type BindSpec = (usize, usize, bool);

/// Bindings of the pattern entries `es[..k]`.
pub open spec fn entry_binds(t: &Tree, es: Seq<usize>, k: int) -> Seq<BindSpec>
    decreases k,
{
    if k <= 0 {
        Seq::empty()
    } else {
        let prev = entry_binds(t, es, k - 1);
        match t.first_child(es[k - 1] as int, Class::Node(NODE_IDENT)) {
            Some(n) => prev.push((n, es[k - 1], true)),
            None => prev,
        }
    }
}

/// Bindings of the identifiers of the `inherit` clauses `cs[..k]`.
pub open spec fn inherit_binds(t: &Tree, cs: Seq<usize>, k: int, mortal: bool) -> Seq<BindSpec>
    decreases k,
{
    if k <= 0 {
        Seq::empty()
    } else {
        inherit_binds(t, cs, k - 1, mortal) + t.children_in(cs[k - 1] as int, Class::Node(NODE_IDENT)).map_values(
            |a: usize| (a, a, mortal),
        )
    }
}

/// The key of `key = value;` entry `e` when that key is one identifier.
pub open spec fn single_key(t: &Tree, e: int) -> Option<usize> {
    match t.first_child(e, Class::Node(NODE_ATTRPATH)) {
        Some(ap) => match t.first_child(ap as int, Class::Attr) {
            Some(a) => if t.is_a(a as int, Class::Node(NODE_IDENT)) {
                Some(a)
            } else {
                None
            },
            None => None,
        },
        None => None,
    }
}

/// Bindings of the `key = value;` entries `es[..k]`.
pub open spec fn value_binds(t: &Tree, es: Seq<usize>, k: int, mortal: bool) -> Seq<BindSpec>
    decreases k,
{
    if k <= 0 {
        Seq::empty()
    } else {
        let prev = value_binds(t, es, k - 1, mortal);
        match single_key(t, es[k - 1] as int) {
            Some(a) => prev.push((a, es[k - 1], mortal)),
            None => prev,
        }
    }
}

/// The binding of the `@` of pattern `p`, if any.
pub open spec fn at_bind(t: &Tree, p: int) -> Seq<BindSpec> {
    match t.first_child(p, Class::Node(NODE_PAT_BIND)) {
        Some(pb) => match t.first_child(pb as int, Class::Node(NODE_IDENT)) {
            Some(n) => seq![(n, n, true)],
            None => Seq::empty(),
        },
        None => Seq::empty(),
    }
}

/// The bindings a `let` or `rec` node `n` introduces.
pub open spec fn entries_binds(t: &Tree, n: int, mortal: bool) -> Seq<BindSpec> {
    let inherits = t.children_in(n, Class::Node(NODE_INHERIT));
    let values = t.children_in(n, Class::Node(NODE_ATTRPATH_VALUE));
    inherit_binds(t, inherits, inherits.len() as int, mortal) + value_binds(
        t,
        values,
        values.len() as int,
        mortal,
    )
}

/// The bindings a scope introduces, in order.
pub open spec fn bindings_of(t: &Tree, s: Scope) -> Seq<BindSpec> {
    match s {
        Scope::LambdaPattern(p, _) => {
            let es = t.children_in(p as int, Class::Node(NODE_PAT_ENTRY));
            at_bind(t, p as int) + entry_binds(t, es, es.len() as int)
        },
        Scope::LambdaArg(n, _) => seq![(n, n, !underscored(t.ident_text(n as int)))],
        Scope::LetIn(n) => entries_binds(t, n as int, true),
        Scope::RecAttrSet(n) => entries_binds(t, n as int, false),
    }
}

/// The `(from)` parts of the `inherit` clauses `cs[..k]`.
pub open spec fn from_parts(t: &Tree, cs: Seq<usize>, k: int) -> Seq<usize>
    decreases k,
{
    if k <= 0 {
        Seq::empty()
    } else {
        let prev = from_parts(t, cs, k - 1);
        match t.first_child(cs[k - 1] as int, Class::Node(NODE_INHERIT_FROM)) {
            Some(f) => prev.push(f),
            None => prev,
        }
    }
}

/// The subtrees in which the bindings of a scope are visible.
pub open spec fn bodies_of(t: &Tree, s: Scope) -> Seq<usize> {
    match s {
        Scope::LambdaPattern(p, b) => t.children_in(p as int, Class::Node(NODE_PAT_ENTRY)).push(b),
        Scope::LambdaArg(_, b) => seq![b],
        Scope::LetIn(n) => {
            let inherits = t.children_in(n as int, Class::Node(NODE_INHERIT));
            from_parts(t, inherits, inherits.len() as int) + t.children_in(
                n as int,
                Class::Node(NODE_ATTRPATH_VALUE),
            ) + match t.first_child(n as int, Class::Expr) {
                Some(b) => seq![b],
                None => Seq::empty(),
            }
        },
        Scope::RecAttrSet(n) => t.children_in(n as int, Class::Node(NODE_INHERIT)) + t.children_in(
            n as int,
            Class::Node(NODE_ATTRPATH_VALUE),
        ),
    }
}

/// The `inherit` clauses of a scope.
pub open spec fn inherit_clauses(t: &Tree, s: Scope) -> Seq<usize> {
    match s {
        Scope::LetIn(n) | Scope::RecAttrSet(n) => t.children_in(n as int, Class::Node(NODE_INHERIT)),
        _ => Seq::empty(),
    }
}

/// Where an `inherit` clause `c` looks up its names: its `(from)` part, or
/// else the clause itself, whose names come from the enclosing scope.
pub open spec fn inherit_site(t: &Tree, c: usize) -> usize {
    match t.first_child(c as int, Class::Node(NODE_INHERIT_FROM)) {
        Some(f) => f,
        None => c,
    }
}

/// Does `bs` match the specification `want` binding for binding?
pub open spec fn binds_match(t: &Tree, bs: Seq<Binding>, want: Seq<BindSpec>) -> bool {
    &&& bs.len() == want.len()
    &&& forall|k: int|
        0 <= k < bs.len() ==> (#[trigger] bs[k]).is_for(
            t,
            want[k].0 as int,
            want[k].1 as int,
            want[k].2,
        )
}

/// Is pattern entry `e` called `name`?
pub open spec fn entry_named(t: &Tree, e: int, name: Seq<char>) -> bool {
    t.first_child(e, Class::Node(NODE_IDENT)) matches Some(n) && t.ident_text(n as int) == name
}

/// Is `s` a lambda pattern with an entry called `name`?
pub open spec fn pattern_names(t: &Tree, s: Scope, name: Seq<char>) -> bool {
    match s {
        Scope::LambdaPattern(p, _) => {
            let es = t.children_in(p as int, Class::Node(NODE_PAT_ENTRY));
            exists|k: int| 0 <= k < es.len() && #[trigger] entry_named(t, es[k] as int, name)
        },
        _ => false,
    }
}

proof fn lemma_pattern_names(t: &Tree, p: usize, b: usize, name: Seq<char>, k: int)
    requires
        0 <= k < t.children_in(p as int, Class::Node(NODE_PAT_ENTRY)).len(),
        entry_named(t, t.children_in(p as int, Class::Node(NODE_PAT_ENTRY))[k] as int, name),
    ensures
        pattern_names(t, Scope::LambdaPattern(p, b), name),
{
    let es = t.children_in(p as int, Class::Node(NODE_PAT_ENTRY));
    assert(entry_named(t, es[k] as int, name));
    assert(exists|j: int| 0 <= j < es.len() && #[trigger] entry_named(t, es[j] as int, name));
    assert(Scope::LambdaPattern(p, b) matches Scope::LambdaPattern(q, _) && q == p);
}

/// The element a scope is anchored at, for the ordering of recursion.
pub open spec fn anchor(s: Scope) -> usize {
    match s {
        Scope::LambdaPattern(p, _) => p,
        Scope::LambdaArg(n, _) => n,
        Scope::LetIn(n) => n,
        Scope::RecAttrSet(n) => n,
    }
}

/// A scope of tree `t` whose elements are all inside the tree.
pub open spec fn scope_ok(t: &Tree, s: Scope) -> bool {
    match s {
        Scope::LambdaPattern(p, b) => t.is_a(p as int, Class::Node(NODE_PATTERN)) && b < t.len(),
        Scope::LambdaArg(n, b) => t.is_a(n as int, Class::Node(NODE_IDENT)) && b < t.len(),
        Scope::LetIn(n) => t.is_a(n as int, Class::Node(NODE_LET_IN)),
        Scope::RecAttrSet(n) => t.is_a(n as int, Class::Node(NODE_ATTR_SET)),
    }
}

/// Every binding of `bs` names and declares elements of `t`.
pub open spec fn binds_in(t: &Tree, bs: Seq<Binding>) -> bool {
    forall|k: int| 0 <= k < bs.len() ==> (#[trigger] bs[k]).decl_node < t.len() && bs[k].name.node < t.len()
}

fn push_binding(t: &Tree, out: &mut Vec<Binding>, n: usize, d: usize, m: bool)
    requires
        t.wf(),
        n < t.len(),
        d < t.len(),
        binds_in(t, old(out)@),
    ensures
        binds_in(t, final(out)@),
        final(out)@.len() == old(out)@.len() + 1,
        final(out)@.drop_last() == old(out)@,
        final(out)@.last().is_for(t, n as int, d as int, m),
{
    out.push(Binding::new(Ident::from_node(t, n), d, m));
    assert(final(out)@.drop_last() =~= old(out)@);
}

proof fn lemma_binds_push(t: &Tree, bs: Seq<Binding>, want: Seq<BindSpec>, b: Binding, w: BindSpec)
    requires
        binds_match(t, bs, want),
        b.is_for(t, w.0 as int, w.1 as int, w.2),
    ensures
        binds_match(t, bs.push(b), want.push(w)),
{
    assert forall|k: int| 0 <= k < bs.len() + 1 implies (#[trigger] bs.push(b)[k]).is_for(
        t,
        want.push(w)[k].0 as int,
        want.push(w)[k].1 as int,
        want.push(w)[k].2,
    ) by {
        if k < bs.len() {
            assert(bs[k].is_for(t, want[k].0 as int, want[k].1 as int, want[k].2));
        }
    }
}

/// The scope and binding that declaration `d` belongs to, read off the tree
/// around it.
pub open spec fn owner(t: &Tree, d: usize) -> (Scope, BindSpec) {
    let up = |x: usize| t.elems@[x as int].parent->0;
    let body = |j: usize| t.first_child(j as int, Class::Expr)->0;
    let keeper = |n: usize|
        if t.is_a(n as int, Class::Node(NODE_LET_IN)) {
            Scope::LetIn(n)
        } else {
            Scope::RecAttrSet(n)
        };
    if t.is_a(d as int, Class::Node(NODE_PAT_ENTRY)) {
        let p = up(d);
        (Scope::LambdaPattern(p, body(up(p))), (t.first_child(d as int, Class::Node(NODE_IDENT))->0, d, true))
    } else if t.is_a(d as int, Class::Node(NODE_ATTRPATH_VALUE)) {
        let n = up(d);
        (keeper(n), (single_key(t, d as int)->0, d, t.is_a(n as int, Class::Node(NODE_LET_IN))))
    } else if t.is_a(up(d) as int, Class::Node(NODE_PAT_BIND)) {
        let p = up(up(d));
        (Scope::LambdaPattern(p, body(up(p))), (d, d, true))
    } else if t.is_a(up(d) as int, Class::Node(NODE_IDENT_PARAM)) {
        (Scope::LambdaArg(d, body(up(up(d)))), (d, d, !underscored(t.ident_text(d as int))))
    } else {
        let n = up(up(d));
        (keeper(n), (d, d, t.is_a(n as int, Class::Node(NODE_LET_IN))))
    }
}

proof fn lemma_in_children(t: &Tree, i: int, cl: Class, c: usize)
    requires
        t.wf(),
        0 <= i < t.len(),
        t.children_in(i, cl).contains(c),
    ensures
        t.elems@[c as int].parent == Some(i as usize),
        t.is_a(c as int, cl),
{
    t.lemma_select_in(t.kids(i), t.kids(i).len() as int, cl);
    let q = choose|q: int| 0 <= q < t.children_in(i, cl).len() && t.children_in(i, cl)[q] == c;
    assert(t.kids(i).contains(t.children_in(i, cl)[q]));
    let w = choose|w: int| 0 <= w < t.kids(i).len() && t.kids(i)[w] == c;
    assert(t.elem_ok(i));
    assert(t.kids(i)[w] == c);
}

proof fn lemma_first_child(t: &Tree, i: int, cl: Class)
    requires
        t.wf(),
        0 <= i < t.len(),
        t.first_child(i, cl) is Some,
    ensures
        t.elems@[t.first_child(i, cl)->0 as int].parent == Some(i as usize),
        t.is_a(t.first_child(i, cl)->0 as int, cl),
{
    t.lemma_first_in(t.kids(i), 0, cl);
    let c = t.first_child(i, cl)->0;
    let w = choose|w: int| 0 <= w < t.kids(i).len() && t.kids(i)[w] == c;
    assert(t.elem_ok(i));
    assert(t.kids(i)[w] == c);
}

proof fn lemma_entry_binds_in(t: &Tree, es: Seq<usize>, k: int, b: BindSpec)
    requires
        0 <= k <= es.len(),
        entry_binds(t, es, k).contains(b),
    ensures
        exists|i: int| 0 <= i < k && es[i] == b.1 && t.first_child(es[i] as int, Class::Node(NODE_IDENT)) == Some(b.0)
            && b.2,
    decreases k,
{
    if k > 0 {
        let prev = entry_binds(t, es, k - 1);
        if prev.contains(b) {
            lemma_entry_binds_in(t, es, k - 1, b);
        } else {
            let q = choose|q: int| 0 <= q < entry_binds(t, es, k).len() && entry_binds(t, es, k)[q] == b;
            assert(q == prev.len());
        }
    }
}

proof fn lemma_value_binds_in(t: &Tree, es: Seq<usize>, k: int, m: bool, b: BindSpec)
    requires
        0 <= k <= es.len(),
        value_binds(t, es, k, m).contains(b),
    ensures
        exists|i: int| 0 <= i < k && es[i] == b.1 && single_key(t, es[i] as int) == Some(b.0) && b.2 == m,
    decreases k,
{
    if k > 0 {
        let prev = value_binds(t, es, k - 1, m);
        if prev.contains(b) {
            lemma_value_binds_in(t, es, k - 1, m, b);
        } else {
            let q = choose|q: int| 0 <= q < value_binds(t, es, k, m).len() && value_binds(t, es, k, m)[q] == b;
            assert(q == prev.len());
        }
    }
}

proof fn lemma_inherit_binds_in(t: &Tree, cs: Seq<usize>, k: int, m: bool, b: BindSpec)
    requires
        0 <= k <= cs.len(),
        inherit_binds(t, cs, k, m).contains(b),
    ensures
        exists|i: int| 0 <= i < k && t.children_in(cs[i] as int, Class::Node(NODE_IDENT)).contains(b.0) && b.0 == b.1 && b.2 == m,
    decreases k,
{
    if k > 0 {
        let prev = inherit_binds(t, cs, k - 1, m);
        let tail = t.children_in(cs[k - 1] as int, Class::Node(NODE_IDENT)).map_values(|a: usize| (a, a, m));
        if prev.contains(b) {
            lemma_inherit_binds_in(t, cs, k - 1, m, b);
        } else {
            let q = choose|q: int| 0 <= q < (prev + tail).len() && (prev + tail)[q] == b;
            assert(q >= prev.len());
            assert(tail[q - prev.len()] == b);
            assert(t.children_in(cs[k - 1] as int, Class::Node(NODE_IDENT))[q - prev.len()] == b.0);
        }
    }
}

/// A declaration fixes its scope and its binding: every binding of a scope
/// of the tree is the one that [`owner`] reads off its declaration.
pub proof fn lemma_owner(t: &Tree, j: usize, b: BindSpec)
    requires
        t.wf(),
        j < t.len(),
        scope_of(t, j) is Some,
        bindings_of(t, scope_of(t, j)->0).contains(b),
    ensures
        owner(t, b.1) == (scope_of(t, j)->0, b),
{
    let s = scope_of(t, j)->0;
    match s {
        Scope::LambdaPattern(p, body) => {
            lemma_first_child(t, j as int, Class::Param);
            lemma_first_child(t, j as int, Class::Expr);
            let ab = at_bind(t, p as int);
            let es = t.children_in(p as int, Class::Node(NODE_PAT_ENTRY));
            if ab.contains(b) {
                lemma_first_child(t, p as int, Class::Node(NODE_PAT_BIND));
                let pb = t.first_child(p as int, Class::Node(NODE_PAT_BIND))->0;
                lemma_first_child(t, pb as int, Class::Node(NODE_IDENT));
                assert(ab == seq![(b.0, b.0, true)]);
                assert(b == ab[0]);
            } else {
                let q = choose|q: int| 0 <= q < (ab + entry_binds(t, es, es.len() as int)).len() && (ab + entry_binds(t, es, es.len() as int))[q] == b;
                assert(entry_binds(t, es, es.len() as int)[q - ab.len()] == b);
                lemma_entry_binds_in(t, es, es.len() as int, b);
                let i = choose|i: int| 0 <= i < es.len() && es[i] == b.1 && t.first_child(es[i] as int, Class::Node(NODE_IDENT)) == Some(b.0) && b.2;
                assert(es.contains(es[i]));
                lemma_in_children(t, p as int, Class::Node(NODE_PAT_ENTRY), b.1);
            }
        },
        Scope::LambdaArg(n, body) => {
            lemma_first_child(t, j as int, Class::Param);
            lemma_first_child(t, j as int, Class::Expr);
            let ip = t.first_child(j as int, Class::Param)->0;
            lemma_first_child(t, ip as int, Class::Node(NODE_IDENT));
            assert(b == bindings_of(t, s)[0]);
        },
        Scope::LetIn(n) | Scope::RecAttrSet(n) => {
            let m = s is LetIn;
            let cs = t.children_in(n as int, Class::Node(NODE_INHERIT));
            let vs = t.children_in(n as int, Class::Node(NODE_ATTRPATH_VALUE));
            let ib = inherit_binds(t, cs, cs.len() as int, m);
            let vb = value_binds(t, vs, vs.len() as int, m);
            assert(bindings_of(t, s) == ib + vb);
            let q = choose|q: int| 0 <= q < (ib + vb).len() && (ib + vb)[q] == b;
            if q < ib.len() {
                assert(ib[q] == b);
                lemma_inherit_binds_in(t, cs, cs.len() as int, m, b);
                let i = choose|i: int| 0 <= i < cs.len() && t.children_in(cs[i] as int, Class::Node(NODE_IDENT)).contains(b.0) && b.0 == b.1 && b.2 == m;
                assert(cs.contains(cs[i]));
                lemma_in_children(t, n as int, Class::Node(NODE_INHERIT), cs[i]);
                lemma_in_children(t, cs[i] as int, Class::Node(NODE_IDENT), b.0);
            } else {
                assert(vb[q - ib.len()] == b);
                lemma_value_binds_in(t, vs, vs.len() as int, m, b);
                let i = choose|i: int| 0 <= i < vs.len() && vs[i] == b.1 && single_key(t, vs[i] as int) == Some(b.0) && b.2 == m;
                assert(vs.contains(vs[i]));
                lemma_in_children(t, n as int, Class::Node(NODE_ATTRPATH_VALUE), b.1);
            }
        },
    }
}

impl Scope {
    /// Construct a new Scope *if* node `i` opens a new scope.
    pub fn new(t: &Tree, i: usize) -> (r: Option<Scope>)
        requires
            t.wf(),
            i < t.len(),
        ensures
            r == scope_of(t, i),
            r matches Some(s) ==> scope_ok(t, s) && i <= anchor(s),
    {
        let e = &t.elems[i];
        if e.is_token {
            return None;
        }
        if e.kind == NODE_LAMBDA {
            match (t.first_child_exec(i, Class::Param), t.first_child_exec(i, Class::Expr)) {
                (Some(p), Some(b)) => {
                    if !t.elems[p].is_token && t.elems[p].kind == NODE_IDENT_PARAM {
                        match t.first_child_exec(p, Class::Node(NODE_IDENT)) {
                            Some(n) => Some(Scope::LambdaArg(n, b)),
                            None => None,
                        }
                    } else {
                        Some(Scope::LambdaPattern(p, b))
                    }
                },
                _ => None,
            }
        } else if e.kind == NODE_LET_IN {
            Some(Scope::LetIn(i))
        } else if e.kind == NODE_ATTR_SET && t.first_child_exec(i, Class::Token(TOKEN_REC)).is_some() {
            Some(Scope::RecAttrSet(i))
        } else {
            None
        }
    }

    /// Is this a `...: ...`, which settings may exclude?
    pub fn is_lambda_arg(&self) -> (r: bool)
        ensures
            r == (self is LambdaArg),
    {
        matches!(self, Scope::LambdaArg(_, _))
    }

    /// Is this a `{ ... }: ...` with a pattern entry called `name`?
    pub fn is_lambda_pattern_name(&self, t: &Tree, name: &Ident) -> (r: bool)
        requires
            t.wf(),
            scope_ok(t, *self),
        ensures
            r == pattern_names(t, *self, name.text@),
    {
        match self {
            Scope::LambdaPattern(p, b) => {
                let es = t.children_exec(*p, Class::Node(NODE_PAT_ENTRY));
                let mut k: usize = 0;
                while k < es.len()
                    invariant
                        t.wf(),
                        es@ == t.children_in(*p as int, Class::Node(NODE_PAT_ENTRY)),
                        forall|j: int| 0 <= j < es.len() ==> #[trigger] es@[j] < t.len(),
                        k <= es.len(),
                        forall|j: int| 0 <= j < k ==> !entry_named(t, #[trigger] es@[j] as int, name.text@),
                        *self == Scope::LambdaPattern(*p, *b),
                    decreases es.len() - k,
                {
                    if let Some(n) = t.first_child_exec(es[k], Class::Node(NODE_IDENT)) {
                        if t.ident_is(n, &name.text) {
                            proof {
                                lemma_pattern_names(t, *p, *b, name.text@, k as int);
                            }
                            return true;
                        }
                    }
                    k += 1;
                }
                false
            },
            _ => false,
        }
    }

    /// The [`Binding`]s this scope introduces.
    pub fn bindings(&self, t: &Tree) -> (r: Vec<Binding>)
        requires
            t.wf(),
            scope_ok(t, *self),
        ensures
            binds_match(t, r@, bindings_of(t, *self)),
            binds_in(t, r@),
    {
        let mut out: Vec<Binding> = Vec::new();
        match self {
            Scope::LambdaPattern(p, _) => {
                if let Some(pb) = t.first_child_exec(*p, Class::Node(NODE_PAT_BIND)) {
                    if let Some(n) = t.first_child_exec(pb, Class::Node(NODE_IDENT)) {
                        push_binding(t, &mut out, n, n, true);
                        proof {
                            lemma_binds_push(t, Seq::empty(), Seq::empty(), out@.last(), (n, n, true));
                            assert(out@ =~= seq![out@.last()]);
                        }
                    }
                }
                assert(binds_match(t, out@, at_bind(t, *p as int)));
                let es = t.children_exec(*p, Class::Node(NODE_PAT_ENTRY));
                let mut k: usize = 0;
                while k < es.len()
                    invariant
                        t.wf(),
                        es@ == t.children_in(*p as int, Class::Node(NODE_PAT_ENTRY)),
                        forall|j: int| 0 <= j < es.len() ==> #[trigger] es@[j] < t.len(),
                        k <= es.len(),
                        binds_in(t, out@),
                        binds_match(t, out@, at_bind(t, *p as int) + entry_binds(t, es@, k as int)),
                    decreases es.len() - k,
                {
                    let e = es[k];
                    if let Some(n) = t.first_child_exec(e, Class::Node(NODE_IDENT)) {
                        let ghost before = out@;
                        push_binding(t, &mut out, n, e, true);
                        proof {
                            lemma_binds_push(t, before, at_bind(t, *p as int) + entry_binds(t, es@, k as int), out@.last(), (n, e, true));
                            assert(out@ =~= before.push(out@.last()));
                            assert(at_bind(t, *p as int) + entry_binds(t, es@, k + 1) =~= (at_bind(t, *p as int) + entry_binds(t, es@, k as int)).push((n, e, true)));
                        }
                    } else {
                        assert(entry_binds(t, es@, k + 1) == entry_binds(t, es@, k as int));
                    }
                    k += 1;
                }
            },
            Scope::LambdaArg(n, _) => {
                let name = Ident::from_node(t, *n);
                let mortal = !is_underscored(name.text.as_str());
                out.push(Binding::new(name, *n, mortal));
                proof {
                    lemma_binds_push(t, Seq::empty(), Seq::empty(), out@.last(), (*n, *n, mortal));
                    assert(out@ =~= seq![out@.last()]);
                }
            },
            Scope::LetIn(n) => {
                out = entry_bindings(t, *n, true);
            },
            Scope::RecAttrSet(n) => {
                out = entry_bindings(t, *n, false);
            },
        }
        out
    }
}

impl Scope {
    /// Does one of the scope's `inherit` clauses pull `name` in from outside?
    pub open spec fn inherits_spec(&self, t: &Tree, name: Seq<char>) -> bool {
        used_in_any(t, name, inherit_sites(t, *self), anchor(*self), 0)
    }

    /// The code subtrees in which the introduced variables are available.
    pub fn bodies(&self, t: &Tree) -> (r: Vec<usize>)
        requires
            t.wf(),
            scope_ok(t, *self),
        ensures
            r@ == bodies_of(t, *self),
            forall|j: int| 0 <= j < r.len() ==> #[trigger] r@[j] < t.len(),
    {
        match self {
            Scope::LambdaPattern(p, b) => {
                let mut out = t.children_exec(*p, Class::Node(NODE_PAT_ENTRY));
                out.push(*b);
                out
            },
            Scope::LambdaArg(_, b) => {
                let mut out: Vec<usize> = Vec::new();
                out.push(*b);
                assert(out@ =~= seq![*b]);
                out
            },
            Scope::LetIn(n) => {
                let cs = t.children_exec(*n, Class::Node(NODE_INHERIT));
                let mut out: Vec<usize> = Vec::new();
                let mut k: usize = 0;
                while k < cs.len()
                    invariant
                        t.wf(),
                        cs@ == t.children_in(*n as int, Class::Node(NODE_INHERIT)),
                        forall|j: int| 0 <= j < cs.len() ==> #[trigger] cs@[j] < t.len(),
                        k <= cs.len(),
                        out@ == from_parts(t, cs@, k as int),
                        forall|j: int| 0 <= j < out.len() ==> #[trigger] out@[j] < t.len(),
                    decreases cs.len() - k,
                {
                    if let Some(f) = t.first_child_exec(cs[k], Class::Node(NODE_INHERIT_FROM)) {
                        out.push(f);
                    }
                    k += 1;
                }
                let mut vs = t.children_exec(*n, Class::Node(NODE_ATTRPATH_VALUE));
                out.append(&mut vs);
                if let Some(b) = t.first_child_exec(*n, Class::Expr) {
                    let ghost before = out@;
                    out.push(b);
                    assert(out@ =~= before + seq![b]);
                } else {
                    assert(out@ =~= out@ + Seq::<usize>::empty());
                }
                out
            },
            Scope::RecAttrSet(n) => {
                let mut out = t.children_exec(*n, Class::Node(NODE_INHERIT));
                let mut vs = t.children_exec(*n, Class::Node(NODE_ATTRPATH_VALUE));
                out.append(&mut vs);
                out
            },
        }
    }

    /// Check the `inherit (var) ...` and `inherit vars` clauses for a
    /// given `name`.
    ///
    /// Although a scope may shadow existing variable bindings, it can
    /// `inherit` bindings from the outer scope.
    pub fn inherits_from(&self, t: &Tree, name: &Ident) -> (r: bool)
        requires
            t.wf(),
            scope_ok(t, *self),
        ensures
            r == self.inherits_spec(t, name.text@),
        decreases t.len() - anchor(*self), 0int,
    {
        match self {
            Scope::LetIn(n) | Scope::RecAttrSet(n) => {
                let cs = t.children_exec(*n, Class::Node(NODE_INHERIT));
                let mut sites: Vec<usize> = Vec::new();
                let mut k: usize = 0;
                while k < cs.len()
                    invariant
                        t.wf(),
                        cs@ == t.children_in(*n as int, Class::Node(NODE_INHERIT)),
                        forall|j: int| 0 <= j < cs.len() ==> #[trigger] cs@[j] < t.len(),
                        k <= cs.len(),
                        sites@ == cs@.subrange(0, k as int).map_values(|c: usize| inherit_site(t, c)),
                    decreases cs.len() - k,
                {
                    let c = cs[k];
                    let site = match t.first_child_exec(c, Class::Node(NODE_INHERIT_FROM)) {
                        Some(f) => f,
                        None => c,
                    };
                    sites.push(site);
                    assert(cs@.subrange(0, k + 1) =~= cs@.subrange(0, k as int).push(c));
                    assert(sites@ =~= cs@.subrange(0, k + 1).map_values(|c: usize| inherit_site(t, c)));
                    k += 1;
                }
                assert(cs@.subrange(0, cs.len() as int) =~= cs@);
                assert(sites@ == inherit_sites(t, *self));
                crate::usage::find_any(t, name, &sites, *n)
            },
            _ => {
                assert(inherit_sites(t, *self).len() == 0);
                false
            },
        }
    }

    /// Human-readable name of the kind of scope.
    pub fn category(&self) -> (r: &'static str)
        ensures
            r@ == match *self {
                Scope::LambdaPattern(_, _) => "lambda pattern"@,
                Scope::LambdaArg(_, _) => "lambda argument"@,
                Scope::LetIn(_) => "let binding"@,
                Scope::RecAttrSet(_) => "rec attrset"@,
            },
    {
        match self {
            Scope::LambdaPattern(_, _) => "lambda pattern",
            Scope::LambdaArg(_, _) => "lambda argument",
            Scope::LetIn(_) => "let binding",
            Scope::RecAttrSet(_) => "rec attrset",
        }
    }

    /// Output color for dead code warnings.
    pub fn color(&self) -> (r: Color)
        ensures
            r == match *self {
                Scope::LambdaPattern(_, _) => Color::Magenta,
                Scope::LambdaArg(_, _) => Color::Cyan,
                Scope::LetIn(_) => Color::Red,
                Scope::RecAttrSet(_) => Color::Yellow,
            },
    {
        match self {
            Scope::LambdaPattern(_, _) => Color::Magenta,
            Scope::LambdaArg(_, _) => Color::Cyan,
            Scope::LetIn(_) => Color::Red,
            Scope::RecAttrSet(_) => Color::Yellow,
        }
    }
}

/// The bindings of the `inherit` clauses and `key = value;` entries of node `n`.
fn entry_bindings(t: &Tree, n: usize, mortal: bool) -> (r: Vec<Binding>)
    requires
        t.wf(),
        n < t.len(),
    ensures
        binds_match(t, r@, entries_binds(t, n as int, mortal)),
        binds_in(t, r@),
{
    let mut out: Vec<Binding> = Vec::new();
    let cs = t.children_exec(n, Class::Node(NODE_INHERIT));
    let mut k: usize = 0;
    while k < cs.len()
        invariant
            t.wf(),
            cs@ == t.children_in(n as int, Class::Node(NODE_INHERIT)),
            forall|j: int| 0 <= j < cs.len() ==> #[trigger] cs@[j] < t.len(),
            k <= cs.len(),
            binds_in(t, out@),
            binds_match(t, out@, inherit_binds(t, cs@, k as int, mortal)),
        decreases cs.len() - k,
    {
        let attrs = t.children_exec(cs[k], Class::Node(NODE_IDENT));
        let ghost f = |a: usize| (a, a, mortal);
        let mut j: usize = 0;
        while j < attrs.len()
            invariant
                t.wf(),
                attrs@ == t.children_in(cs@[k as int] as int, Class::Node(NODE_IDENT)),
                forall|q: int| 0 <= q < attrs.len() ==> #[trigger] attrs@[q] < t.len(),
                j <= attrs.len(),
                k < cs.len(),
                f == (|a: usize| (a, a, mortal)),
                binds_in(t, out@),
                binds_match(t, out@, inherit_binds(t, cs@, k as int, mortal) + attrs@.subrange(0, j as int).map_values(f)),
            decreases attrs.len() - j,
        {
            let a = attrs[j];
            let ghost before = out@;
            push_binding(t, &mut out, a, a, mortal);
            proof {
                let prev = inherit_binds(t, cs@, k as int, mortal) + attrs@.subrange(0, j as int).map_values(f);
                lemma_binds_push(t, before, prev, out@.last(), (a, a, mortal));
                assert(out@ =~= before.push(out@.last()));
                assert(inherit_binds(t, cs@, k as int, mortal) + attrs@.subrange(0, j + 1).map_values(f) =~= prev.push((a, a, mortal)));
            }
            j += 1;
        }
        assert(attrs@.subrange(0, attrs.len() as int) =~= attrs@);
        k += 1;
    }
    let vs = t.children_exec(n, Class::Node(NODE_ATTRPATH_VALUE));
    let ghost inh = inherit_binds(t, cs@, cs.len() as int, mortal);
    let mut k: usize = 0;
    while k < vs.len()
        invariant
            t.wf(),
            vs@ == t.children_in(n as int, Class::Node(NODE_ATTRPATH_VALUE)),
            forall|j: int| 0 <= j < vs.len() ==> #[trigger] vs@[j] < t.len(),
            k <= vs.len(),
            binds_in(t, out@),
            binds_match(t, out@, inh + value_binds(t, vs@, k as int, mortal)),
        decreases vs.len() - k,
    {
        let e = vs[k];
        let mut key: Option<usize> = None;
        if let Some(ap) = t.first_child_exec(e, Class::Node(NODE_ATTRPATH)) {
            if let Some(a) = t.first_child_exec(ap, Class::Attr) {
                if !t.elems[a].is_token && t.elems[a].kind == NODE_IDENT {
                    key = Some(a);
                }
            }
        }
        assert(key == single_key(t, e as int));
        if let Some(a) = key {
            let ghost before = out@;
            push_binding(t, &mut out, a, e, mortal);
            proof {
                lemma_binds_push(t, before, inh + value_binds(t, vs@, k as int, mortal), out@.last(), (a, e, mortal));
                assert(out@ =~= before.push(out@.last()));
                assert(inh + value_binds(t, vs@, k + 1, mortal) =~= (inh + value_binds(t, vs@, k as int, mortal)).push((a, e, mortal)));
            }
        } else {
            assert(value_binds(t, vs@, k + 1, mortal) == value_binds(t, vs@, k as int, mortal));
        }
        k += 1;
    }
    out
}

} // verus!
