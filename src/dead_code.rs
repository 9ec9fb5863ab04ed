//! Finding unused bindings: the greatest set of bindings that nothing alive
//! uses, reached by pruning until nothing changes.
use vstd::prelude::*;
use crate::binding::{pragma_before, underscored, Binding, Ident};
use crate::scope::{
    lemma_owner, binds_in, binds_match, bindings_of, bodies_of, pattern_names, scope_of, scope_ok, BindSpec, Scope,
};
use crate::syntax::{Class, Tree, NODE_INHERIT, NODE_INHERIT_FROM};
use crate::usage::{find, uses};

verus! {

/// Instance of a dead binding.
///
/// Generate them with [`Settings::find_dead_code`].
pub struct DeadCode {
    /// The [`Scope`] that introduced the [`binding`](`DeadCode::binding`).
    pub scope: Scope,
    /// The [`Binding`] that is found to be unused.
    pub binding: Binding,
    /// Unused, or used though its name starts with `_`?
    pub unused: bool,
}

/// Analysis settings.
#[derive(Clone, Copy, Debug, PartialEq, Eq, Structural)]
pub struct Settings {
    /// Ignore `...: ...`.
    pub no_lambda_arg: bool,
    /// Ignore `{ ... }: ...`.
    pub no_lambda_pattern_names: bool,
    /// Ignore all bindings that start with `_`.
    pub no_underscore: bool,
    /// Warn on used bindings that start with `_`.
    pub warn_used_underscore: bool,
}

/// The binding of `b` as (name node, declaration, mortal).
pub open spec fn spec_of(b: Binding) -> BindSpec {
    (b.name.node, b.decl_node, b.mortal)
}

/// Is `body` the `(from)` part of an `inherit` clause all of whose names are
/// in `dead`?
pub open spec fn dead_inherit(t: &Tree, dead: Seq<bool>, body: usize) -> bool {
    &&& t.is_a(body as int, Class::Node(NODE_INHERIT_FROM))
    &&& t.elems@[body as int].parent matches Some(p) && t.is_a(p as int, Class::Node(NODE_INHERIT))
        && forall|m: int|
        0 <= m < t.children_in(p as int, Class::Attr).len() ==> {
            let a = #[trigger] t.children_in(p as int, Class::Attr)[m];
            a < dead.len() && dead[a as int]
        }
}

/// Can `body` be ignored when looking for uses of binding `b`?
pub open spec fn body_clear(t: &Tree, dead: Seq<bool>, b: BindSpec, body: usize) -> bool {
    ||| body == b.1
    ||| (body < dead.len() && dead[body as int])
    ||| dead_inherit(t, dead, body)
    ||| !uses(t, t.ident_text(b.0 as int), body)
}

/// Is binding `b` of scope `s` unused, given the declarations `dead`?
pub open spec fn unused(t: &Tree, dead: Seq<bool>, s: Scope, b: BindSpec) -> bool {
    forall|k: int| 0 <= k < bodies_of(t, s).len() ==> #[trigger] body_clear(t, dead, b, bodies_of(t, s)[k])
}

/// Shall binding `b` of scope `s` be reported, given the declarations `dead`?
pub open spec fn reportable(t: &Tree, st: Settings, dead: Seq<bool>, s: Scope, b: BindSpec) -> bool {
    unused(t, dead, s, b) || (st.warn_used_underscore && underscored(t.ident_text(b.0 as int)))
}

/// Do the settings, mortality and the pragma leave binding `b` of scope `s`
/// to be examined?
pub open spec fn eligible(t: &Tree, st: Settings, s: Scope, b: BindSpec) -> bool {
    &&& !(st.no_lambda_arg && s is LambdaArg)
    &&& !(st.no_underscore && underscored(t.ident_text(b.0 as int)))
    &&& !(st.no_lambda_pattern_names && pattern_names(t, s, t.ident_text(b.0 as int)))
    &&& b.2
    &&& !pragma_before(t, b.1 as int, 0)
}

/// Is `s` the scope of a node of `t`?
pub open spec fn scope_in_tree(t: &Tree, s: Scope) -> bool {
    exists|j: usize| j < t.len() && #[trigger] scope_of(t, j) == Some(s)
}

/// Is `b` an examined binding of the scope that node `j` opens: one that
/// settings, mortality and pragmas leave to be examined?
pub open spec fn candidate(t: &Tree, st: Settings, j: usize, b: BindSpec) -> bool {
    &&& j < t.len()
    &&& scope_of(t, j) is Some
    &&& bindings_of(t, scope_of(t, j)->0).contains(b)
    &&& eligible(t, st, scope_of(t, j)->0, b)
}

/// Is `f` a consistent set of dead declarations: does it hold declarations
/// of examined bindings only, each of them reportable given `f` itself?
pub open spec fn consistent(t: &Tree, st: Settings, f: Seq<bool>) -> bool {
    &&& f.len() == t.len()
    &&& forall|j: usize, b: BindSpec|
        #[trigger] candidate(t, st, j, b) && b.1 < f.len() && f[b.1 as int] ==> reportable(
            t,
            st,
            f,
            scope_of(t, j)->0,
            b,
        )
    &&& forall|d: int|
        0 <= d < f.len() && #[trigger] f[d] ==> exists|j: usize, b: BindSpec|
            #[trigger] candidate(t, st, j, b) && b.1 == d
}

/// Does `dead` contain every consistent set of dead declarations?
pub open spec fn greatest(t: &Tree, st: Settings, dead: Seq<bool>) -> bool {
    forall|f: Seq<bool>| #[trigger] consistent(t, st, f) ==> within(f, dead)
}

/// Is `rec` a record of an examined binding of the tree, declared by `d`?
pub open spec fn record_ok(t: &Tree, st: Settings, dead: Seq<bool>, rec: DeadCode, d: int) -> bool {
    &&& rec.binding.decl_node == d
    &&& d < t.len()
    &&& rec.binding.name.node < t.len()
    &&& scope_in_tree(t, rec.scope)
    &&& scope_ok(t, rec.scope)
    &&& bindings_of(t, rec.scope).contains(spec_of(rec.binding))
    &&& rec.binding.name.is_node_of(t, rec.binding.name.node as int)
    &&& eligible(t, st, rec.scope, spec_of(rec.binding))
}

proof fn lemma_count_false(s: Seq<bool>)
    requires
        forall|d: int| 0 <= d < s.len() ==> !s[d],
    ensures
        count_true(s) == 0,
    decreases s.len(),
{
    if s.len() > 0 {
        lemma_count_false(s.drop_last());
    }
}

/// `d1` is contained in `d2`.
pub open spec fn within(d1: Seq<bool>, d2: Seq<bool>) -> bool {
    d1.len() == d2.len() && forall|d: int| 0 <= d < d1.len() && #[trigger] d1[d] ==> d2[d]
}

/// Number of `true` in `s`.
pub open spec fn count_true(s: Seq<bool>) -> nat
    decreases s.len(),
{
    if s.len() == 0 {
        0
    } else {
        count_true(s.drop_last()) + if s.last() {
            1nat
        } else {
            0nat
        }
    }
}

proof fn lemma_count_true_set(s: Seq<bool>, d: int)
    requires
        0 <= d < s.len(),
        !s[d],
    ensures
        count_true(s.update(d, true)) == count_true(s) + 1,
    decreases s.len(),
{
    if d < s.len() - 1 {
        assert(s.update(d, true).drop_last() =~= s.drop_last().update(d, true));
        lemma_count_true_set(s.drop_last(), d);
    } else {
        assert(s.update(d, true).drop_last() =~= s.drop_last());
    }
}

proof fn lemma_count_true_clear(s: Seq<bool>, d: int)
    requires
        0 <= d < s.len(),
        s[d],
    ensures
        count_true(s.update(d, false)) + 1 == count_true(s),
    decreases s.len(),
{
    if d < s.len() - 1 {
        assert(s.update(d, false).drop_last() =~= s.drop_last().update(d, false));
        lemma_count_true_clear(s.drop_last(), d);
    } else {
        assert(s.update(d, false).drop_last() =~= s.drop_last());
    }
}

proof fn lemma_count_true_within(d1: Seq<bool>, d2: Seq<bool>)
    requires
        within(d1, d2),
    ensures
        count_true(d1) <= count_true(d2),
    decreases d1.len(),
{
    if d1.len() > 0 {
        lemma_count_true_within(d1.drop_last(), d2.drop_last());
    }
}

proof fn lemma_count_true_bound(s: Seq<bool>)
    ensures
        count_true(s) <= s.len(),
    decreases s.len(),
{
    if s.len() > 0 {
        lemma_count_true_bound(s.drop_last());
    }
}

/// More dead declarations leave a binding no less unused.
pub proof fn lemma_reportable_mono(t: &Tree, st: Settings, d1: Seq<bool>, d2: Seq<bool>, s: Scope, b: BindSpec)
    requires
        within(d1, d2),
        reportable(t, st, d1, s, b),
    ensures
        reportable(t, st, d2, s, b),
{
    if unused(t, d1, s, b) {
        assert forall|k: int| 0 <= k < bodies_of(t, s).len() implies #[trigger] body_clear(
            t,
            d2,
            b,
            bodies_of(t, s)[k],
        ) by {
            let body = bodies_of(t, s)[k];
            assert(body_clear(t, d1, b, body));
            if dead_inherit(t, d1, body) {
                let p = t.elems@[body as int].parent->0;
                assert forall|m: int| 0 <= m < t.children_in(p as int, Class::Attr).len() implies {
                    let a = #[trigger] t.children_in(p as int, Class::Attr)[m];
                    a < d2.len() && d2[a as int]
                } by {
                    let a = t.children_in(p as int, Class::Attr)[m];
                    assert(d1[a as int]);
                }
            }
        }
    }
}

/// The bookkeeping of the analysis: `dead` and `results` have a slot per
/// element, a declaration is dead exactly where it has a record, and every
/// record is that of an examined binding.
pub open spec fn tables_ok(t: &Tree, st: Settings, dead: Seq<bool>, results: Seq<Option<DeadCode>>) -> bool {
    &&& dead.len() == t.len()
    &&& results.len() == t.len()
    &&& forall|d: int| 0 <= d < dead.len() ==> (#[trigger] dead[d] <==> results[d] is Some)
    &&& forall|d: int| 0 <= d < results.len() && #[trigger] results[d] is Some ==> record_ok(t, st, dead, results[d]->0, d)
}

/// is node `body` the `(from)` of an inherit clause that contains only dead bindings?
fn is_dead_inherit(t: &Tree, dead: &Vec<bool>, body: usize) -> (r: bool)
    requires
        t.wf(),
        body < t.len(),
    ensures
        r == dead_inherit(t, dead@, body),
{
    if t.elems[body].is_token || t.elems[body].kind != NODE_INHERIT_FROM {
        return false;
    }
    match t.elems[body].parent {
        Some(p) => {
            proof {
                assert(t.elem_ok(body as int));
            }
            if t.elems[p].is_token || t.elems[p].kind != NODE_INHERIT {
                return false;
            }
            let attrs = t.children_exec(p, Class::Attr);
            let mut m: usize = 0;
            while m < attrs.len()
                invariant
                    attrs@ == t.children_in(p as int, Class::Attr),
                    m <= attrs.len(),
                    t.elems@[body as int].parent == Some(p),
                    t.is_a(body as int, Class::Node(NODE_INHERIT_FROM)),
                    t.is_a(p as int, Class::Node(NODE_INHERIT)),
                    forall|q: int| 0 <= q < m ==> {
                        let a = #[trigger] attrs@[q];
                        a < dead.len() && dead@[a as int]
                    },
                decreases attrs.len() - m,
            {
                let a = attrs[m];
                if a >= dead.len() || !dead[a] {
                    assert(t.children_in(p as int, Class::Attr)[m as int] == a);
                    return false;
                }
                m += 1;
            }
            true
        },
        None => false,
    }
}

/// Does record `a` come before record `b`: by the position of the name,
/// then by the declaration?
pub open spec fn name_before(a: DeadCode, b: DeadCode) -> bool {
    a.binding.name.start < b.binding.name.start || (a.binding.name.start == b.binding.name.start
        && a.binding.decl_node < b.binding.decl_node)
}

/// Are the records strictly ordered by the position of their names, then
/// by their declarations?
pub open spec fn sorted_by_name(r: Seq<DeadCode>) -> bool {
    forall|a: int, b: int| 0 <= a < b < r.len() ==> name_before(#[trigger] r[a], #[trigger] r[b])
}

/// The declarations that records `r` report, as a mask over `n` elements.
pub open spec fn decl_mask(r: Seq<DeadCode>, n: nat) -> Seq<bool> {
    Seq::new(n, |d: int| exists|k: int| 0 <= k < r.len() && (#[trigger] r[k]).binding.decl_node == d)
}

/// The report `r` on tree `t`: one record per declaration; each record is
/// that of an examined binding and says whether the binding is unused given them; the reported
/// declarations are consistent: every examined binding among them is
/// reportable given them; and they are the greatest such set.
pub open spec fn report_ok(t: &Tree, st: Settings, r: Seq<DeadCode>) -> bool {
    let dm = decl_mask(r, t.len() as nat);
    &&& forall|k: int|
        0 <= k < r.len() ==> record_ok(t, st, dm, #[trigger] r[k], r[k].binding.decl_node as int)
            && r[k].unused == unused(t, dm, r[k].scope, spec_of(r[k].binding))
    &&& forall|a: int, b: int|
        0 <= a < b < r.len() ==> (#[trigger] r[a]).binding.decl_node != (#[trigger] r[b]).binding.decl_node
    &&& consistent(t, st, dm)
    &&& greatest(t, st, dm)
}

proof fn lemma_insert_sorted(s: Seq<DeadCode>, pos: int, x: DeadCode)
    requires
        0 <= pos <= s.len(),
        sorted_by_name(s),
        forall|k: int| 0 <= k < pos ==> name_before(#[trigger] s[k], x),
        pos < s.len() ==> name_before(x, s[pos]),
    ensures
        sorted_by_name(s.insert(pos, x)),
{
    let out = s.insert(pos, x);
    assert forall|a: int, b: int| 0 <= a < b < out.len() implies name_before(#[trigger] out[a], #[trigger] out[b]) by {
        if b < pos {
            assert(out[a] == s[a] && out[b] == s[b]);
        } else if b == pos {
            assert(out[a] == s[a]);
        } else if a < pos {
            assert(out[a] == s[a] && out[b] == s[b - 1]);
            assert(name_before(s[pos], s[b - 1]) || pos == b - 1);
        } else if a == pos {
            assert(out[b] == s[b - 1]);
            assert(name_before(s[pos], s[b - 1]) || pos == b - 1);
        } else {
            assert(out[a] == s[a - 1] && out[b] == s[b - 1]);
        }
    }
}

proof fn lemma_insert_keeps(t: &Tree, st: Settings, dead: Seq<bool>, s: Seq<DeadCode>, pos: int, x: DeadCode, d: int)
    requires
        0 <= pos <= s.len(),
        forall|k: int|
            0 <= k < s.len() ==> record_ok(t, st, dead, #[trigger] s[k], s[k].binding.decl_node as int)
                && s[k].unused == unused(t, dead, s[k].scope, spec_of(s[k].binding))
                && s[k].binding.decl_node < d && dead[s[k].binding.decl_node as int],
        forall|a: int, b: int|
            0 <= a < b < s.len() ==> (#[trigger] s[a]).binding.decl_node != (#[trigger] s[b]).binding.decl_node,
        forall|q: int|
            0 <= q < d && #[trigger] dead[q] ==> exists|k: int|
                0 <= k < s.len() && (#[trigger] s[k]).binding.decl_node == q,
        record_ok(t, st, dead, x, d),
        x.unused == unused(t, dead, x.scope, spec_of(x.binding)),
        dead[d],
    ensures
        forall|k: int|
            0 <= k < s.insert(pos, x).len() ==> record_ok(t, st, dead, #[trigger] s.insert(pos, x)[k], s.insert(pos, x)[k].binding.decl_node as int)
                && s.insert(pos, x)[k].unused == unused(t, dead, s.insert(pos, x)[k].scope, spec_of(s.insert(pos, x)[k].binding))
                && s.insert(pos, x)[k].binding.decl_node < d + 1 && dead[s.insert(pos, x)[k].binding.decl_node as int],
        forall|a: int, b: int|
            0 <= a < b < s.insert(pos, x).len() ==> (#[trigger] s.insert(pos, x)[a]).binding.decl_node != (#[trigger] s.insert(pos, x)[b]).binding.decl_node,
        forall|q: int|
            0 <= q < d + 1 && #[trigger] dead[q] ==> exists|k: int|
                0 <= k < s.insert(pos, x).len() && (#[trigger] s.insert(pos, x)[k]).binding.decl_node == q,
{
    let out = s.insert(pos, x);
    assert forall|k: int| 0 <= k < out.len() implies record_ok(t, st, dead, #[trigger] out[k], out[k].binding.decl_node as int)
        && out[k].unused == unused(t, dead, out[k].scope, spec_of(out[k].binding))
        && out[k].binding.decl_node < d + 1 && dead[out[k].binding.decl_node as int] by {
        if k < pos {
            assert(out[k] == s[k]);
        } else if k > pos {
            assert(out[k] == s[k - 1]);
        }
    }
    assert forall|a: int, b: int| 0 <= a < b < out.len() implies (#[trigger] out[a]).binding.decl_node
        != (#[trigger] out[b]).binding.decl_node by {
        if a == pos {
            assert(out[b] == s[b - 1]);
        } else if b == pos {
            assert(out[a] == s[a]);
        } else {
            let a0 = if a < pos { a } else { a - 1 };
            let b0 = if b < pos { b } else { b - 1 };
            assert(out[a] == s[a0] && out[b] == s[b0]);
        }
    }
    assert forall|q: int| 0 <= q < d + 1 && #[trigger] dead[q] implies exists|k: int|
        0 <= k < out.len() && (#[trigger] out[k]).binding.decl_node == q by {
        if q == d {
            assert(out[pos].binding.decl_node == q);
        } else {
            let k0 = choose|k: int| 0 <= k < s.len() && (#[trigger] s[k]).binding.decl_node == q;
            if k0 < pos {
                assert(out[k0] == s[k0]);
            } else {
                assert(out[k0 + 1] == s[k0]);
            }
        }
    }
}

/// Do records `a` and `b` say the same: scope, binding, name and flag?
pub open spec fn same_record(a: DeadCode, b: DeadCode) -> bool {
    &&& a.scope == b.scope
    &&& spec_of(a.binding) == spec_of(b.binding)
    &&& a.binding.name.text@ == b.binding.name.text@
    &&& a.binding.name.start == b.binding.name.start
    &&& a.binding.name.end == b.binding.name.end
    &&& a.binding.name.char_start == b.binding.name.char_start
    &&& a.binding.name.char_end == b.binding.name.char_end
    &&& a.unused == b.unused
}

proof fn lemma_same_decl(t: &Tree, st: Settings, dm: Seq<bool>, a: DeadCode, b: DeadCode)
    requires
        t.wf(),
        a.binding.decl_node == b.binding.decl_node,
        record_ok(t, st, dm, a, a.binding.decl_node as int),
        record_ok(t, st, dm, b, b.binding.decl_node as int),
        a.unused == unused(t, dm, a.scope, spec_of(a.binding)),
        b.unused == unused(t, dm, b.scope, spec_of(b.binding)),
    ensures
        same_record(a, b),
{
    let ja = choose|j: usize| j < t.len() && #[trigger] scope_of(t, j) == Some(a.scope);
    let jb = choose|j: usize| j < t.len() && #[trigger] scope_of(t, j) == Some(b.scope);
    lemma_owner(t, ja, spec_of(a.binding));
    lemma_owner(t, jb, spec_of(b.binding));
}

/// Every record of `r1` has one of `r2` with its declaration.
proof fn lemma_matched(t: &Tree, st: Settings, r1: Seq<DeadCode>, r2: Seq<DeadCode>, i: int)
    requires
        t.wf(),
        report_ok(t, st, r1),
        report_ok(t, st, r2),
        decl_mask(r1, t.len() as nat) == decl_mask(r2, t.len() as nat),
        0 <= i < r1.len(),
    ensures
        exists|k: int| 0 <= k < r2.len() && same_record(r1[i], #[trigger] r2[k]) && r2[k].binding.decl_node
            == r1[i].binding.decl_node,
{
    let dm = decl_mask(r1, t.len() as nat);
    let d = r1[i].binding.decl_node as int;
    assert(record_ok(t, st, dm, r1[i], d));
    assert(dm[d]);
    assert(decl_mask(r2, t.len() as nat)[d]);
    let k = choose|k: int| 0 <= k < r2.len() && (#[trigger] r2[k]).binding.decl_node == d;
    assert(record_ok(t, st, dm, r2[k], d));
    lemma_same_decl(t, st, dm, r1[i], r2[k]);
}

proof fn lemma_prefix_same(t: &Tree, st: Settings, r1: Seq<DeadCode>, r2: Seq<DeadCode>, i: int)
    requires
        t.wf(),
        sorted_by_name(r1),
        sorted_by_name(r2),
        report_ok(t, st, r1),
        report_ok(t, st, r2),
        decl_mask(r1, t.len() as nat) == decl_mask(r2, t.len() as nat),
        0 <= i <= r1.len(),
        i <= r2.len(),
    ensures
        forall|q: int| 0 <= q < i ==> same_record(#[trigger] r1[q], r2[q]),
    decreases i,
{
    if i > 0 {
        let p = i - 1;
        lemma_prefix_same(t, st, r1, r2, p);
        lemma_matched(t, st, r1, r2, p);
        lemma_matched(t, st, r2, r1, p);
        let k = choose|k: int| 0 <= k < r2.len() && same_record(r1[p], #[trigger] r2[k]) && r2[k].binding.decl_node
            == r1[p].binding.decl_node;
        let k1 = choose|k: int| 0 <= k < r1.len() && same_record(r2[p], #[trigger] r1[k]) && r1[k].binding.decl_node
            == r2[p].binding.decl_node;
        if k < p {
            assert(same_record(r1[k], r2[k]));
        } else if k > p {
            if k1 < p {
                assert(same_record(r1[k1], r2[k1]));
            } else if k1 == p {
            } else {
                assert(name_before(r2[p], r2[k]));
                assert(name_before(r1[p], r1[k1]));
            }
        }
    }
}

/// The report is determined: two reports on one tree under one setting
/// that both meet the contract of [`Settings::find_dead_code`] hold the
/// same records, in the same order.
pub proof fn lemma_report_determined(t: &Tree, st: Settings, r1: Seq<DeadCode>, r2: Seq<DeadCode>)
    requires
        t.wf(),
        sorted_by_name(r1),
        report_ok(t, st, r1),
        sorted_by_name(r2),
        report_ok(t, st, r2),
    ensures
        r1.len() == r2.len(),
        forall|q: int| 0 <= q < r1.len() ==> same_record(#[trigger] r1[q], r2[q]),
{
    let d1 = decl_mask(r1, t.len() as nat);
    let d2 = decl_mask(r2, t.len() as nat);
    assert(within(d1, d2));
    assert(within(d2, d1));
    assert(d1 =~= d2);
    let n = if r1.len() <= r2.len() {
        r1.len() as int
    } else {
        r2.len() as int
    };
    lemma_prefix_same(t, st, r1, r2, n);
    if r1.len() > r2.len() {
        lemma_matched(t, st, r1, r2, n);
        let k = choose|k: int| 0 <= k < r2.len() && same_record(r1[n], #[trigger] r2[k]) && r2[k].binding.decl_node
            == r1[n].binding.decl_node;
        assert(same_record(r1[k], r2[k]));
    } else if r2.len() > r1.len() {
        lemma_matched(t, st, r2, r1, n);
        let k = choose|k: int| 0 <= k < r1.len() && same_record(r2[n], #[trigger] r1[k]) && r1[k].binding.decl_node
            == r2[n].binding.decl_node;
        assert(same_record(r1[k], r2[k]));
    }
}

/// Gather the records in order of their names, each with its `unused` flag
/// taken given the final `dead`.
fn collect(t: &Tree, st: Settings, dead: &Vec<bool>, results: &Vec<Option<DeadCode>>) -> (r: Vec<DeadCode>)
    requires
        t.wf(),
        tables_ok(t, st, dead@, results@),
        consistent(t, st, dead@),
        greatest(t, st, dead@),
    ensures
        sorted_by_name(r@),
        report_ok(t, st, r@),
{
    let n = results.len();
    let mut out: Vec<DeadCode> = Vec::new();
    let mut d: usize = 0;
    while d < n
        invariant
            t.wf(),
            n == t.len(),
            tables_ok(t, st, dead@, results@),
            d <= n,
            sorted_by_name(out@),
            forall|k: int|
                0 <= k < out.len() ==> record_ok(t, st, dead@, #[trigger] out@[k], out@[k].binding.decl_node as int)
                    && out@[k].unused == unused(t, dead@, out@[k].scope, spec_of(out@[k].binding))
                    && out@[k].binding.decl_node < d && dead@[out@[k].binding.decl_node as int],
            forall|a: int, b: int|
                0 <= a < b < out.len() ==> (#[trigger] out@[a]).binding.decl_node != (#[trigger] out@[b]).binding.decl_node,
            forall|q: int|
                0 <= q < d && #[trigger] dead@[q] ==> exists|k: int|
                    0 <= k < out.len() && (#[trigger] out@[k]).binding.decl_node == q,
        decreases n - d,
    {
        if let Some(rec) = &results[d] {
            proof {
                assert(record_ok(t, st, dead@, *rec, d as int));
            }
            let binding = Binding::new(
                Ident::from_node(t, rec.binding.name.node),
                rec.binding.decl_node,
                rec.binding.mortal,
            );
            let flag = st.is_unused(t, dead, &rec.scope, &binding);
            let fresh = DeadCode { scope: rec.scope, binding, unused: flag };
            assert(spec_of(fresh.binding) == spec_of(rec.binding));
            let start = fresh.binding.name.start;
            let mut pos: usize = 0;
            while pos < out.len() && out[pos].binding.name.start <= start
                invariant
                    pos <= out.len(),
                    forall|k: int| 0 <= k < pos ==> (#[trigger] out@[k]).binding.name.start <= start,
                decreases out.len() - pos,
            {
                pos += 1;
            }
            let ghost old_out = out@;
            proof {
                assert forall|k: int| 0 <= k < pos implies name_before(#[trigger] old_out[k], fresh) by {
                    assert(old_out[k].binding.decl_node < d);
                }
            }
            out.insert(pos, fresh);
            proof {
                lemma_insert_sorted(old_out, pos as int, fresh);
                lemma_insert_keeps(t, st, dead@, old_out, pos as int, fresh, d as int);
            }
        } else {
            assert(!dead@[d as int]);
        }
        d += 1;
    }
    proof {
        let dm = decl_mask(out@, t.len() as nat);
        assert forall|q: int| 0 <= q < t.len() implies dm[q] == dead@[q] by {
            if dead@[q] {
            } else {
                if exists|k: int| 0 <= k < out.len() && (#[trigger] out@[k]).binding.decl_node == q {
                    let k = choose|k: int| 0 <= k < out.len() && (#[trigger] out@[k]).binding.decl_node == q;
                    assert(record_ok(t, st, dead@, out@[k], out@[k].binding.decl_node as int));
                    assert(results@[q] is Some);
                }
            }
        }
        assert(dm =~= dead@);
    }
    out
}

impl Settings {
    /// Is binding `b` of `scope` unused, given `dead`?
    fn is_unused(&self, t: &Tree, dead: &Vec<bool>, scope: &Scope, b: &Binding) -> (r: bool)
        requires
            t.wf(),
            scope_ok(t, *scope),
            b.name.is_node_of(t, b.name.node as int),
        ensures
            r == unused(t, dead@, *scope, spec_of(*b)),
    {
        let bodies = scope.bodies(t);
        let mut k: usize = 0;
        while k < bodies.len()
            invariant
                t.wf(),
                bodies@ == bodies_of(t, *scope),
                forall|j: int| 0 <= j < bodies.len() ==> #[trigger] bodies@[j] < t.len(),
                b.name.is_node_of(t, b.name.node as int),
                k <= bodies.len(),
                forall|j: int| 0 <= j < k ==> #[trigger] body_clear(t, dead@, spec_of(*b), bodies@[j]),
            decreases bodies.len() - k,
        {
            let body = bodies[k];
            // remove this binding's own node, and already dead ones
            let clear = body == b.decl_node || (body < dead.len() && dead[body]) || is_dead_inherit(
                t,
                dead,
                body,
            ) || !find(t, &b.name, body);
            if !clear {
                assert(!body_clear(t, dead@, spec_of(*b), bodies@[k as int]));
                return false;
            }
            k += 1;
        }
        true
    }

    /// Is binding `b` of `scope` examined at all?
    fn is_eligible(&self, t: &Tree, scope: &Scope, b: &Binding) -> (r: bool)
        requires
            t.wf(),
            scope_ok(t, *scope),
            b.name.is_node_of(t, b.name.node as int),
            b.decl_node < t.len(),
        ensures
            r == eligible(t, *self, *scope, spec_of(*b)),
    {
        !(self.no_lambda_arg && scope.is_lambda_arg())
            && !(self.no_underscore && b.starts_with_underscore())
            && !(self.no_lambda_pattern_names && scope.is_lambda_pattern_name(t, &b.name))
            && b.is_mortal() && !b.has_pragma_skip(t)
    }

    /// Seeding, record binding `b` of `scope` as dead where it is examined;
    /// pruning, drop it where it is dead but not reportable given `dead`.
    fn step(
        &self,
        t: &Tree,
        seeding: bool,
        scope: &Scope,
        b: &Binding,
        dead: &mut Vec<bool>,
        results: &mut Vec<Option<DeadCode>>,
        count: &mut usize,
    )
        requires
            t.wf(),
            scope_ok(t, *scope),
            scope_in_tree(t, *scope),
            bindings_of(t, *scope).contains(spec_of(*b)),
            b.name.is_node_of(t, b.name.node as int),
            b.decl_node < t.len(),
            b.name.node < t.len(),
            tables_ok(t, *self, old(dead)@, old(results)@),
            *old(count) == count_true(old(dead)@),
        ensures
            tables_ok(t, *self, final(dead)@, final(results)@),
            *final(count) == count_true(final(dead)@),
            seeding ==> within(old(dead)@, final(dead)@),
            seeding && eligible(t, *self, *scope, spec_of(*b)) ==> final(dead)@[b.decl_node as int],
            !seeding ==> within(final(dead)@, old(dead)@),
            !seeding ==> (*final(count) == *old(count) <==> final(dead)@ == old(dead)@),
            !seeding && final(dead)@ == old(dead)@ && eligible(t, *self, *scope, spec_of(*b))
                && old(dead)@[b.decl_node as int] ==> reportable(t, *self, old(dead)@, *scope, spec_of(*b)),
            !seeding && greatest(t, *self, old(dead)@) ==> greatest(t, *self, final(dead)@),
    {
        let d = b.decl_node;
        if !self.is_eligible(t, scope, b) {
            return;
        }
        let ghost d0 = dead@;
        let ghost r0 = results@;
        if seeding {
            if !dead[d] {
                let rec = DeadCode {
                    scope: *scope,
                    binding: Binding::new(Ident::from_node(t, b.name.node), d, b.mortal),
                    unused: false,
                };
                dead[d] = true;
                results[d] = Some(rec);
                proof {
                    lemma_count_true_set(d0, d as int);
                    lemma_count_true_bound(dead@);
                    assert(spec_of(rec.binding) == spec_of(*b));
                    assert forall|q: int| 0 <= q < results@.len() && #[trigger] results@[q] is Some implies record_ok(
                        t,
                        *self,
                        dead@,
                        results@[q]->0,
                        q,
                    ) by {
                        if q != d {
                            assert(results@[q] == r0[q]);
                        }
                    }
                }
                let dl = dead.len();
                assert(*count + 1 <= dl);
                *count = *count + 1;
            }
        } else if dead[d] {
            let flag = self.is_unused(t, dead, scope, b);
            if !(flag || (self.warn_used_underscore && b.starts_with_underscore())) {
                dead[d] = false;
                results[d] = None;
                proof {
                    lemma_count_true_clear(d0, d as int);
                    assert(dead@ != d0) by {
                        assert(dead@[d as int] != d0[d as int]);
                    }
                    assert forall|q: int| 0 <= q < results@.len() && #[trigger] results@[q] is Some implies record_ok(
                        t,
                        *self,
                        dead@,
                        results@[q]->0,
                        q,
                    ) by {
                        assert(results@[q] == r0[q]);
                    }
                    assert forall|f: Seq<bool>| #[trigger] consistent(t, *self, f) && greatest(t, *self, d0) implies within(
                        f,
                        dead@,
                    ) by {
                        assert(within(f, d0));
                        if f[d as int] {
                            let j = choose|j: usize| j < t.len() && #[trigger] scope_of(t, j) == Some(*scope);
                            assert(candidate(t, *self, j, spec_of(*b)));
                            lemma_reportable_mono(t, *self, f, d0, *scope, spec_of(*b));
                        }
                    }
                }
                *count = *count - 1;
            }
        }
    }

    /// One pass over every examined binding of the tree.
    fn pass(
        &self,
        t: &Tree,
        seeding: bool,
        dead: &mut Vec<bool>,
        results: &mut Vec<Option<DeadCode>>,
        count: &mut usize,
    )
        requires
            t.wf(),
            tables_ok(t, *self, old(dead)@, old(results)@),
            *old(count) == count_true(old(dead)@),
        ensures
            tables_ok(t, *self, final(dead)@, final(results)@),
            *final(count) == count_true(final(dead)@),
            seeding ==> forall|j: usize, b: BindSpec|
                #[trigger] candidate(t, *self, j, b) ==> b.1 < final(dead)@.len() && final(dead)@[b.1 as int],
            !seeding ==> within(final(dead)@, old(dead)@),
            !seeding ==> (*final(count) == *old(count) <==> final(dead)@ == old(dead)@),
            !seeding && final(dead)@ == old(dead)@ ==> forall|j: usize, b: BindSpec|
                #[trigger] candidate(t, *self, j, b) && b.1 < final(dead)@.len() && final(dead)@[b.1 as int]
                    ==> reportable(t, *self, final(dead)@, scope_of(t, j)->0, b),
            !seeding && greatest(t, *self, old(dead)@) ==> greatest(t, *self, final(dead)@),
    {
        let ghost d0 = dead@;
        let ghost c0 = *count;
        let mut j: usize = 0;
        while j < t.elems.len()
            invariant
                t.wf(),
                tables_ok(t, *self, dead@, results@),
                *count == count_true(dead@),
                d0.len() == t.len(),
                c0 == count_true(d0),
                seeding ==> within(d0, dead@),
                seeding ==> forall|jj: usize, b: BindSpec|
                    jj < j && #[trigger] candidate(t, *self, jj, b) ==> b.1 < dead@.len() && dead@[b.1 as int],
                !seeding ==> within(dead@, d0),
                !seeding ==> (*count == c0 <==> dead@ == d0),
                !seeding && dead@ == d0 ==> forall|jj: usize, b: BindSpec|
                    jj < j && #[trigger] candidate(t, *self, jj, b) && b.1 < d0.len() && d0[b.1 as int]
                        ==> reportable(t, *self, d0, scope_of(t, jj)->0, b),
                !seeding && greatest(t, *self, d0) ==> greatest(t, *self, dead@),
            decreases t.elems.len() - j,
        {
            if let Some(scope) = Scope::new(t, j) {
                assert(scope_of(t, j) == Some(scope));
                let binds = scope.bindings(t);
                let ghost bs = bindings_of(t, scope);
                let mut k: usize = 0;
                while k < binds.len()
                    invariant
                        t.wf(),
                        j < t.len(),
                        scope_of(t, j) == Some(scope),
                        scope_ok(t, scope),
                        bs == bindings_of(t, scope),
                        binds_match(t, binds@, bs),
                        binds_in(t, binds@),
                        k <= binds.len(),
                        tables_ok(t, *self, dead@, results@),
                        *count == count_true(dead@),
                        d0.len() == t.len(),
                        c0 == count_true(d0),
                        seeding ==> within(d0, dead@),
                        seeding ==> forall|jj: usize, b: BindSpec|
                            jj < j && #[trigger] candidate(t, *self, jj, b) ==> b.1 < dead@.len() && dead@[b.1 as int],
                        seeding ==> forall|kk: int|
                            0 <= kk < k && eligible(t, *self, scope, #[trigger] bs[kk]) ==> bs[kk].1 < dead@.len()
                                && dead@[bs[kk].1 as int],
                        !seeding ==> within(dead@, d0),
                        !seeding ==> (*count == c0 <==> dead@ == d0),
                        !seeding && dead@ == d0 ==> forall|jj: usize, b: BindSpec|
                            jj < j && #[trigger] candidate(t, *self, jj, b) && b.1 < d0.len() && d0[b.1 as int]
                                ==> reportable(t, *self, d0, scope_of(t, jj)->0, b),
                        !seeding && dead@ == d0 ==> forall|kk: int|
                            0 <= kk < k && eligible(t, *self, scope, #[trigger] bs[kk]) && bs[kk].1 < d0.len()
                                && d0[bs[kk].1 as int] ==> reportable(t, *self, d0, scope, bs[kk]),
                        !seeding && greatest(t, *self, d0) ==> greatest(t, *self, dead@),
                    decreases binds.len() - k,
                {
                    let b = &binds[k];
                    proof {
                        assert(b.is_for(t, bs[k as int].0 as int, bs[k as int].1 as int, bs[k as int].2));
                        assert(spec_of(*b) == bs[k as int]);
                        assert(bs.contains(bs[k as int]));
                    }
                    let ghost dk = dead@;
                    let ghost ck = *count;
                    self.step(t, seeding, &scope, b, dead, results, count);
                    proof {
                        if !seeding {
                            lemma_count_true_within(dead@, dk);
                            lemma_count_true_within(dk, d0);
                            if *count == c0 {
                                assert(*count == ck);
                                assert(dead@ == dk);
                                assert(dk == d0);
                            }
                        }
                        if !seeding && dead@ == d0 {
                            assert(dk == d0) by {
                                assert(within(dead@, dk));
                                assert(within(dk, d0));
                                assert(dk =~= d0);
                            }
                        }
                    }
                    k += 1;
                }
                proof {
                    assert forall|b: BindSpec| #[trigger] candidate(t, *self, j, b) implies (seeding ==> b.1
                        < dead@.len() && dead@[b.1 as int]) && (!seeding && dead@ == d0 && b.1 < d0.len()
                        && d0[b.1 as int] ==> reportable(t, *self, d0, scope_of(t, j)->0, b)) by {
                        let kk = choose|kk: int| 0 <= kk < bs.len() && bs[kk] == b;
                        assert(eligible(t, *self, scope, bs[kk]));
                    }
                }
            }
            j += 1;
        }
    }

    /// Find unused bindings in the whole tree.
    ///
    /// Every examined binding starts out dead; then, pass after pass, a
    /// binding that a live part of the tree uses is found alive, until no
    /// more is. Bindings that only use each other stay dead.
    pub fn find_dead_code(&self, t: &Tree) -> (r: Vec<DeadCode>)
        requires
            t.wf(),
        ensures
            sorted_by_name(r@),
            report_ok(t, *self, r@),
    {
        let n = t.elems.len();
        let mut dead: Vec<bool> = Vec::new();
        let mut results: Vec<Option<DeadCode>> = Vec::new();
        let mut i: usize = 0;
        while i < n
            invariant
                n == t.len(),
                i <= n,
                dead.len() == i,
                results.len() == i,
                forall|d: int| 0 <= d < i ==> !(#[trigger] dead@[d]),
                forall|d: int| 0 <= d < i ==> (#[trigger] results@[d]) is None,
            decreases n - i,
        {
            dead.push(false);
            results.push(None);
            i += 1;
        }
        let mut count: usize = 0;
        proof {
            assert(dead@ =~= Seq::new(n as nat, |d: int| false));
            lemma_count_false(dead@);
        }
        self.pass(t, true, &mut dead, &mut results, &mut count);
        proof {
            assert forall|f: Seq<bool>| #[trigger] consistent(t, *self, f) implies within(f, dead@) by {
                assert forall|d: int| 0 <= d < f.len() && #[trigger] f[d] implies dead@[d] by {
                    let (j, b) = choose|j: usize, b: BindSpec| #[trigger] candidate(t, *self, j, b) && b.1 == d;
                }
            }
        }
        loop
            invariant
                t.wf(),
                tables_ok(t, *self, dead@, results@),
                greatest(t, *self, dead@),
                count == count_true(dead@),
            ensures
                tables_ok(t, *self, dead@, results@),
                greatest(t, *self, dead@),
                forall|j: usize, b: BindSpec|
                    #[trigger] candidate(t, *self, j, b) && b.1 < dead@.len() && dead@[b.1 as int]
                        ==> reportable(t, *self, dead@, scope_of(t, j)->0, b),
            decreases count,
        {
            let before = count;
            let ghost d_before = dead@;
            self.pass(t, false, &mut dead, &mut results, &mut count);
            proof {
                lemma_count_true_within(dead@, d_before);
            }
            if count == before {
                break;
            }
        }
        proof {
            assert forall|d: int| 0 <= d < dead@.len() && #[trigger] dead@[d] implies exists|j: usize, b: BindSpec|
                #[trigger] candidate(t, *self, j, b) && b.1 == d by {
                let rec = results@[d]->0;
                assert(record_ok(t, *self, dead@, rec, d));
                let j = choose|j: usize| j < t.len() && #[trigger] scope_of(t, j) == Some(rec.scope);
                assert(candidate(t, *self, j, spec_of(rec.binding)));
            }
            assert(consistent(t, *self, dead@));
        }
        collect(t, *self, &dead, &results)
    }
}

} // verus!
