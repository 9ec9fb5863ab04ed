//! Finding out whether a name is used in a subtree.
use vstd::prelude::*;
use crate::binding::Ident;
use crate::scope::{
    anchor, binds_match, bindings_of, bodies_of, inherit_clauses, inherit_site, scope_of, Scope,
};
use crate::syntax::{Class, Tree, NODE_ATTRPATH, NODE_IDENT, NODE_INHERIT_FROM};

verus! {

/// Is `name` used in the subtree of element `i`?
///
/// A scope that `inherit`s the name uses it; one that declares the name
/// again shadows it; otherwise its bodies are searched. An identifier uses
/// the name it spells. In an attribute path only `${...}` and string keys
/// are searched: plain keys name attributes, not variables.
pub open spec fn uses(t: &Tree, name: Seq<char>, i: usize) -> bool
    decreases t.len() - i, 1int, 0int,
{
    if i >= t.len() {
        false
    } else {
        match scope_of(t, i) {
            Some(s) => {
                let bs = bindings_of(t, s);
                if used_in_any(t, name, inherit_sites(t, s), i, 0) {
                    true
                } else if exists|k: int|
                    0 <= k < bs.len() && #[trigger] t.ident_text(bs[k].0 as int) == name {
                    false
                } else {
                    used_in_any(t, name, bodies_of(t, s), i, 0)
                }
            },
            None => {
                if t.is_a(i as int, Class::Node(NODE_IDENT)) {
                    t.ident_text(i as int) == name
                } else if t.is_a(i as int, Class::Node(NODE_ATTRPATH)) {
                    used_in_any(t, name, t.children_in(i as int, Class::Splice), i, 0)
                } else {
                    used_in_any(t, name, t.children_in(i as int, Class::AnyNode), i, 0)
                }
            },
        }
    }
}

/// Is `name` used in one of the subtrees `s[k..]` (those after `i`)?
pub open spec fn used_in_any(t: &Tree, name: Seq<char>, s: Seq<usize>, i: usize, k: int) -> bool
    decreases t.len() - i, 0int, s.len() - k,
{
    if k < 0 || k >= s.len() {
        false
    } else {
        (i < s[k] < t.len() && uses(t, name, s[k])) || used_in_any(t, name, s, i, k + 1)
    }
}

/// Where the `inherit` clauses of a scope look up their names.
pub open spec fn inherit_sites(t: &Tree, s: Scope) -> Seq<usize> {
    inherit_clauses(t, s).map_values(|c: usize| inherit_site(t, c))
}

/// At the node that opens it, a scope's `inherit` clauses are searched as
/// [`uses`] searches them.
proof fn lemma_inherits_at(t: &Tree, i: usize, s: Scope, name: Seq<char>)
    requires
        i < t.len(),
        scope_of(t, i) == Some(s),
    ensures
        s.inherits_spec(t, name) == used_in_any(t, name, inherit_sites(t, s), i, 0),
{
    match s {
        Scope::LetIn(n) => assert(n == i),
        Scope::RecAttrSet(n) => assert(n == i),
        _ => {
            assert(inherit_sites(t, s).len() == 0);
        },
    }
}

/// A use in one of the subtrees `s[j]` is a use in `s[k..]` for `k <= j`.
pub proof fn lemma_used_in_any_at(t: &Tree, name: Seq<char>, s: Seq<usize>, i: usize, k: int, j: int)
    requires
        0 <= k <= j < s.len(),
        i < s[j] < t.len(),
        uses(t, name, s[j]),
    ensures
        used_in_any(t, name, s, i, k),
    decreases j - k,
{
    if k < j {
        lemma_used_in_any_at(t, name, s, i, k + 1, j);
    }
}

/// Shadowing: a scope that declares `name` again, and does not `inherit`
/// it, hides every use of the outer `name` inside it.
pub proof fn lemma_shadowing(t: &Tree, name: Seq<char>, i: usize, k: int)
    requires
        i < t.len(),
        scope_of(t, i) is Some,
        !(scope_of(t, i)->0).inherits_spec(t, name),
        0 <= k < bindings_of(t, scope_of(t, i)->0).len(),
        t.ident_text(bindings_of(t, scope_of(t, i)->0)[k].0 as int) == name,
    ensures
        !uses(t, name, i),
{
    lemma_inherits_at(t, i, scope_of(t, i)->0, name);
}

/// Inherit is not shadowing: `inherit name;` in a scope uses the outer
/// `name`, though it declares `name` in that scope too.
pub proof fn lemma_inherit_uses(t: &Tree, name: Seq<char>, i: usize, m: int, a: usize)
    requires
        t.wf(),
        i < t.len(),
        scope_of(t, i) is Some,
        0 <= m < inherit_clauses(t, scope_of(t, i)->0).len(),
        t.first_child(inherit_clauses(t, scope_of(t, i)->0)[m] as int, Class::Node(NODE_INHERIT_FROM))
            is None,
        t.children_in(inherit_clauses(t, scope_of(t, i)->0)[m] as int, Class::AnyNode).contains(a),
        t.is_a(a as int, Class::Node(NODE_IDENT)),
        t.ident_text(a as int) == name,
    ensures
        uses(t, name, i),
{
    let s = scope_of(t, i)->0;
    let cs = inherit_clauses(t, s);
    let c = cs[m];
    let n = match s {
        Scope::LetIn(n) => n,
        Scope::RecAttrSet(n) => n,
        _ => i,
    };
    assert(n == i);
    assert(cs == t.children_in(i as int, Class::Node(crate::syntax::NODE_INHERIT)));
    t.lemma_select_in(t.kids(i as int), t.kids(i as int).len() as int, Class::Node(crate::syntax::NODE_INHERIT));
    assert(cs[m] == c);
    t.lemma_child_after(i as int, c);
    let kids = t.children_in(c as int, Class::AnyNode);
    let j = choose|j: int| 0 <= j < kids.len() && kids[j] == a;
    t.lemma_select_in(t.kids(c as int), t.kids(c as int).len() as int, Class::AnyNode);
    assert(kids[j] == a);
    t.lemma_child_after(c as int, a);
    assert(scope_of(t, a) is None);
    assert(uses(t, name, a));
    assert(scope_of(t, c) is None);
    lemma_used_in_any_at(t, name, kids, c, 0, j);
    assert(uses(t, name, c));
    assert(inherit_site(t, c) == c);
    let sites = inherit_sites(t, s);
    assert(sites[m] == c);
    lemma_used_in_any_at(t, name, sites, i, 0, m);
}

/// Attribute paths: in an attribute path only `${...}` and string keys are
/// searched, so a path of plain identifier keys uses no name.
pub proof fn lemma_attrpath_keys(t: &Tree, name: Seq<char>, i: usize)
    requires
        i < t.len(),
        t.is_a(i as int, Class::Node(NODE_ATTRPATH)),
    ensures
        uses(t, name, i) == used_in_any(t, name, t.children_in(i as int, Class::Splice), i, 0),
        t.children_in(i as int, Class::Splice).len() == 0 ==> !uses(t, name, i),
{
}

/// Find out if `name` is used in any of the subtrees `s` after `i`.
pub(crate) fn find_any(t: &Tree, name: &Ident, s: &Vec<usize>, i: usize) -> (r: bool)
    requires
        t.wf(),
        i < t.len(),
    ensures
        r == used_in_any(t, name.text@, s@, i, 0),
    decreases t.len() - i, 0int, s@.len() + 1,
{
    let mut k: usize = 0;
    while k < s.len()
        invariant
            t.wf(),
            i < t.len(),
            k <= s.len(),
            used_in_any(t, name.text@, s@, i, 0) == used_in_any(t, name.text@, s@, i, k as int),
        decreases s.len() - k,
    {
        let c = s[k];
        if i < c && c < t.elems.len() && find(t, name, c) {
            return true;
        }
        k += 1;
    }
    false
}

/// Find out if `name` is used in the subtree of element `i`.
pub fn find(t: &Tree, name: &Ident, i: usize) -> (r: bool)
    requires
        t.wf(),
        i < t.len(),
    ensures
        r == uses(t, name.text@, i),
    decreases t.len() - i, 1int, 0int,
{
    if let Some(scope) = Scope::new(t, i) {
        proof {
            lemma_inherits_at(t, i, scope, name.text@);
        }
        if scope.inherits_from(t, name) {
            return true;
        }
        let binds = scope.bindings(t);
        let ghost bs = bindings_of(t, scope);
        let mut k: usize = 0;
        while k < binds.len()
            invariant
                t.wf(),
                binds_match(t, binds@, bs),
                k <= binds.len(),
                forall|j: int| 0 <= j < k ==> #[trigger] t.ident_text(bs[j].0 as int) != name.text@,
                i < t.len(),
                scope_of(t, i) == Some(scope),
                bs == bindings_of(t, scope),
                !used_in_any(t, name.text@, inherit_sites(t, scope), i, 0),
            decreases binds.len() - k,
        {
            assert(binds@[k as int].is_for(t, bs[k as int].0 as int, bs[k as int].1 as int, bs[k as int].2));
            if binds[k].name.text == name.text {
                assert(t.ident_text(bs[k as int].0 as int) == name.text@);
                // shadowed by a new child scope that redefines the
                // variable with the same name
                return false;
            }
            k += 1;
        }
        let bodies = scope.bodies(t);
        find_any(t, name, &bodies, i)
    } else if !t.elems[i].is_token && t.elems[i].kind == NODE_IDENT {
        t.ident_is(i, &name.text)
    } else if !t.elems[i].is_token && t.elems[i].kind == NODE_ATTRPATH {
        // Only `${...}` and `"..."` keys hold expressions; plain keys
        // name attributes.
        let kids = t.children_exec(i, Class::Splice);
        find_any(t, name, &kids, i)
    } else {
        let kids = t.children_exec(i, Class::AnyNode);
        find_any(t, name, &kids, i)
    }
}

} // verus!
