//! Removing dead code from the source text.
use vstd::prelude::*;
use vstd::multiset::Multiset;
use vstd::string::StrSliceExecFns;
use vstd::string::StringExecFns;
use crate::dead_code::DeadCode;
use vstd::utf8::encode_utf8;
use crate::scope::{scope_ok, Scope};
use crate::syntax::{
    elem_views, nix_parse, parse, tree_of_walk, walk_ok, Class, Tree, MAX_SOURCE_BYTES,
    NODE_ATTRPATH_VALUE, NODE_ATTR_SET, NODE_IDENT, NODE_INHERIT, NODE_LET_IN, NODE_PATTERN,
    NODE_PAT_BIND, TOKEN_COMMA, TOKEN_WHITESPACE,
};

verus! {

/// Replace the characters `start..end` of a text by `replacement`.
pub struct Edit {
    pub start: usize,
    pub end: usize,
    pub replacement: String,
}

/// An edit as plain values: (start, end, replacement).
pub type EditView = (usize, usize, Seq<char>);

pub open spec fn view_of(e: Edit) -> EditView {
    (e.start, e.end, e.replacement@)
}

pub open spec fn views(es: Seq<Edit>) -> Seq<EditView> {
    es.map_values(|e: Edit| view_of(e))
}

pub open spec fn min(a: int, b: int) -> int {
    if a <= b {
        a
    } else {
        b
    }
}

pub open spec fn max(a: int, b: int) -> int {
    if a >= b {
        a
    } else {
        b
    }
}

/// Does `es[k]` cover characters, and is it followed by an edit with the
/// same start? Sorted by end, that one is at least as wide, overlaps it, and
/// wins. An edit that covers nothing overlaps nothing and stays.
pub open spec fn outgrown(es: Seq<EditView>, k: int) -> bool {
    k + 1 < es.len() && es[k].0 < es[k].1 && es[k + 1].0 == es[k].0
}

/// The text `src` from `pos` on, with the edits `es[k..]` applied in one
/// sweep: the text up to an edit's start, its replacement, then on from its
/// end. Of edits with the same start only the last, the widest, applies; an
/// edit that ends before the sweep has come is skipped; offsets are cut to
/// the text.
pub open spec fn applied(src: Seq<char>, es: Seq<EditView>, k: int, pos: int) -> Seq<char>
    decreases es.len() - k,
{
    if k < 0 || k >= es.len() || pos < 0 || pos > src.len() {
        src.subrange(min(max(pos, 0), src.len() as int), src.len() as int)
    } else {
        let e = es[k];
        if pos <= e.1 && !outgrown(es, k) {
            let lo = max(pos, min(e.0 as int, src.len() as int));
            let hi = min(e.1 as int, src.len() as int);
            src.subrange(pos, lo) + e.2 + applied(src, es, k + 1, hi)
        } else {
            applied(src, es, k + 1, pos)
        }
    }
}

/// Apply `edits`, sorted by start, to `src`.
pub fn apply_edits(src: &str, edits: &Vec<Edit>) -> (r: String)
    ensures
        r@ == applied(src@, views(edits@), 0, 0),
{
    let n = src.unicode_len();
    let ghost es = views(edits@);
    let mut pos: usize = 0;
    let mut result = String::new();
    let mut k: usize = 0;
    while k < edits.len()
        invariant
            n == src@.len(),
            es == views(edits@),
            k <= edits.len(),
            pos <= n,
            result@ + applied(src@, es, k as int, pos as int) == applied(src@, es, 0, 0),
        decreases edits.len() - k,
    {
        let e = &edits[k];
        assert(es[k as int] == view_of(*e));
        let outgrown = k + 1 < edits.len() && e.start < e.end && edits[k + 1].start == e.start;
        proof {
            if k + 1 < edits.len() {
                assert(es[k + 1] == view_of(edits@[k + 1]));
            }
        }
        if pos <= e.end && !outgrown {
            let s = if e.start < n {
                e.start
            } else {
                n
            };
            let lo = if s > pos {
                s
            } else {
                pos
            };
            let hi = if e.end < n {
                e.end
            } else {
                n
            };
            let ghost before = result@;
            result.append(src.substring_char(pos, lo));
            result.append(e.replacement.as_str());
            assert(result@ + applied(src@, es, k + 1, hi as int) =~= before + applied(src@, es, k as int, pos as int));
            pos = hi;
        }
        k += 1;
    }
    let ghost before = result@;
    result.append(src.substring_char(pos, n));
    assert(result@ =~= before + applied(src@, es, k as int, pos as int));
    result
}

/// Are the edits `es[k..]` in order and apart, each
/// after `from` and
/// inside a text of length `n`?
pub open spec fn edits_apart(es: Seq<EditView>, k: int, from: int, n: int) -> bool
    decreases es.len() - k,
{
    if k < 0 || k >= es.len() {
        0 <= from <= n
    } else {
        &&& 0 <= from <= es[k].0 <= es[k].1 <= n
        &&& edits_apart(es, k + 1, es[k].1 as int, n)
    }
}

/// The text that edits `es[k..]` keep, from `from` on: what lies outside
/// their ranges.
pub open spec fn kept(src: Seq<char>, es: Seq<EditView>, k: int, from: int) -> Seq<char>
    decreases es.len() - k,
{
    if k < 0 || k >= es.len() {
        src.subrange(from, src.len() as int)
    } else {
        src.subrange(from, es[k].0 as int) + kept(src, es, k + 1, es[k].1 as int)
    }
}

/// The replacements of edits `es[k..]`, one after the other.
pub open spec fn replacements(es: Seq<EditView>, k: int) -> Seq<char>
    decreases es.len() - k,
{
    if k < 0 || k >= es.len() {
        Seq::empty()
    } else {
        es[k].2 + replacements(es, k + 1)
    }
}

/// Non-destructive editing: with edits in order and apart, the text outside
/// their ranges is kept in order between the replacements, so that the
/// characters of the result are those kept together with those of the
/// replacements, and so many.
pub proof fn lemma_edits_keep_rest(src: Seq<char>, es: Seq<EditView>, k: int, from: int)
    requires
        0 <= k <= es.len(),
        edits_apart(es, k, from, src.len() as int),
    ensures
        applied(src, es, k, from) == if k < es.len() {
            src.subrange(from, es[k].0 as int) + es[k].2 + applied(src, es, k + 1, es[k].1 as int)
        } else {
            src.subrange(from, src.len() as int)
        },
        applied(src, es, k, from).to_multiset() == kept(src, es, k, from).to_multiset().add(
            replacements(es, k).to_multiset(),
        ),
        applied(src, es, k, from).len() == kept(src, es, k, from).len() + replacements(es, k).len(),
    decreases es.len() - k,
{
    broadcast use vstd::seq_lib::group_to_multiset_ensures;
    if k < es.len() {
        lemma_edits_keep_rest(src, es, k + 1, es[k].1 as int);
        let a = src.subrange(from, es[k].0 as int);
        let r = es[k].2;
        let rest = applied(src, es, k + 1, es[k].1 as int);
        vstd::seq_lib::lemma_multiset_commutative(a + r, rest);
        vstd::seq_lib::lemma_multiset_commutative(a, r);
        vstd::seq_lib::lemma_multiset_commutative(a, kept(src, es, k + 1, es[k].1 as int));
        vstd::seq_lib::lemma_multiset_commutative(r, replacements(es, k + 1));
        assert(kept(src, es, k, from) == a + kept(src, es, k + 1, es[k].1 as int));
        assert(replacements(es, k) == r + replacements(es, k + 1));
        assert(applied(src, es, k, from) == a + r + rest);
        assert(applied(src, es, k, from).to_multiset() =~= kept(src, es, k, from).to_multiset().add(
            replacements(es, k).to_multiset(),
        ));
    } else {
        assert(replacements(es, k) =~= Seq::<char>::empty());
        assert(replacements(es, k).to_multiset() =~= Multiset::<char>::empty());
        assert(applied(src, es, k, from).to_multiset() =~= kept(src, es, k, from).to_multiset().add(
            replacements(es, k).to_multiset(),
        ));
    }
}

/// The first index of `x` in `s[k..]`, or -1.
pub open spec fn first_index(s: Seq<usize>, x: usize, k: int) -> int
    decreases s.len() - k,
{
    if k < 0 || k >= s.len() {
        -1
    } else if s[k] == x {
        k
    } else {
        first_index(s, x, k + 1)
    }
}

fn index_of(s: &Vec<usize>, x: usize) -> (r: Option<usize>)
    ensures
        match r {
            Some(i) => i as int == first_index(s@, x, 0) && i < s.len(),
            None => first_index(s@, x, 0) == -1,
        },
{
    let mut k: usize = 0;
    while k < s.len()
        invariant
            k <= s.len(),
            first_index(s@, x, 0) == first_index(s@, x, k as int),
        decreases s.len() - k,
    {
        if s[k] == x {
            return Some(k);
        }
        k += 1;
    }
    None
}

/// The element before `x` among its parent's children.
pub open spec fn prev_sib(t: &Tree, x: usize) -> Option<usize> {
    match t.elems@[x as int].parent {
        Some(p) => {
            let i = first_index(t.kids(p as int), x, 0);
            if i > 0 {
                Some(t.kids(p as int)[i - 1])
            } else {
                None
            }
        },
        None => None,
    }
}

/// The element after `x` among its parent's children.
pub open spec fn next_sib(t: &Tree, x: usize) -> Option<usize> {
    match t.elems@[x as int].parent {
        Some(p) => {
            let i = first_index(t.kids(p as int), x, 0);
            if 0 <= i && i + 1 < t.kids(p as int).len() {
                Some(t.kids(p as int)[i + 1])
            } else {
                None
            }
        },
        None => None,
    }
}

pub open spec fn is_ws(t: &Tree, y: usize) -> bool {
    t.is_a(y as int, Class::Token(TOKEN_WHITESPACE))
}

/// `start`, moved back over whitespace just before `x`.
pub open spec fn ws_start(t: &Tree, x: usize, start: usize) -> usize {
    match prev_sib(t, x) {
        Some(y) => if is_ws(t, y) {
            t.elems@[y as int].char_start
        } else {
            start
        },
        None => start,
    }
}

/// `end`, moved on over whitespace just after `x`.
pub open spec fn ws_end(t: &Tree, x: usize, end: usize) -> usize {
    match next_sib(t, x) {
        Some(y) => if is_ws(t, y) {
            t.elems@[y as int].char_end
        } else {
            end
        },
        None => end,
    }
}

fn prev_sibling(t: &Tree, x: usize) -> (r: Option<usize>)
    requires
        t.wf(),
        x < t.len(),
    ensures
        r == prev_sib(t, x),
        r matches Some(y) ==> y < t.len(),
{
    proof {
        assert(t.elem_ok(x as int));
    }
    match t.elems[x].parent {
        Some(p) => {
            proof {
                assert(t.elem_ok(p as int));
            }
            match index_of(&t.elems[p].children, x) {
                Some(i) => if i > 0 {
                    Some(t.elems[p].children[i - 1])
                } else {
                    None
                },
                None => None,
            }
        },
        None => None,
    }
}

fn next_sibling(t: &Tree, x: usize) -> (r: Option<usize>)
    requires
        t.wf(),
        x < t.len(),
    ensures
        r == next_sib(t, x),
        r matches Some(y) ==> y < t.len(),
{
    proof {
        assert(t.elem_ok(x as int));
    }
    match t.elems[x].parent {
        Some(p) => {
            proof {
                assert(t.elem_ok(p as int));
            }
            match index_of(&t.elems[p].children, x) {
                Some(i) => if i + 1 < t.elems[p].children.len() {
                    Some(t.elems[p].children[i + 1])
                } else {
                    None
                },
                None => None,
            }
        },
        None => None,
    }
}

fn start_before_ws(t: &Tree, x: usize, start: usize) -> (r: usize)
    requires
        t.wf(),
        x < t.len(),
    ensures
        r == ws_start(t, x, start),
{
    match prev_sibling(t, x) {
        Some(y) => if t.elems[y].is_token && t.elems[y].kind == TOKEN_WHITESPACE {
            t.elems[y].char_start
        } else {
            start
        },
        None => start,
    }
}

/// Where the removal of a pattern entry ends, given that it ends at `end`
/// before `kids[k]`: on over whitespace, and over one comma after it.
pub open spec fn entry_end(t: &Tree, kids: Seq<usize>, k: int, end: usize) -> usize
    decreases kids.len() - k,
{
    if k < 0 || k >= kids.len() {
        end
    } else if t.is_a(kids[k] as int, Class::Token(TOKEN_COMMA)) {
        t.elems@[kids[k] as int].char_end
    } else if is_ws(t, kids[k]) {
        entry_end(t, kids, k + 1, t.elems@[kids[k] as int].char_end)
    } else {
        end
    }
}

/// Is `d` the identifier of the `@` binding of pattern `p`?
pub open spec fn is_at_bind(t: &Tree, p: usize, d: usize) -> bool {
    t.first_child(p as int, Class::Node(NODE_PAT_BIND)) matches Some(pb) && t.first_child(
        pb as int,
        Class::Node(NODE_IDENT),
    ) == Some(d)
}

/// Is `d` an entry or an inherited name of `let` node `n`?
pub open spec fn let_entry(t: &Tree, n: usize, d: usize) -> bool {
    ||| t.children_in(n as int, Class::Node(NODE_ATTRPATH_VALUE)).contains(d)
    ||| exists|c: usize|
        #[trigger] t.children_in(n as int, Class::Node(NODE_INHERIT)).contains(c) && t.children_in(
            c as int,
            Class::Attr,
        ).contains(d)
}

/// Does the scope of record `dc` belong to tree `t`, with its declaration?
pub open spec fn record_in(t: &Tree, dc: DeadCode) -> bool {
    dc.binding.decl_node < t.len() && scope_ok(t, dc.scope)
}

/// The edit that removes the binding of record `dc`, if any:
/// - a pattern entry goes with the whitespace after it, up to and with a
///   comma;
/// - an `@` binding goes with the whitespace after it;
/// - a lambda argument is renamed to start with `_`;
/// - a `let` entry or inherited name goes;
/// - bindings of `rec { ... }` stay.
/// Each removal also takes the whitespace just before what it removes.
pub open spec fn edit_for(t: &Tree, dc: DeadCode) -> Option<EditView> {
    let d = dc.binding.decl_node;
    if !record_in(t, dc) {
        None
    } else {
        let e = t.elems@[d as int];
        match dc.scope {
            Scope::LambdaPattern(p, _) => if is_at_bind(t, p, d) {
                let pb = t.first_child(p as int, Class::Node(NODE_PAT_BIND))->0;
                let pe = t.elems@[pb as int];
                Some((ws_start(t, pb, pe.char_start), ws_end(t, pb, pe.char_end), Seq::empty()))
            } else {
                let kids = t.kids(p as int);
                let i = first_index(kids, d, 0);
                if i < 0 {
                    None
                } else {
                    Some((ws_start(t, d, e.char_start), entry_end(t, kids, i + 1, e.char_end), Seq::empty()))
                }
            },
            Scope::LambdaArg(n, _) => Some((e.char_start, e.char_end, "_"@ + t.ident_text(n as int))),
            Scope::LetIn(n) => if let_entry(t, n, d) {
                Some((ws_start(t, d, e.char_start), e.char_end, Seq::empty()))
            } else {
                None
            },
            Scope::RecAttrSet(_) => None,
        }
    }
}

fn scope_valid(t: &Tree, s: &Scope) -> (r: bool)
    requires
        t.wf(),
    ensures
        r == scope_ok(t, *s),
{
    let n = t.elems.len();
    match s {
        Scope::LambdaPattern(p, b) => *p < n && !t.elems[*p].is_token && t.elems[*p].kind == NODE_PATTERN
            && *b < n,
        Scope::LambdaArg(i, b) => *i < n && !t.elems[*i].is_token && t.elems[*i].kind == NODE_IDENT
            && *b < n,
        Scope::LetIn(i) => *i < n && !t.elems[*i].is_token && t.elems[*i].kind == NODE_LET_IN,
        Scope::RecAttrSet(i) => *i < n && !t.elems[*i].is_token && t.elems[*i].kind == NODE_ATTR_SET,
    }
}

fn contains(s: &Vec<usize>, x: usize) -> (r: bool)
    ensures
        r == s@.contains(x),
{
    let mut k: usize = 0;
    while k < s.len()
        invariant
            k <= s.len(),
            forall|j: int| 0 <= j < k ==> s@[j] != x,
        decreases s.len() - k,
    {
        if s[k] == x {
            assert(s@[k as int] == x);
            return true;
        }
        k += 1;
    }
    false
}

fn is_let_entry(t: &Tree, n: usize, d: usize) -> (r: bool)
    requires
        t.wf(),
        n < t.len(),
    ensures
        r == let_entry(t, n, d),
{
    let vs = t.children_exec(n, Class::Node(NODE_ATTRPATH_VALUE));
    if contains(&vs, d) {
        return true;
    }
    let cs = t.children_exec(n, Class::Node(NODE_INHERIT));
    let mut k: usize = 0;
    while k < cs.len()
        invariant
            t.wf(),
            cs@ == t.children_in(n as int, Class::Node(NODE_INHERIT)),
            forall|j: int| 0 <= j < cs.len() ==> #[trigger] cs@[j] < t.len(),
            k <= cs.len(),
            forall|j: int| 0 <= j < k ==> !t.children_in(#[trigger] cs@[j] as int, Class::Attr).contains(d),
        decreases cs.len() - k,
    {
        let attrs = t.children_exec(cs[k], Class::Attr);
        if contains(&attrs, d) {
            assert(cs@.contains(cs@[k as int]));
            return true;
        }
        k += 1;
    }
    proof {
        assert forall|c: usize|
            #[trigger] t.children_in(n as int, Class::Node(NODE_INHERIT)).contains(c) implies !t.children_in(
            c as int,
            Class::Attr,
        ).contains(d) by {
            let j = choose|j: int| 0 <= j < cs.len() && cs@[j] == c;
            assert(!t.children_in(cs@[j] as int, Class::Attr).contains(d));
        }
    }
    false
}

/// The edit that removes the binding of `dc`, if any.
fn dead_to_edit(t: &Tree, dc: &DeadCode) -> (r: Option<Edit>)
    requires
        t.wf(),
    ensures
        match r {
            Some(e) => edit_for(t, *dc) == Some(view_of(e)),
            None => edit_for(t, *dc) is None,
        },
{
    let d = dc.binding.decl_node;
    if d >= t.elems.len() || !scope_valid(t, &dc.scope) {
        return None;
    }
    let start = t.elems[d].char_start;
    let end = t.elems[d].char_end;
    match dc.scope {
        Scope::LambdaPattern(p, b) => {
            let mut at_bind: Option<usize> = None;
            if let Some(pb) = t.first_child_exec(p, Class::Node(NODE_PAT_BIND)) {
                if let Some(id) = t.first_child_exec(pb, Class::Node(NODE_IDENT)) {
                    if id == d {
                        at_bind = Some(pb);
                    }
                }
            }
            if let Some(pb) = at_bind {
                // `dead @ { ... }`, `{ ... } @ dead` forms; also remove
                // trailing whitespace for this form
                let mut e_end = t.elems[pb].char_end;
                if let Some(next) = next_sibling(t, pb) {
                    if t.elems[next].is_token && t.elems[next].kind == TOKEN_WHITESPACE {
                        e_end = t.elems[next].char_end;
                    }
                }
                let e_start = start_before_ws(t, pb, t.elems[pb].char_start);
                return Some(Edit { start: e_start, end: e_end, replacement: String::new() });
            }
            assert(!is_at_bind(t, p, d));
            proof {
                assert(t.elem_ok(p as int));
            }
            let kids = &t.elems[p].children;
            match index_of(kids, d) {
                None => None,
                Some(i) => {
                    // over whitespace, up to and with the next comma
                    let mut e_end = end;
                    let mut k = i + 1;
                    while k < kids.len()
                        invariant
                            t.wf(),
                            p < t.len(),
                            kids@ == t.kids(p as int),
                            forall|j: int| 0 <= j < kids.len() ==> #[trigger] kids@[j] < t.len(),
                            i < k <= kids.len(),
                            entry_end(t, kids@, i + 1, end) == entry_end(t, kids@, k as int, e_end),
                        ensures
                            entry_end(t, kids@, i + 1, end) == e_end,
                        decreases kids.len() - k,
                    {
                        let c = kids[k];
                        let el = &t.elems[c];
                        if el.is_token && el.kind == TOKEN_COMMA {
                            e_end = el.char_end;
                            break;
                        } else if el.is_token && el.kind == TOKEN_WHITESPACE {
                            e_end = el.char_end;
                        } else {
                            break;
                        }
                        k += 1;
                    }
                    let e_start = start_before_ws(t, d, start);
                    Some(Edit { start: e_start, end: e_end, replacement: String::new() })
                },
            }
        },
        Scope::LambdaArg(n, _) => {
            let mut replacement = String::from_str("_");
            let name = t.ident_string(n);
            replacement.append(name.as_str());
            Some(Edit { start, end, replacement })
        },
        Scope::LetIn(n) => {
            if is_let_entry(t, n, d) {
                let e_start = start_before_ws(t, d, start);
                Some(Edit { start: e_start, end, replacement: String::new() })
            } else {
                None
            }
        },
        Scope::RecAttrSet(_) => None,
    }
}

/// Does edit `a` come before edit `b`: by start, then by end?
pub open spec fn edit_le(a: EditView, b: EditView) -> bool {
    a.0 < b.0 || (a.0 == b.0 && a.1 <= b.1)
}

pub open spec fn edits_sorted(es: Seq<EditView>) -> bool {
    forall|a: int, b: int| 0 <= a < b < es.len() ==> edit_le(#[trigger] es[a], #[trigger] es[b])
}

/// The edits of the records `rs[..k]`, in order.
pub open spec fn record_edits(t: &Tree, rs: Seq<DeadCode>, k: int) -> Seq<EditView>
    decreases k,
{
    if k <= 0 {
        Seq::empty()
    } else {
        let prev = record_edits(t, rs, k - 1);
        match edit_for(t, rs[k - 1]) {
            Some(e) => prev.push(e),
            None => prev,
        }
    }
}

proof fn lemma_views_insert(s: Seq<Edit>, pos: int, e: Edit)
    requires
        0 <= pos <= s.len(),
    ensures
        views(s.insert(pos, e)) == views(s).insert(pos, view_of(e)),
{
    assert(views(s.insert(pos, e)) =~= views(s).insert(pos, view_of(e)));
}

proof fn lemma_insert_edit_sorted(s: Seq<EditView>, pos: int, x: EditView)
    requires
        0 <= pos <= s.len(),
        edits_sorted(s),
        forall|k: int| 0 <= k < pos ==> edit_le(#[trigger] s[k], x),
        pos < s.len() ==> !edit_le(s[pos], x),
    ensures
        edits_sorted(s.insert(pos, x)),
{
    let out = s.insert(pos, x);
    assert forall|a: int, b: int| 0 <= a < b < out.len() implies edit_le(#[trigger] out[a], #[trigger] out[b]) by {
        if b < pos {
            assert(out[a] == s[a] && out[b] == s[b]);
        } else if b == pos {
            assert(out[a] == s[a]);
        } else if a < pos {
            assert(out[a] == s[a] && out[b] == s[b - 1]);
            assert(edit_le(s[pos], s[b - 1]) || pos == b - 1);
        } else if a == pos {
            assert(out[b] == s[b - 1]);
            assert(edit_le(s[pos], s[b - 1]) || pos == b - 1);
        } else {
            assert(out[a] == s[a - 1] && out[b] == s[b - 1]);
        }
    }
}

/// Sort edits by start, then by end.
fn sort_edits(edits: Vec<Edit>) -> (r: Vec<Edit>)
    ensures
        edits_sorted(views(r@)),
        views(r@).to_multiset() == views(edits@).to_multiset(),
{
    let mut rest = edits;
    let mut out: Vec<Edit> = Vec::new();
    proof {
        broadcast use vstd::seq_lib::group_to_multiset_ensures;
        assert(views(out@) =~= Seq::<EditView>::empty());
    }
    while rest.len() > 0
        invariant
            edits_sorted(views(out@)),
            views(rest@).to_multiset().add(views(out@).to_multiset()) == views(edits@).to_multiset(),
        decreases rest.len(),
    {
        let ghost rest0 = rest@;
        let ghost out0 = out@;
        let e = rest.pop().unwrap();
        let mut pos: usize = 0;
        while pos < out.len() && (out[pos].start < e.start || (out[pos].start == e.start && out[pos].end <= e.end))
            invariant
                pos <= out.len(),
                out@ == out0,
                forall|k: int| 0 <= k < pos ==> edit_le(#[trigger] views(out@)[k], view_of(e)),
            decreases out.len() - pos,
        {
            pos += 1;
        }
        let ghost ve = view_of(e);
        out.insert(pos, e);
        proof {
            broadcast use vstd::seq_lib::group_to_multiset_ensures;
            lemma_views_insert(out0, pos as int, e);
            lemma_insert_edit_sorted(views(out0), pos as int, ve);
            vstd::seq_lib::to_multiset_insert(views(out0), pos as int, ve);
            assert(views(rest0) =~= views(rest@).push(ve));
            assert(views(rest0).to_multiset() == views(rest@).to_multiset().insert(ve));
            assert(views(rest@).to_multiset().add(views(out@).to_multiset()) =~= views(rest0).to_multiset().add(
                views(out0).to_multiset(),
            ));
        }
    }
    proof {
        assert(views(rest@) =~= Seq::<EditView>::empty());
        assert(views(rest@).to_multiset() =~= Multiset::<EditView>::empty());
    }
    out
}

/// Is `inherit` clause `c` empty of names?
pub open spec fn inherit_empty(t: &Tree, c: usize) -> bool {
    t.children_in(c as int, Class::Attr).len() == 0
}

/// Has `let` node `n` neither entries nor inherited names?
pub open spec fn let_empty(t: &Tree, n: usize) -> bool {
    &&& forall|c: usize| #[trigger] t.children_in(n as int, Class::Node(NODE_INHERIT)).contains(c) ==> inherit_empty(t, c)
    &&& t.children_in(n as int, Class::Node(NODE_ATTRPATH_VALUE)).len() == 0
}

/// The edit that removes node `i` where it is an emptied construct: an
/// empty `let ... in` up to its body, or an empty `inherit` clause with the
/// whitespace before it.
pub open spec fn cleanup_edit(t: &Tree, i: usize) -> Option<EditView> {
    let e = t.elems@[i as int];
    if t.is_a(i as int, Class::Node(NODE_LET_IN)) && let_empty(t, i) {
        match t.first_child(i as int, Class::Expr) {
            Some(b) => Some((e.char_start, t.elems@[b as int].char_start, Seq::empty())),
            None => None,
        }
    } else if t.is_a(i as int, Class::Node(NODE_INHERIT)) && inherit_empty(t, i) {
        Some((ws_start(t, i, e.char_start), e.char_end, Seq::empty()))
    } else {
        None
    }
}

/// The cleanup edits of the elements before `k`, in order.
pub open spec fn cleanup_edits(t: &Tree, k: int) -> Seq<EditView>
    decreases k,
{
    if k <= 0 {
        Seq::empty()
    } else {
        let prev = cleanup_edits(t, k - 1);
        match cleanup_edit(t, (k - 1) as usize) {
            Some(e) => prev.push(e),
            None => prev,
        }
    }
}

fn is_let_empty(t: &Tree, n: usize) -> (r: bool)
    requires
        t.wf(),
        n < t.len(),
    ensures
        r == let_empty(t, n),
{
    let cs = t.children_exec(n, Class::Node(NODE_INHERIT));
    let mut k: usize = 0;
    while k < cs.len()
        invariant
            t.wf(),
            cs@ == t.children_in(n as int, Class::Node(NODE_INHERIT)),
            forall|j: int| 0 <= j < cs.len() ==> #[trigger] cs@[j] < t.len(),
            k <= cs.len(),
            forall|j: int| 0 <= j < k ==> inherit_empty(t, #[trigger] cs@[j]),
        decreases cs.len() - k,
    {
        if t.children_exec(cs[k], Class::Attr).len() > 0 {
            assert(cs@.contains(cs@[k as int]));
            return false;
        }
        k += 1;
    }
    proof {
        assert forall|c: usize| #[trigger] t.children_in(n as int, Class::Node(NODE_INHERIT)).contains(c) implies inherit_empty(t, c) by {
            let j = choose|j: int| 0 <= j < cs.len() && cs@[j] == c;
            assert(inherit_empty(t, cs@[j]));
        }
    }
    t.children_exec(n, Class::Node(NODE_ATTRPATH_VALUE)).len() == 0
}

/// The edits that remove emptied `let ... in` and `inherit` constructs.
pub fn remove_empty_scopes(t: &Tree) -> (r: Vec<Edit>)
    requires
        t.wf(),
    ensures
        views(r@) == cleanup_edits(t, t.len()),
{
    let mut edits: Vec<Edit> = Vec::new();
    let mut i: usize = 0;
    while i < t.elems.len()
        invariant
            t.wf(),
            i <= t.len(),
            views(edits@) == cleanup_edits(t, i as int),
        decreases t.elems.len() - i,
    {
        let e = &t.elems[i];
        let mut found: Option<Edit> = None;
        if !e.is_token && e.kind == NODE_LET_IN && is_let_empty(t, i) {
            // remove empty `let in` constructs
            if let Some(b) = t.first_child_exec(i, Class::Expr) {
                found = Some(Edit { start: e.char_start, end: t.elems[b].char_start, replacement: String::new() });
            }
        } else if !e.is_token && e.kind == NODE_INHERIT && t.children_exec(i, Class::Attr).len() == 0 {
            // remove empty `inherit;` and `inherit (...);` constructs
            let start = start_before_ws(t, i, e.char_start);
            found = Some(Edit { start, end: e.char_end, replacement: String::new() });
        }
        assert(((i + 1) - 1) as usize == i);
        match found {
            Some(f) => {
                assert(cleanup_edit(t, i) == Some(view_of(f)));
                let ghost before = edits@;
                edits.push(f);
                assert(views(edits@) =~= views(before).push(view_of(f)));
            },
            None => {
                assert(cleanup_edit(t, i) is None);
            },
        }
        i += 1;
    }
    edits
}

/// The edited text does not parse again without errors.
#[derive(Clone, Copy, Debug, PartialEq, Eq, Structural)]
pub enum EditError {
    Unparsable,
}

/// What editing ends in, once the edits `es` of the records have been
/// applied to `original`: where rnix parses the edited text without errors,
/// that text with the cleanup edits of its tree applied, and whether
/// anything changed; else an error.
pub open spec fn edit_outcome(original: Seq<char>, es: Seq<EditView>, r: Result<(String, bool), EditError>) -> bool {
    let edited = applied(original, es, 0, 0);
    let w = nix_parse(edited);
    if encode_utf8(edited).len() <= MAX_SOURCE_BYTES && walk_ok(w.0, edited) && w.1 == 0 {
        exists|t2: Tree|
            #![trigger elem_views(t2.elems@)]
            t2.wf() && elem_views(t2.elems@) == tree_of_walk(w.0) && (r matches Ok((out, changed)) && out@ == applied(
                edited,
                cleanup_edits(&t2, t2.len()),
                0,
                0,
            ) && changed == (es.len() > 0 || cleanup_edits(&t2, t2.len()).len() > 0))
    } else {
        r == Err::<(String, bool), EditError>(EditError::Unparsable)
    }
}

/// Deletes the bindings of `dead`, records on tree `t` of `original`.
///
/// The edits are applied in order of position; the result is parsed again,
/// and `let ... in` and `inherit` constructs left empty are removed as well.
/// Returns the new text and whether anything changed, or an error where the
/// edited text does not parse again without errors.
pub fn edit_dead_code(original: &str, t: &Tree, dead: &Vec<DeadCode>) -> (r: Result<(String, bool), EditError>)
    requires
        t.wf(),
        t.text() == original@,
    ensures
        exists|es: Seq<EditView>|
            #![trigger edits_sorted(es)]
            edits_sorted(es) && es.to_multiset() == record_edits(t, dead@, dead@.len() as int).to_multiset()
                && edit_outcome(original@, es, r),
{
    let mut edits: Vec<Edit> = Vec::new();
    let mut k: usize = 0;
    while k < dead.len()
        invariant
            t.wf(),
            k <= dead.len(),
            views(edits@) == record_edits(t, dead@, k as int),
        decreases dead.len() - k,
    {
        match dead_to_edit(t, &dead[k]) {
            Some(e) => {
                let ghost before = edits@;
                edits.push(e);
                assert(views(edits@) =~= views(before).push(view_of(e)));
            },
            None => {},
        }
        k += 1;
    }
    let edits = sort_edits(edits);
    let has_changes = edits.len() > 0;
    let edited = apply_edits(original, &edits);
    let ghost es = views(edits@);
    // remove empty `let in`
    match parse(edited.as_str()) {
        Some(reparsed) => {
            if reparsed.errors > 0 {
                return Err(EditError::Unparsable);
            }
            let let_in_edits = remove_empty_scopes(&reparsed.tree);
            let out = apply_edits(edited.as_str(), &let_in_edits);
            let changed = has_changes || let_in_edits.len() > 0;
            let r = Ok((out, changed));
            assert(edit_outcome(original@, es, r));
            r
        },
        None => Err(EditError::Unparsable),
    }
}

} // verus!
