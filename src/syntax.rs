//! A lossless concrete syntax tree held as an arena of plain values.
//!
//! Elements are stored in preorder: a node comes before everything inside it,
//! and tokens appear in source order. Element `0` is the root.
use vstd::prelude::*;
use vstd::string::StrSliceExecFns;
use vstd::string::StringExecFns;
use vstd::string::StringSliceAdditionalSpecFns;
use vstd::utf8::encode_utf8;
use rnix::{NodeOrToken, WalkEvent};

verus! {

// Kinds of tokens and nodes, as numbered by rnix's `SyntaxKind`.
pub const TOKEN_COMMENT: u16 = 0;
pub const TOKEN_WHITESPACE: u16 = 2;
pub const TOKEN_REC: u16 = 10;
pub const TOKEN_COMMA: u16 = 20;
pub const NODE_APPLY: u16 = 53;
pub const NODE_ASSERT: u16 = 54;
pub const NODE_ATTRPATH: u16 = 55;
pub const NODE_DYNAMIC: u16 = 56;
pub const NODE_ERROR: u16 = 57;
pub const NODE_IDENT: u16 = 58;
pub const NODE_IF_ELSE: u16 = 59;
pub const NODE_SELECT: u16 = 60;
pub const NODE_INHERIT: u16 = 61;
pub const NODE_INHERIT_FROM: u16 = 62;
pub const NODE_STRING: u16 = 63;
pub const NODE_LAMBDA: u16 = 65;
pub const NODE_IDENT_PARAM: u16 = 66;
pub const NODE_LEGACY_LET: u16 = 67;
pub const NODE_LET_IN: u16 = 68;
pub const NODE_LIST: u16 = 69;
pub const NODE_BIN_OP: u16 = 70;
pub const NODE_PAREN: u16 = 71;
pub const NODE_PATTERN: u16 = 72;
pub const NODE_PAT_BIND: u16 = 73;
pub const NODE_PAT_ENTRY: u16 = 74;
pub const NODE_ROOT: u16 = 75;
pub const NODE_ATTR_SET: u16 = 76;
pub const NODE_ATTRPATH_VALUE: u16 = 77;
pub const NODE_UNARY_OP: u16 = 78;
pub const NODE_LITERAL: u16 = 79;
pub const NODE_WITH: u16 = 80;
pub const NODE_PATH: u16 = 81;
pub const NODE_HAS_ATTR: u16 = 82;

/// Tags of the preorder walk events handed over by the parser.
pub const ENTER_NODE: u8 = 0;
pub const LEAVE_NODE: u8 = 1;
pub const ENTER_TOKEN: u8 = 2;
pub const LEAVE_TOKEN: u8 = 3;

/// One node or token of the tree.
pub struct Element {
    /// Syntax kind (see the constants of this module).
    pub kind: u16,
    /// Is this a token (a leaf holding text) rather than a node?
    pub is_token: bool,
    /// Enclosing node; `None` for the root only.
    pub parent: Option<usize>,
    /// Child elements, nodes and tokens interleaved, in source order.
    pub children: Vec<usize>,
    /// Text of a token; empty for a node.
    pub text: String,
    /// Byte range in the source.
    pub start: usize,
    pub end: usize,
    /// The same range counted in characters.
    pub char_start: usize,
    pub char_end: usize,
}

/// A parsed source: elements in preorder, the root first.
pub struct Tree {
    pub elems: Vec<Element>,
}

/// A tree together with the number of parse errors reported for its source.
pub struct Parsed {
    pub tree: Tree,
    pub errors: usize,
}

/// What rnix's parser yields for a text: its preorder walk, each event as
/// `(tag, kind, token text)`, and the number of parse errors.
pub uninterp spec fn nix_parse(text: Seq<char>) -> (Seq<(u8, u16, Seq<char>)>, nat);

/// The longest text rnix parses: it measures text in `u32` and panics on
/// more.
pub const MAX_SOURCE_BYTES: usize = 0xffff_ffff;

/// Relies on `rnix::Root::parse` and rowan's `preorder_with_tokens`: the walk
/// of the lossless tree of `text`, and the count of `errors()`. Each event is
/// tagged [`ENTER_NODE`], [`LEAVE_NODE`], [`ENTER_TOKEN`] or [`LEAVE_TOKEN`]
/// and carries the element's `SyntaxKind` number and, entering a token, its
/// text.
#[verifier::external_body]
fn parse_events(text: &str) -> (r: (Vec<(u8, u16, String)>, usize))
    requires
        text.spec_bytes().len() <= MAX_SOURCE_BYTES,
    ensures
        event_views(r.0@) == nix_parse(text@).0,
        r.1 == nix_parse(text@).1,
{
    let parsed = rnix::Root::parse(text);
    let events = parsed.syntax().preorder_with_tokens().map(|event| match event {
        WalkEvent::Enter(NodeOrToken::Node(n)) => (0u8, n.kind() as u16, String::new()),
        WalkEvent::Leave(NodeOrToken::Node(n)) => (1u8, n.kind() as u16, String::new()),
        WalkEvent::Enter(NodeOrToken::Token(t)) => (2u8, t.kind() as u16, t.text().to_string()),
        WalkEvent::Leave(NodeOrToken::Token(t)) => (3u8, t.kind() as u16, String::new()),
    }).collect();
    (events, parsed.errors().len())
}

/// Element `i` of `s` has its children after it, inside `s`, in order and
/// naming it as their parent; its parent node before it; and no children if
/// it is a token.
pub open spec fn elem_ok_in(s: Seq<Element>, i: int) -> bool {
    let e = s[i];
    &&& forall|k: int|
        0 <= k < e.children@.len() ==> i < #[trigger] e.children@[k] < s.len() && s[e.children@[k] as int].parent
            == Some(i as usize)
    &&& forall|k1: int, k2: int|
        0 <= k1 < k2 < e.children@.len() ==> #[trigger] e.children@[k1] < #[trigger] e.children@[k2]
    &&& e.is_token ==> e.children@.len() == 0
    &&& i == 0 ==> e.parent is None
    &&& i > 0 ==> (e.parent matches Some(p) && p < i && !s[p as int].is_token)
}

/// A walk event as plain values: (tag, kind, token text).
pub type EventView = (u8, u16, Seq<char>);

pub open spec fn event_views(events: Seq<(u8, u16, String)>) -> Seq<EventView> {
    events.map_values(|e: (u8, u16, String)| (e.0, e.1, e.2@))
}

/// Do the events `ev[k..]`, met with `depth` nodes open and the root
/// `started` or not, enter and leave one root node properly, with every
/// token inside a node?
pub open spec fn nests(ev: Seq<EventView>, k: int, depth: int, started: bool) -> bool
    decreases ev.len() - k,
{
    if k < 0 || k >= ev.len() {
        started && depth == 0
    } else if ev[k].0 == ENTER_NODE {
        !(started && depth == 0) && nests(ev, k + 1, depth + 1, true)
    } else if ev[k].0 == ENTER_TOKEN {
        depth > 0 && nests(ev, k + 1, depth, started)
    } else if ev[k].0 == LEAVE_NODE {
        depth > 0 && nests(ev, k + 1, depth - 1, started)
    } else {
        nests(ev, k + 1, depth, started)
    }
}

/// The texts of the tokens entered by `ev[..k]`, one after the other.
pub open spec fn spelled(ev: Seq<EventView>, k: int) -> Seq<char>
    decreases k,
{
    if k <= 0 {
        Seq::empty()
    } else {
        spelled(ev, k - 1) + if ev[k - 1].0 == ENTER_TOKEN {
            ev[k - 1].2
        } else {
            Seq::empty()
        }
    }
}

/// The number of bytes of the tokens entered by `ev[..k]`.
pub open spec fn bytes_total(ev: Seq<EventView>, k: int) -> nat
    decreases k,
{
    if k <= 0 {
        0
    } else {
        bytes_total(ev, k - 1) + if ev[k - 1].0 == ENTER_TOKEN {
            encode_utf8(ev[k - 1].2).len()
        } else {
            0
        }
    }
}

/// The number of characters of the tokens entered by `ev[..k]`.
pub open spec fn chars_total(ev: Seq<EventView>, k: int) -> nat
    decreases k,
{
    if k <= 0 {
        0
    } else {
        chars_total(ev, k - 1) + if ev[k - 1].0 == ENTER_TOKEN {
            ev[k - 1].2.len()
        } else {
            0
        }
    }
}

/// Does walk `ev` describe one tree whose tokens spell `text`, with every
/// offset fitting a `usize`?
pub open spec fn walk_ok(ev: Seq<EventView>, text: Seq<char>) -> bool {
    &&& nests(ev, 0, 0, false)
    &&& spelled(ev, ev.len() as int) == text
    &&& bytes_total(ev, ev.len() as int) <= usize::MAX
    &&& chars_total(ev, ev.len() as int) <= usize::MAX
    &&& ranges_nest(tree_of_walk(ev))
}

/// Element `i` of `vs` has its ranges in order, and those of its children
/// within them.
pub open spec fn ranges_nest_at(vs: Seq<ElemView>, i: int) -> bool {
    let e = vs[i];
    &&& e.start <= e.end
    &&& e.char_start <= e.char_end
    &&& forall|k: int|
        0 <= k < e.children.len() && 0 <= #[trigger] e.children[k] < vs.len() ==> {
            let c = vs[e.children[k] as int];
            e.start <= c.start && c.end <= e.end && e.char_start <= c.char_start && c.char_end
                <= e.char_end
        }
}

/// Do all elements of `vs` have their ranges nested?
pub open spec fn ranges_nest(vs: Seq<ElemView>) -> bool {
    forall|i: int| 0 <= i < vs.len() ==> #[trigger] ranges_nest_at(vs, i)
}

/// Check that the ranges of `elems` nest.
fn ranges_ok(elems: &Vec<Element>) -> (r: bool)
    ensures
        r == ranges_nest(elem_views(elems@)),
{
    let ghost vs = elem_views(elems@);
    let mut i: usize = 0;
    while i < elems.len()
        invariant
            vs == elem_views(elems@),
            i <= elems.len(),
            forall|q: int| 0 <= q < i ==> #[trigger] ranges_nest_at(vs, q),
        decreases elems.len() - i,
    {
        let e = &elems[i];
        assert(vs[i as int] == e@);
        if e.start > e.end || e.char_start > e.char_end {
            assert(!ranges_nest_at(vs, i as int));
            return false;
        }
        let mut k: usize = 0;
        while k < e.children.len()
            invariant
                vs == elem_views(elems@),
                i < elems.len(),
                e == elems@[i as int],
                vs[i as int] == e@,
                e.start <= e.end && e.char_start <= e.char_end,
                k <= e.children.len(),
                forall|kk: int|
                    0 <= kk < k && 0 <= #[trigger] e.children@[kk] < vs.len() ==> {
                        let c = vs[e.children@[kk] as int];
                        e.start <= c.start && c.end <= e.end && e.char_start <= c.char_start && c.char_end
                            <= e.char_end
                    },
            decreases e.children.len() - k,
        {
            let ci = e.children[k];
            if ci < elems.len() {
                let c = &elems[ci];
                assert(vs[ci as int] == c@);
                if !(e.start <= c.start && c.end <= e.end && e.char_start <= c.char_start && c.char_end <= e.char_end) {
                    assert(!ranges_nest_at(vs, i as int));
                    return false;
                }
            }
            k += 1;
        }
        assert(ranges_nest_at(vs, i as int));
        i += 1;
    }
    true
}

/// An element as plain values.
pub struct ElemView {
    pub kind: u16,
    pub is_token: bool,
    pub parent: Option<usize>,
    pub children: Seq<usize>,
    pub text: Seq<char>,
    pub start: nat,
    pub end: nat,
    pub char_start: nat,
    pub char_end: nat,
}

impl View for Element {
    type V = ElemView;

    open spec fn view(&self) -> ElemView {
        ElemView {
            kind: self.kind,
            is_token: self.is_token,
            parent: self.parent,
            children: self.children@,
            text: self.text@,
            start: self.start as nat,
            end: self.end as nat,
            char_start: self.char_start as nat,
            char_end: self.char_end as nat,
        }
    }
}

/// The elements of `s` as plain values.
pub open spec fn elem_views(s: Seq<Element>) -> Seq<ElemView> {
    s.map_values(|e: Element| e@)
}

/// The elements and the stack of open nodes after the walk `ev[..k]`: each
/// entered node or token becomes the next element, a child of the innermost
/// open node, starting at the offsets reached so far; a token ends after
/// its text, a node where it is left.
pub open spec fn built(ev: Seq<EventView>, k: int) -> (Seq<ElemView>, Seq<usize>)
    decreases k,
{
    if k <= 0 {
        (Seq::empty(), Seq::empty())
    } else {
        let (es, stack) = built(ev, k - 1);
        let e = ev[k - 1];
        let off = bytes_total(ev, k - 1);
        let coff = chars_total(ev, k - 1);
        if e.0 == ENTER_NODE || e.0 == ENTER_TOKEN {
            let id = es.len() as usize;
            let tok = e.0 == ENTER_TOKEN;
            let parent = if stack.len() > 0 {
                Some(stack.last())
            } else {
                None
            };
            let el = ElemView {
                kind: e.1,
                is_token: tok,
                parent,
                children: Seq::empty(),
                text: if tok {
                    e.2
                } else {
                    Seq::empty()
                },
                start: off,
                end: bytes_total(ev, k),
                char_start: coff,
                char_end: chars_total(ev, k),
            };
            let es2 = es.push(el);
            let es3 = match parent {
                Some(p) => es2.update(p as int, ElemView { children: es2[p as int].children.push(id), ..es2[p as int] }),
                None => es2,
            };
            (es3, if tok {
                stack
            } else {
                stack.push(id)
            })
        } else if e.0 == LEAVE_NODE && stack.len() > 0 {
            let p = stack.last();
            (es.update(p as int, ElemView { end: off, char_end: coff, ..es[p as int] }), stack.drop_last())
        } else {
            (es, stack)
        }
    }
}

/// The elements of the tree that walk `ev` describes.
pub open spec fn tree_of_walk(ev: Seq<EventView>) -> Seq<ElemView> {
    built(ev, ev.len() as int).0
}

proof fn lemma_totals_grow(ev: Seq<EventView>, j: int, k: int)
    requires
        0 <= j <= k <= ev.len(),
    ensures
        bytes_total(ev, j) <= bytes_total(ev, k),
        chars_total(ev, j) <= chars_total(ev, k),
    decreases k - j,
{
    if j < k {
        lemma_totals_grow(ev, j, k - 1);
    }
}

impl Tree {
    pub open spec fn len(&self) -> int {
        self.elems@.len() as int
    }

    pub open spec fn kids(&self, i: int) -> Seq<usize> {
        self.elems@[i].children@
    }

    /// Is `i` a node of the tree (not a token)?
    pub open spec fn is_node(&self, i: int) -> bool {
        0 <= i < self.len() && !self.elems@[i].is_token
    }

    /// The shape every element of a tree has.
    pub open spec fn elem_ok(&self, i: int) -> bool {
        elem_ok_in(self.elems@, i)
    }

    /// Well-formedness: a root node first, every child after its parent and
    /// naming it, and ranges nested.
    pub open spec fn wf(&self) -> bool {
        &&& self.len() > 0
        &&& !self.elems@[0].is_token
        &&& forall|i: int| 0 <= i < self.len() ==> #[trigger] self.elem_ok(i)
        &&& ranges_nest(elem_views(self.elems@))
    }

    /// The source text: the texts of the tokens, in order.
    pub open spec fn text_of(elems: Seq<Element>) -> Seq<char>
        decreases elems.len(),
    {
        if elems.len() == 0 {
            Seq::empty()
        } else {
            let last = elems.last();
            Self::text_of(elems.drop_last()) + if last.is_token {
                last.text@
            } else {
                Seq::empty()
            }
        }
    }

    proof fn lemma_text_of_push(s: Seq<Element>, e: Element)
        ensures
            Self::text_of(s.push(e)) == Self::text_of(s) + if e.is_token {
                e.text@
            } else {
                Seq::empty()
            },
    {
        assert(s.push(e).drop_last() =~= s);
    }

    proof fn lemma_text_of_update(s: Seq<Element>, p: int, e: Element)
        requires
            0 <= p < s.len(),
            e.is_token == s[p].is_token,
            e.text == s[p].text,
        ensures
            Self::text_of(s.update(p, e)) == Self::text_of(s),
        decreases s.len(),
    {
        if p < s.len() - 1 {
            assert(s.update(p, e).drop_last() =~= s.drop_last().update(p, e));
            Self::lemma_text_of_update(s.drop_last(), p, e);
        } else {
            assert(s.update(p, e).drop_last() =~= s.drop_last());
        }
    }

    pub open spec fn text(&self) -> Seq<char> {
        Self::text_of(self.elems@)
    }

    /// Build the tree from a preorder walk (see [`ENTER_NODE`] and the other
    /// tags; other tags are skipped). Returns `None` where the walk does not
    /// describe one tree whose tokens spell `text`, or where an offset
    /// overflows.
    pub fn from_events(events: &Vec<(u8, u16, String)>, text: &str) -> (r: Option<Tree>)
        ensures
            r is Some <==> walk_ok(event_views(events@), text@),
            r matches Some(t) ==> t.wf() && t.text() == text@ && elem_views(t.elems@) == tree_of_walk(
                event_views(events@),
            ),
    {
        let ghost ev = event_views(events@);
        let mut elems: Vec<Element> = Vec::new();
        let mut stack: Vec<usize> = Vec::new();
        let mut seen = String::new();
        let mut offset: usize = 0;
        let mut char_offset: usize = 0;
        let mut k: usize = 0;
        while k < events.len()
            invariant
                k <= events.len(),
                forall|i: int| 0 <= i < elems.len() ==> #[trigger] elem_ok_in(elems@, i),
                elems.len() > 0 ==> !elems@[0].is_token,
                forall|j: int|
                    0 <= j < stack.len() ==> #[trigger] stack@[j] < elems.len() && !elems@[stack@[j] as int].is_token,
                seen@ == Self::text_of(elems@),
                ev == event_views(events@),
                nests(ev, 0, 0, false) == nests(ev, k as int, stack.len() as int, elems.len() > 0),
                seen@ == spelled(ev, k as int),
                offset == bytes_total(ev, k as int),
                char_offset == chars_total(ev, k as int),
                elem_views(elems@) == built(ev, k as int).0,
                stack@ == built(ev, k as int).1,
            decreases events.len() - k,
        {
            assert(ev[k as int] == (events@[k as int].0, events@[k as int].1, events@[k as int].2@));
            let ghost old_elems = elems@;
            let tag = events[k].0;
            let kind = events[k].1;
            if tag == ENTER_NODE || tag == ENTER_TOKEN {
                let id = elems.len();
                let parent: Option<usize> = if stack.len() > 0 {
                    Some(stack[stack.len() - 1])
                } else {
                    None
                };
                if id > 0 && parent.is_none() {
                    // a second root
                    return None;
                }
                if tag == ENTER_TOKEN && parent.is_none() {
                    return None;
                }
                let (tok_text, end, char_end) = if tag == ENTER_TOKEN {
                    let t = events[k].2.clone();
                    let n = t.as_str().as_bytes().len();
                    let c = t.as_str().unicode_len();
                    match (offset.checked_add(n), char_offset.checked_add(c)) {
                        (Some(e), Some(ce)) => (t, e, ce),
                        _ => {
                            proof {
                                lemma_totals_grow(ev, k + 1, ev.len() as int);
                            }
                            return None;
                        },
                    }
                } else {
                    (String::new(), offset, char_offset)
                };
                if tag == ENTER_TOKEN {
                    seen.append(tok_text.as_str());
                }
                let e = Element {
                    kind,
                    is_token: tag == ENTER_TOKEN,
                    parent,
                    children: Vec::new(),
                    text: tok_text,
                    start: offset,
                    end,
                    char_start: char_offset,
                    char_end,
                };
                let ghost ew = e@;
                elems.push(e);
                proof {
                    Self::lemma_text_of_push(old_elems, elems@.last());
                    assert(elems@ == old_elems.push(elems@.last()));
                    assert(elem_views(elems@) =~= elem_views(old_elems).push(ew));
                }
                let ghost pushed = elems@;
                if let Some(p) = parent {
                    let mut pe = elems.remove(p);
                    pe.children.push(id);
                    elems.insert(p, pe);
                    proof {
                        assert(elems@ =~= pushed.update(p as int, pe));
                        Self::lemma_text_of_update(pushed, p as int, pe);
                        assert(elem_views(elems@) =~= elem_views(pushed).update(p as int, pe@));
                    }
                }
                assert forall|i: int| 0 <= i < elems.len() implies #[trigger] elem_ok_in(elems@, i) by {
                    if i < id {
                        assert(elem_ok_in(old_elems, i));
                    }
                }
                if tag == ENTER_NODE {
                    stack.push(id);
                }
                offset = end;
                char_offset = char_end;
            } else if tag == LEAVE_NODE {
                if stack.len() == 0 {
                    return None;
                }
                let p = stack.pop().unwrap();
                let ghost before = elems@;
                let mut pe = elems.remove(p);
                pe.end = offset;
                pe.char_end = char_offset;
                elems.insert(p, pe);
                proof {
                    assert(elems@ =~= before.update(p as int, pe));
                    Self::lemma_text_of_update(before, p as int, pe);
                    assert(elem_views(elems@) =~= elem_views(before).update(p as int, pe@));
                    assert forall|i: int| 0 <= i < elems.len() implies #[trigger] elem_ok_in(elems@, i) by {
                        assert(elem_ok_in(before, i));
                    }
                }
            }
            k += 1;
        }
        if elems.len() == 0 || stack.len() > 0 {
            return None;
        }
        let whole = String::from_str(text);
        if !(seen == whole) {
            return None;
        }
        if !ranges_ok(&elems) {
            return None;
        }
        Some(Tree { elems })
    }
}

/// A class of elements that a child search looks for.
#[derive(Clone, Copy, PartialEq, Eq, Structural)]
pub enum Class {
    /// A node of this kind.
    Node(u16),
    /// A token of this kind.
    Token(u16),
    /// Any token.
    AnyToken,
    /// A node that is an expression.
    Expr,
    /// A node that is an attribute: an identifier, `${...}` or a string.
    Attr,
    /// A node that is a lambda parameter: an identifier or a pattern.
    Param,
    /// Any node.
    AnyNode,
    /// A `${...}` or string node.
    Splice,
}

/// Node kinds that are expressions.
pub open spec fn is_expr_kind(k: u16) -> bool {
    k == NODE_APPLY || k == NODE_ASSERT || k == NODE_ERROR || k == NODE_IF_ELSE || k == NODE_SELECT
        || k == NODE_STRING || k == NODE_PATH || k == NODE_LITERAL || k == NODE_LAMBDA
        || k == NODE_LEGACY_LET || k == NODE_LET_IN || k == NODE_LIST || k == NODE_BIN_OP
        || k == NODE_PAREN || k == NODE_ROOT || k == NODE_ATTR_SET || k == NODE_UNARY_OP
        || k == NODE_IDENT || k == NODE_WITH || k == NODE_HAS_ATTR
}

/// Does element `e` belong to class `c`?
pub open spec fn in_class(e: Element, c: Class) -> bool {
    match c {
        Class::Node(k) => !e.is_token && e.kind == k,
        Class::Token(k) => e.is_token && e.kind == k,
        Class::AnyToken => e.is_token,
        Class::Expr => !e.is_token && is_expr_kind(e.kind),
        Class::Attr => !e.is_token && (e.kind == NODE_IDENT || e.kind == NODE_DYNAMIC || e.kind
            == NODE_STRING),
        Class::Param => !e.is_token && (e.kind == NODE_IDENT_PARAM || e.kind == NODE_PATTERN),
        Class::AnyNode => !e.is_token,
        Class::Splice => !e.is_token && (e.kind == NODE_DYNAMIC || e.kind == NODE_STRING),
    }
}

fn in_class_exec(e: &Element, c: Class) -> (r: bool)
    ensures
        r == in_class(*e, c),
{
    let k = e.kind;
    match c {
        Class::Node(want) => !e.is_token && k == want,
        Class::Token(want) => e.is_token && k == want,
        Class::AnyToken => e.is_token,
        Class::Expr => !e.is_token && (k == NODE_APPLY || k == NODE_ASSERT || k == NODE_ERROR || k
            == NODE_IF_ELSE || k == NODE_SELECT || k == NODE_STRING || k == NODE_PATH || k
            == NODE_LITERAL || k == NODE_LAMBDA || k == NODE_LEGACY_LET || k == NODE_LET_IN || k
            == NODE_LIST || k == NODE_BIN_OP || k == NODE_PAREN || k == NODE_ROOT || k
            == NODE_ATTR_SET || k == NODE_UNARY_OP || k == NODE_IDENT || k == NODE_WITH || k
            == NODE_HAS_ATTR),
        Class::Attr => !e.is_token && (k == NODE_IDENT || k == NODE_DYNAMIC || k == NODE_STRING),
        Class::Param => !e.is_token && (k == NODE_IDENT_PARAM || k == NODE_PATTERN),
        Class::AnyNode => !e.is_token,
        Class::Splice => !e.is_token && (k == NODE_DYNAMIC || k == NODE_STRING),
    }
}

impl Tree {
    /// Is element `c` (an index that may lie outside the tree) of class `cl`?
    pub open spec fn is_a(&self, c: int, cl: Class) -> bool {
        0 <= c < self.len() && in_class(self.elems@[c], cl)
    }

    /// The first of `s[k..]` that is of class `cl`.
    pub open spec fn first_from(&self, s: Seq<usize>, k: int, cl: Class) -> Option<usize>
        decreases s.len() - k,
    {
        if k < 0 || k >= s.len() {
            None
        } else if self.is_a(s[k] as int, cl) {
            Some(s[k])
        } else {
            self.first_from(s, k + 1, cl)
        }
    }

    /// The first child of node `i` of class `cl`.
    pub open spec fn first_child(&self, i: int, cl: Class) -> Option<usize> {
        self.first_from(self.kids(i), 0, cl)
    }

    /// The members of `s[..k]` of class `cl`, in order.
    pub open spec fn select(&self, s: Seq<usize>, k: int, cl: Class) -> Seq<usize>
        decreases k,
    {
        if k <= 0 {
            Seq::empty()
        } else {
            let prev = self.select(s, k - 1, cl);
            if self.is_a(s[k - 1] as int, cl) {
                prev.push(s[k - 1])
            } else {
                prev
            }
        }
    }

    /// The children of node `i` of class `cl`, in order.
    pub open spec fn children_in(&self, i: int, cl: Class) -> Seq<usize> {
        self.select(self.kids(i), self.kids(i).len() as int, cl)
    }

    /// The text of an identifier node: that of its first token.
    pub open spec fn ident_text(&self, n: int) -> Seq<char> {
        match self.first_child(n, Class::AnyToken) {
            Some(c) => self.elems@[c as int].text@,
            None => Seq::empty(),
        }
    }

    pub proof fn lemma_select_in(&self, s: Seq<usize>, k: int, cl: Class)
        requires
            k <= s.len(),
        ensures
            forall|j: int|
                0 <= j < self.select(s, k, cl).len() ==> s.contains(#[trigger] self.select(s, k, cl)[j])
                    && self.is_a(self.select(s, k, cl)[j] as int, cl),
        decreases k,
    {
        if k > 0 {
            self.lemma_select_in(s, k - 1, cl);
            assert(s[k - 1] == s[k - 1]);
            assert forall|j: int| 0 <= j < self.select(s, k, cl).len() implies s.contains(
                #[trigger] self.select(s, k, cl)[j],
            ) && self.is_a(self.select(s, k, cl)[j] as int, cl) by {
                if j < self.select(s, k - 1, cl).len() {
                    assert(self.select(s, k, cl)[j] == self.select(s, k - 1, cl)[j]);
                } else {
                    assert(s[k - 1] == self.select(s, k, cl)[j]);
                }
            }
        }
    }

    pub proof fn lemma_first_in(&self, s: Seq<usize>, k: int, cl: Class)
        ensures
            self.first_from(s, k, cl) matches Some(c) ==> s.contains(c) && self.is_a(c as int, cl),
        decreases s.len() - k,
    {
        if 0 <= k < s.len() {
            assert(s[k] == s[k]);
            self.lemma_first_in(s, k + 1, cl);
        }
    }

    /// Every child of a node of a well-formed tree lies after it.
    pub proof fn lemma_child_after(&self, i: int, c: usize)
        requires
            self.wf(),
            0 <= i < self.len(),
            self.kids(i).contains(c),
        ensures
            i < c < self.len(),
    {
        assert(self.elem_ok(i));
    }

    /// The first child of node `i` of class `cl`.
    pub fn first_child_exec(&self, i: usize, cl: Class) -> (r: Option<usize>)
        requires
            self.wf(),
            i < self.len(),
        ensures
            r == self.first_child(i as int, cl),
            r matches Some(c) ==> i < c < self.len() && self.is_a(c as int, cl),
    {
        proof {
            self.lemma_first_in(self.kids(i as int), 0, cl);
            assert(self.elem_ok(i as int));
        }
        let kids = &self.elems[i].children;
        let mut k: usize = 0;
        while k < kids.len()
            invariant
                self.wf(),
                i < self.len(),
                kids@ == self.kids(i as int),
                k <= kids.len(),
                self.first_from(kids@, 0, cl) == self.first_from(kids@, k as int, cl),
            decreases kids.len() - k,
        {
            let c = kids[k];
            proof {
                assert(self.elem_ok(i as int));
                assert(kids@[k as int] == c);
            }
            if in_class_exec(&self.elems[c], cl) {
                return Some(c);
            }
            k += 1;
        }
        None
    }

    /// The children of node `i` of class `cl`, in order.
    pub fn children_exec(&self, i: usize, cl: Class) -> (r: Vec<usize>)
        requires
            self.wf(),
            i < self.len(),
        ensures
            r@ == self.children_in(i as int, cl),
            forall|j: int| 0 <= j < r.len() ==> i < #[trigger] r@[j] < self.len() && self.is_a(r@[j] as int, cl),
    {
        let kids = &self.elems[i].children;
        let mut out: Vec<usize> = Vec::new();
        let mut k: usize = 0;
        while k < kids.len()
            invariant
                self.wf(),
                i < self.len(),
                kids@ == self.kids(i as int),
                k <= kids.len(),
                out@ == self.select(kids@, k as int, cl),
            decreases kids.len() - k,
        {
            let c = kids[k];
            proof {
                assert(self.elem_ok(i as int));
                assert(kids@[k as int] == c);
            }
            if in_class_exec(&self.elems[c], cl) {
                out.push(c);
            }
            k += 1;
        }
        proof {
            self.lemma_select_in(kids@, kids.len() as int, cl);
            assert forall|j: int| 0 <= j < out.len() implies i < #[trigger] out@[j] < self.len() by {
                let c = out@[j];
                let w = choose|w: int| 0 <= w < kids@.len() && kids@[w] == c;
                assert(self.elem_ok(i as int));
                assert(kids@[w] == c);
            }
        }
        out
    }

    /// Whether the text of identifier node `n` is `name`.
    pub fn ident_is(&self, n: usize, name: &String) -> (r: bool)
        requires
            self.wf(),
            n < self.len(),
        ensures
            r == (self.ident_text(n as int) == name@),
    {
        match self.first_child_exec(n, Class::AnyToken) {
            Some(c) => self.elems[c].text == *name,
            None => {
                let l = name.as_str().unicode_len();
                proof {
                    if l == 0 {
                        assert(name@ =~= Seq::<char>::empty());
                    }
                }
                l == 0
            },
        }
    }

    /// The text of identifier node `n`.
    pub fn ident_string(&self, n: usize) -> (r: String)
        requires
            self.wf(),
            n < self.len(),
        ensures
            r@ == self.ident_text(n as int),
    {
        match self.first_child_exec(n, Class::AnyToken) {
            Some(c) => self.elems[c].text.clone(),
            None => String::new(),
        }
    }
}

/// Parse `text` with rnix and hold the result as a [`Tree`]: the tree its
/// walk describes. `None` where the text is longer than [`MAX_SOURCE_BYTES`],
/// or where the walk does not form a tree that spells `text`.
pub fn parse(text: &str) -> (r: Option<Parsed>)
    ensures
        r is Some <==> (text.spec_bytes().len() <= MAX_SOURCE_BYTES && walk_ok(nix_parse(text@).0, text@)),
        r matches Some(p) ==> {
            &&& p.tree.wf()
            &&& p.tree.text() == text@
            &&& elem_views(p.tree.elems@) == tree_of_walk(nix_parse(text@).0)
            &&& p.errors == nix_parse(text@).1
        },
{
    if text.as_bytes().len() > MAX_SOURCE_BYTES {
        return None;
    }
    let (events, errors) = parse_events(text);
    match Tree::from_events(&events, text) {
        Some(tree) => Some(Parsed { tree, errors }),
        None => None,
    }
}

} // verus!
