//! Declared names.
use vstd::prelude::*;
use vstd::string::StrSliceExecFns;
use crate::syntax::{Tree, TOKEN_COMMENT, TOKEN_WHITESPACE};

verus! {

/// This string in a Nix comment above an unused declaration forces the
/// declaration to be skipped.
///
/// ```nix
/// let
///   # deadnix: skip
///   skeletonsInTheBasement =
/// ```
pub const PRAGMA_SKIP: &'static str = "deadnix: skip";

/// An identifier node and its text.
pub struct Ident {
    /// The `NODE_IDENT` element.
    pub node: usize,
    /// Its text.
    pub text: String,
    /// Its byte range in the source.
    pub start: usize,
    pub end: usize,
    /// The same range counted in characters.
    pub char_start: usize,
    pub char_end: usize,
}

impl Ident {
    /// Is this identifier node `n` of tree `t`?
    pub open spec fn is_node_of(&self, t: &Tree, n: int) -> bool {
        &&& self.node == n
        &&& self.text@ == t.ident_text(n)
        &&& self.start == t.elems@[n].start
        &&& self.end == t.elems@[n].end
        &&& self.char_start == t.elems@[n].char_start
        &&& self.char_end == t.elems@[n].char_end
    }

    /// The identifier held by node `n`.
    pub fn from_node(t: &Tree, n: usize) -> (r: Ident)
        requires
            t.wf(),
            n < t.len(),
        ensures
            r.is_node_of(t, n as int),
    {
        Ident {
            node: n,
            text: t.ident_string(n),
            start: t.elems[n].start,
            end: t.elems[n].end,
            char_start: t.elems[n].char_start,
            char_end: t.elems[n].char_end,
        }
    }
}

/// Does a name start with `_`, marking it anonymous?
pub open spec fn underscored(name: Seq<char>) -> bool {
    name.len() > 0 && name[0] == '_'
}

/// Does `s` start with `_`?
pub fn is_underscored(s: &str) -> (r: bool)
    ensures
        r == underscored(s@),
{
    s.unicode_len() > 0 && s.get_char(0) == '_'
}

/// A Nix variable binding.
pub struct Binding {
    /// Variable name.
    pub name: Ident,
    /// Element of the declaration itself.
    pub decl_node: usize,
    pub mortal: bool,
}

/// Number of line breaks in `s`.
pub open spec fn count_breaks(s: Seq<char>) -> nat
    decreases s.len(),
{
    if s.len() == 0 {
        0
    } else {
        count_breaks(s.drop_last()) + if s.last() == '\n' {
            1nat
        } else {
            0nat
        }
    }
}

/// Does `needle` occur in `hay`?
pub open spec fn occurs(hay: Seq<char>, needle: Seq<char>) -> bool {
    exists|i: int| 0 <= i && i + needle.len() <= hay.len() && #[trigger] hay.subrange(i, i + needle.len()) == needle
}

/// Walking back over the elements before `j` with `breaks` line breaks seen
/// so far: is a comment holding the pragma met before a second line break?
pub open spec fn pragma_before(t: &Tree, j: int, breaks: nat) -> bool
    decreases j,
{
    if j <= 0 || j > t.len() {
        false
    } else {
        let e = t.elems@[j - 1];
        if e.is_token && e.kind == TOKEN_WHITESPACE {
            let b = breaks + count_breaks(e.text@);
            if b > 1 {
                false
            } else {
                pragma_before(t, j - 1, b)
            }
        } else if e.is_token && e.kind == TOKEN_COMMENT && occurs(e.text@, PRAGMA_SKIP@) {
            true
        } else {
            pragma_before(t, j - 1, breaks)
        }
    }
}

/// Number of line breaks in `s`.
fn line_breaks(s: &str) -> (r: usize)
    ensures
        r == count_breaks(s@),
{
    let n = s.unicode_len();
    let mut k: usize = 0;
    let mut count: usize = 0;
    while k < n
        invariant
            n == s@.len(),
            k <= n,
            count == count_breaks(s@.subrange(0, k as int)),
            count <= k,
        decreases n - k,
    {
        assert(s@.subrange(0, k + 1).drop_last() =~= s@.subrange(0, k as int));
        if s.get_char(k) == '\n' {
            count += 1;
        }
        k += 1;
    }
    assert(s@.subrange(0, n as int) =~= s@);
    count
}

/// Does `needle` occur in `hay`?
fn occurs_in(hay: &str, needle: &str) -> (r: bool)
    ensures
        r == occurs(hay@, needle@),
{
    let n = hay.unicode_len();
    let m = needle.unicode_len();
    if m > n {
        return false;
    }
    if m == 0 {
        assert(hay@.subrange(0, 0 + needle@.len() as int) =~= needle@);
        return true;
    }
    let mut i: usize = 0;
    while i <= n - m
        invariant
            n == hay@.len(),
            m == needle@.len(),
            0 < m <= n,
            i <= n - m + 1,
            forall|p: int| 0 <= p < i ==> #[trigger] hay@.subrange(p, p + m) != needle@,
        decreases n - i,
    {
        let mut k: usize = 0;
        let mut same = true;
        assert(hay@.subrange(i as int, i as int) =~= needle@.subrange(0, 0));
        while k < m
            invariant
                n == hay@.len(),
                m == needle@.len(),
                i + m <= n,
                k <= m,
                same == (hay@.subrange(i as int, i + k) == needle@.subrange(0, k as int)),
            decreases m - k,
        {
            if same {
                let a = hay.get_char(i + k);
                let b = needle.get_char(k);
                if a != b {
                    same = false;
                    assert(hay@.subrange(i as int, i + k + 1)[k as int] != needle@.subrange(0, k + 1)[k as int]);
                } else {
                    assert(hay@.subrange(i as int, i + k + 1) =~= needle@.subrange(0, k + 1));
                }
            } else {
                proof {
                    if hay@.subrange(i as int, i + k + 1) == needle@.subrange(0, k + 1) {
                        assert(hay@.subrange(i as int, i + k) =~= hay@.subrange(i as int, i + k + 1).subrange(0, k as int));
                        assert(needle@.subrange(0, k as int) =~= needle@.subrange(0, k + 1).subrange(0, k as int));
                    }
                }
            }
            k += 1;
        }
        assert(needle@.subrange(0, m as int) =~= needle@);
        if same {
            return true;
        }
        i += 1;
    }
    proof {
        assert forall|p: int| 0 <= p && p + needle@.len() <= hay@.len() implies #[trigger] hay@.subrange(p, p + needle@.len()) != needle@ by {
            assert(p < i);
        }
    }
    false
}

impl Binding {
    /// Is this the binding of name node `n`, declared by `d`, with mortality `m`?
    pub open spec fn is_for(&self, t: &Tree, n: int, d: int, m: bool) -> bool {
        &&& self.name.is_node_of(t, n)
        &&& self.decl_node == d
        &&& self.mortal == m
    }

    /// Create a new Binding.
    pub fn new(name: Ident, decl_node: usize, mortal: bool) -> (r: Self)
        ensures
            r.name == name,
            r.decl_node == decl_node,
            r.mortal == mortal,
    {
        Binding { name, decl_node, mortal }
    }

    /// Can die?
    ///
    /// Not mortal are `rec { ... }`, and lambda args that already
    /// start with `_`.
    pub fn is_mortal(&self) -> (r: bool)
        ensures
            r == self.mortal,
    {
        self.mortal
    }

    /// Does the name start with `_`, signifying an anonymous
    /// variable?
    pub fn starts_with_underscore(&self) -> (r: bool)
        ensures
            r == underscored(self.name.text@),
    {
        is_underscored(self.name.text.as_str())
    }

    /// Searches through the tokens before the declaration, backwards, for
    /// [`PRAGMA_SKIP`] in a comment, until a second line break is seen.
    pub fn has_pragma_skip(&self, t: &Tree) -> (r: bool)
        requires
            t.wf(),
            self.decl_node < t.len(),
        ensures
            r == pragma_before(t, self.decl_node as int, 0),
    {
        let mut breaks: usize = 0;
        let mut j: usize = self.decl_node;
        while j > 0
            invariant
                j <= self.decl_node < t.len(),
                breaks <= 1,
                pragma_before(t, self.decl_node as int, 0) == pragma_before(t, j as int, breaks as nat),
            decreases j,
        {
            let e = &t.elems[j - 1];
            if e.is_token && e.kind == TOKEN_WHITESPACE {
                let n = line_breaks(e.text.as_str());
                if n > 1 - breaks {
                    return false;
                }
                breaks = breaks + n;
            } else if e.is_token && e.kind == TOKEN_COMMENT && occurs_in(e.text.as_str(), PRAGMA_SKIP) {
                return true;
            }
            j -= 1;
        }
        false
    }
}

} // verus!
