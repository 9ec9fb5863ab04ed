//! What a report says of each finding: its message and its place.
use vstd::prelude::*;
use vstd::string::StringExecFns;
use vstd::string::StringSliceAdditionalSpecFns;
use crate::dead_code::DeadCode;
use crate::scope::Scope;

verus! {

/// The message of a finding, e.g. `Unused let binding: x`.
pub open spec fn message_of(dc: DeadCode) -> Seq<char> {
    (if dc.unused {
        "Unused "@
    } else {
        "Used "@
    }) + match dc.scope {
        Scope::LambdaPattern(_, _) => "lambda pattern"@,
        Scope::LambdaArg(_, _) => "lambda argument"@,
        Scope::LetIn(_) => "let binding"@,
        Scope::RecAttrSet(_) => "rec attrset"@,
    } + ": "@ + dc.binding.name.text@
}

impl DeadCode {
    /// The message of this finding.
    pub fn message(&self) -> (r: String)
        ensures
            r@ == message_of(*self),
    {
        let mut m = if self.unused {
            String::from_str("Unused ")
        } else {
            String::from_str("Used ")
        };
        m.append(self.scope.category());
        m.append(": ");
        m.append(self.binding.name.text.as_str());
        m
    }
}

/// The byte offsets at which the lines of `b[..k]` start: 0, and each
/// offset just after a line feed.
pub open spec fn line_starts_upto(b: Seq<u8>, k: int) -> Seq<usize>
    decreases k,
{
    if k <= 0 {
        seq![0usize]
    } else {
        let prev = line_starts_upto(b, k - 1);
        if b[k - 1] == 10u8 {
            prev.push(k as usize)
        } else {
            prev
        }
    }
}

/// The byte offsets at which the lines of `content` start.
pub fn line_starts(content: &str) -> (r: Vec<usize>)
    ensures
        r@ == line_starts_upto(content.spec_bytes(), content.spec_bytes().len() as int),
{
    let bytes = content.as_bytes();
    let mut offsets: Vec<usize> = Vec::new();
    offsets.push(0);
    assert(offsets@ =~= seq![0usize]);
    let mut k: usize = 0;
    while k < bytes.len()
        invariant
            bytes@ == content.spec_bytes(),
            k <= bytes@.len(),
            offsets@ == line_starts_upto(bytes@, k as int),
        decreases bytes.len() - k,
    {
        if bytes[k] == 10u8 {
            offsets.push(k + 1);
        }
        k += 1;
    }
    offsets
}

/// The index of the first of `offs[k..]` above `pos`, or the length.
pub open spec fn first_above(offs: Seq<usize>, pos: usize, k: int) -> int
    decreases offs.len() - k,
{
    if k < 0 || k >= offs.len() {
        offs.len() as int
    } else if pos < offs[k] {
        k
    } else {
        first_above(offs, pos, k + 1)
    }
}

/// A place in a text: its 1-based line, and its 1-based character columns
/// at the start and at the end.
#[derive(Clone, Copy, Debug, PartialEq, Eq, Structural)]
pub struct Location {
    pub line: usize,
    pub column: usize,
    pub end_column: usize,
}

/// Does a character start at byte `b` of UTF-8 text (is it no continuation
/// byte)?
pub open spec fn starts_char(b: u8) -> bool {
    b < 0x80u8 || b >= 0xc0u8
}

/// The number of characters that start in the bytes `b[i..j]`.
pub open spec fn chars_in(b: Seq<u8>, i: int, j: int) -> nat
    decreases j - i,
{
    if j <= i {
        0
    } else {
        chars_in(b, i, j - 1) + if starts_char(b[j - 1]) {
            1nat
        } else {
            0nat
        }
    }
}

/// The location of the byte range `start..end` of the text with bytes `b`
/// and line starts `offs`: the line is the number of line starts up to
/// `start`, and the columns count the characters from the last of them.
pub open spec fn location_of(b: Seq<u8>, offs: Seq<usize>, start: usize, end: usize) -> Location {
    let line = first_above(offs, start, 0);
    let line_offset: int = if line > 0 {
        offs[line - 1] as int
    } else {
        0
    };
    Location {
        line: line as usize,
        column: (chars_in(b, line_offset, start as int) + 1) as usize,
        end_column: (chars_in(b, line_offset, end as int) + 1) as usize,
    }
}

/// Locate the byte range `start..end` of `content`, whose line starts are
/// `offs`.
pub fn locate(content: &str, offs: &Vec<usize>, start: usize, end: usize) -> (r: Location)
    requires
        start <= end <= content.spec_bytes().len(),
        end < usize::MAX,
    ensures
        r == location_of(content.spec_bytes(), offs@, start, end),
{
    let bytes = content.as_bytes();
    let mut line: usize = 0;
    let mut line_offset: usize = 0;
    while line < offs.len() && offs[line] <= start
        invariant
            line <= offs.len(),
            first_above(offs@, start, 0) == first_above(offs@, start, line as int),
            line_offset <= start,
            line_offset == if line > 0 {
                offs@[line - 1] as int
            } else {
                0
            },
        decreases offs.len() - line,
    {
        line_offset = offs[line];
        line += 1;
    }
    let mut k: usize = line_offset;
    let mut count: usize = 0;
    let mut column: usize = 0;
    while k < end
        invariant
            bytes@ == content.spec_bytes(),
            line_offset <= k <= end <= bytes@.len(),
            end < usize::MAX,
            line_offset <= start <= end,
            count == chars_in(bytes@, line_offset as int, k as int),
            count <= k - line_offset,
            k > start ==> column == chars_in(bytes@, line_offset as int, start as int) + 1,
        decreases end - k,
    {
        if k == start {
            column = count + 1;
        }
        let b = bytes[k];
        if b < 0x80u8 || b >= 0xc0u8 {
            count += 1;
        }
        k += 1;
    }
    if start == end {
        column = count + 1;
    }
    Location { line, column, end_column: count + 1 }
}

} // verus!
