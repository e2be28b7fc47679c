//! What progress is reported of.

use vstd::prelude::*;
use vstd::string::StringExecFns;
use vstd::utf8::encode_utf8;

verus! {

/// The widest that output is made, in columns.
pub const MAX_WIDTH: usize = 80;

/// The width to assume where the terminal does not tell its own.
pub const FALLBACK_WIDTH: usize = 80;

/// The width to lay output out for, given the width of the terminal if it
/// is known: never more than `MAX_WIDTH`.
pub fn output_width(terminal: Option<u16>) -> (width: usize)
    ensures
        width == match terminal {
            Some(columns) => if columns <= MAX_WIDTH {
                columns as int
            } else {
                MAX_WIDTH as int
            },
            None => FALLBACK_WIDTH as int,
        },
{
    match terminal {
        Some(columns) => if columns as usize <= MAX_WIDTH {
            columns as usize
        } else {
            MAX_WIDTH
        },
        None => FALLBACK_WIDTH,
    }
}

/// A list while it is laid out: the lines that are full, the line that is
/// being filled, and how many columns of it are taken.
pub struct Layout {
    pub lines: Seq<Seq<char>>,
    pub line: Seq<char>,
    pub taken: int,
}

/// How many columns an item takes: the bytes of its text.
pub open spec fn columns(item: String) -> int {
    encode_utf8(item@).len() as int
}

/// The layout with one more item: it goes on the line that is being
/// filled, behind a comma, unless the line would then be too long for
/// `width`; then the line ends in a comma and the item begins the next.
/// Each line begins with two blanks.
pub open spec fn with_item(layout: Layout, item: String, width: int) -> Layout {
    if layout.taken > 0 && layout.taken + columns(item) + 3 > width {
        Layout {
            lines: layout.lines.push(layout.line + seq![',']),
            line: seq![' ', ' '] + item@,
            taken: 2 + columns(item),
        }
    } else if layout.taken == 0 {
        Layout { lines: layout.lines, line: seq![' ', ' '] + item@, taken: 2 + columns(item) }
    } else {
        Layout {
            lines: layout.lines,
            line: layout.line + seq![',', ' '] + item@,
            taken: layout.taken + 2 + columns(item),
        }
    }
}

/// The layout of the leading `n` items.
pub open spec fn laid_out(items: Seq<String>, width: int, n: nat) -> Layout
    decreases n,
{
    if n == 0 {
        Layout { lines: Seq::empty(), line: Seq::empty(), taken: 0 }
    } else {
        with_item(laid_out(items, width, (n - 1) as nat), items[n - 1], width)
    }
}

/// The lines of a layout: the full ones, and the one that is being filled
/// if anything is on it.
pub open spec fn lines_of(layout: Layout) -> Seq<Seq<char>> {
    if layout.taken > 0 {
        layout.lines.push(layout.line)
    } else {
        layout.lines
    }
}

/// The texts of a list of strings.
pub open spec fn texts(lines: Seq<String>) -> Seq<Seq<char>> {
    Seq::new(lines.len(), |i: int| lines[i]@)
}

proof fn lemma_laid_out_takes(items: Seq<String>, width: int, n: nat)
    ensures
        laid_out(items, width, n).taken >= 0,
        n > 0 ==> laid_out(items, width, n).taken >= 2,
    decreases n,
{
    if n > 0 {
        lemma_laid_out_takes(items, width, (n - 1) as nat);
    }
}

/// Lays a list out in lines of at most `width` columns, as far as the
/// items allow: the items are parted by commas, each line begins with two
/// blanks, and a line that another follows ends in a comma.
pub fn layout_list(items: &Vec<String>, width: usize) -> (lines: Vec<String>)
    ensures
        texts(lines@) == lines_of(laid_out(items@, width as int, items@.len())),
{
    let mut lines: Vec<String> = Vec::new();
    let mut line = String::new();
    // The columns taken, or the greatest count there is where it is more
    // than that.
    let mut taken: usize = 0;
    let mut i: usize = 0;
    proof {
        reveal_strlit(",");
        reveal_strlit("  ");
        reveal_strlit(", ");
        assert(","@ =~= seq![',']);
        assert("  "@ =~= seq![' ', ' ']);
        assert(", "@ =~= seq![',', ' ']);
        assert(texts(lines@) =~= Seq::<Seq<char>>::empty());
    }
    while i < items.len()
        invariant
            i <= items@.len(),
            ","@ == seq![','],
            "  "@ == seq![' ', ' '],
            ", "@ == seq![',', ' '],
            texts(lines@) == laid_out(items@, width as int, i as nat).lines,
            line@ == laid_out(items@, width as int, i as nat).line,
            laid_out(items@, width as int, i as nat).taken >= 0,
            laid_out(items@, width as int, i as nat).taken == 0 ==> line@.len() == 0,
            taken as int == if laid_out(items@, width as int, i as nat).taken <= usize::MAX {
                laid_out(items@, width as int, i as nat).taken
            } else {
                usize::MAX as int
            },
        decreases items@.len() - i,
    {
        let item = items[i].as_str();
        let length = item.as_bytes().len();
        let ghost before = laid_out(items@, width as int, i as nat);
        let ghost full = texts(lines@);
        proof {
            lemma_laid_out_takes(items@, width as int, (i + 1) as nat);
            assert(columns(items@[i as int]) == length);
        }
        let room = taken <= width && length <= width - taken && width - taken - length >= 3;
        if taken > 0 && !room {
            line.append(",");
            lines.push(line);
            line = String::new();
            taken = 0;
            proof {
                assert(texts(lines@) =~= full.push(before.line + seq![',']));
            }
        }
        if taken == 0 {
            line.append("  ");
        } else {
            line.append(", ");
        }
        line.append(item);
        taken = if length <= usize::MAX - 2 && taken <= usize::MAX - 2 - length {
            taken + 2 + length
        } else {
            usize::MAX
        };
        proof {
            let after = with_item(before, items@[i as int], width as int);
            assert(line@ =~= after.line);
        }
        i += 1;
    }
    if taken > 0 {
        let ghost full = texts(lines@);
        lines.push(line);
        proof {
            assert(texts(lines@) =~= full.push(laid_out(
                items@,
                width as int,
                items@.len(),
            ).line));
        }
    }
    lines
}

/// A stream that knows how many bytes it will deliver in all, so that the
/// share that has come through can be shown.
pub trait ContentLength {
    /// The number of bytes that the stream delivers in all.
    fn content_length(&self) -> u64;
}

impl<R: ContentLength> ContentLength for &mut R {
    /// The number of bytes that the stream behind the reference delivers
    /// in all: what that stream's own `content_length` gives.
    fn content_length(&self) -> (length: u64)
        ensures
            call_ensures(R::content_length, (&*old(*self),), length),
    {
        (**self).content_length()
    }
}

} // verus!
