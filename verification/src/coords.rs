//! GTP vertices ("Q16") and board points (x = column from the left, y = row from the top,
//! both from 0).
//!
//! GTP writes the column as a letter from `A` to `T` with `I` skipped, and the row as a
//! number where 1 is the bottom line and `size` the top line; so the GTP row of the local
//! row `y` is `size - y`.
use vstd::prelude::*;
use crate::text::{
    chars_of, decimal, is_ws, law_parse_decimal, parse_unsigned, parse_unsigned_in, push_char,
    push_decimal, trim, trim_bounds, trim_end, trim_start,
};

verus! {

/// The column letters, `I` skipped: 19 of them, so boards of up to 19 lines.
pub const COLUMN_LETTERS: &'static str = "ABCDEFGHJKLMNOPQRST";

/// The letter of column `x` (for `x < 19`).
pub open spec fn column_letter(x: nat) -> char {
    if x < 8 {
        (65 + x) as char
    } else {
        (66 + x) as char
    }
}

/// The column whose letter is `c`, if any.
pub open spec fn column_index(c: char) -> Option<nat> {
    if 'A' <= c && c <= 'H' {
        Some((c as nat - 65) as nat)
    } else if 'J' <= c && c <= 'T' {
        Some((c as nat - 66) as nat)
    } else {
        None
    }
}

/// `c` with an ASCII lower-case letter turned to upper case.
pub open spec fn ascii_upper(c: char) -> char {
    if 'a' <= c && c <= 'z' {
        (c as nat - 32) as char
    } else {
        c
    }
}

/// The vertex text of the point `(x, y)` on a board of `size` lines.
pub open spec fn vertex_text(x: nat, y: nat, size: nat) -> Seq<char> {
    seq![column_letter(x)] + decimal((size - y) as nat)
}

/// The point that the vertex text `v` names on a board of `size` lines: the text is trimmed,
/// its first character (either case) is the column, the rest a row number from 1 to `size`
/// (an unsigned integer in the sense of `str::parse`); otherwise `None`.
pub open spec fn vertex_point(v: Seq<char>, size: nat) -> Option<(nat, nat)> {
    let t = trim(v);
    if t.len() == 0 {
        None
    } else {
        match column_index(ascii_upper(t[0])) {
            None => None,
            Some(x) => match parse_unsigned(t.drop_first(), usize::MAX as nat) {
                None => None,
                Some(row) => if row == 0 || row > size || x >= size {
                    None
                } else {
                    Some((x, (size - row) as nat))
                },
            },
        }
    }
}

proof fn lemma_column_letters()
    ensures
        COLUMN_LETTERS@.len() == 19,
        forall|x: int| 0 <= x < 19 ==> #[trigger] COLUMN_LETTERS@[x] == column_letter(x as nat),
{
    reveal_strlit("ABCDEFGHJKLMNOPQRST");
    assert(COLUMN_LETTERS@ =~= seq!['A', 'B', 'C', 'D', 'E', 'F', 'G', 'H', 'J', 'K', 'L', 'M', 'N', 'O', 'P', 'Q', 'R', 'S', 'T']);
}

/// The column of the letter `c` in [`COLUMN_LETTERS`].
fn find_column(c: char) -> (r: Option<usize>)
    ensures
        r == (match column_index(c) {
            Some(x) => Some(x as usize),
            None => None,
        }),
{
    proof {
        lemma_column_letters();
    }
    let mut i: usize = 0;
    while i < 19
        invariant
            i <= 19,
            COLUMN_LETTERS@.len() == 19,
            forall|x: int| 0 <= x < 19 ==> #[trigger] COLUMN_LETTERS@[x] == column_letter(x as nat),
            forall|k: int| 0 <= k < i ==> #[trigger] COLUMN_LETTERS@[k] != c,
        decreases 19 - i,
    {
        if COLUMN_LETTERS.get_char(i) == c {
            return Some(i);
        }
        i += 1;
    }
    proof {
        if let Some(x) = column_index(c) {
            assert(column_letter(x) == c);
            assert(COLUMN_LETTERS@[x as int] == column_letter(x));
        }
    }
    None
}

/// The upper-case form of an ASCII letter; other characters unchanged.
fn to_ascii_upper(c: char) -> (r: char)
    ensures
        r == ascii_upper(c),
{
    if 'a' <= c && c <= 'z' {
        ((c as u8) - 32) as char
    } else {
        c
    }
}

/// The GTP vertex of the point `(x, y)` on a board of `size` lines: the column letter, then
/// the row number `size - y`.
pub fn to_vertex(x: usize, y: usize, size: usize) -> (r: String)
    requires
        x < size,
        x < 19,
        y < size,
    ensures
        r@ == vertex_text(x as nat, y as nat, size as nat),
{
    proof {
        lemma_column_letters();
    }
    let col = COLUMN_LETTERS.get_char(x);
    let row = size - y;
    let mut out = String::new();
    push_char(&mut out, col);
    push_decimal(&mut out, row as u64);
    assert(out@ =~= vertex_text(x as nat, y as nat, size as nat));
    out
}

/// The point named by the GTP vertex `vertex` on a board of `size` lines, `None` when the
/// text is malformed or off the board (`pass` and `resign` are no vertices).
pub fn from_vertex(vertex: &str, size: usize) -> (r: Option<(usize, usize)>)
    ensures
        r == (match vertex_point(vertex@, size as nat) {
            Some((x, y)) => Some((x as usize, y as usize)),
            None => None,
        }),
{
    let cs = chars_of(vertex);
    let (lo, hi) = trim_bounds(&cs);
    let ghost t = cs@.subrange(lo as int, hi as int);
    if lo == hi {
        return None;
    }
    let col = to_ascii_upper(cs[lo]);
    let x = match find_column(col) {
        Some(x) => x,
        None => return None,
    };
    proof {
        assert(t.drop_first() =~= cs@.subrange(lo + 1, hi as int));
        assert(t[0] == cs@[lo as int]);
    }
    let row = match parse_unsigned_in(&cs, lo + 1, hi, usize::MAX as u64) {
        Some(row) => row as usize,
        None => return None,
    };
    if row == 0 || row > size || x >= size {
        return None;
    }
    Some((x, size - row))
}

proof fn lemma_vertex_trimmed(x: nat, y: nat, size: nat)
    requires
        x < 19,
        y < size,
    ensures
        trim(vertex_text(x, y, size)) == vertex_text(x, y, size),
{
    let v = vertex_text(x, y, size);
    crate::text::lemma_decimal_facts((size - y) as nat);
    assert(v[0] == column_letter(x));
    assert(!is_ws(v[0]));
    assert(trim_start(v) == v);
    assert(v.last() == decimal((size - y) as nat).last());
    assert(!is_ws(v.last()));
}

/// Reading back the vertex of a point gives the point: `from_vertex(to_vertex(x, y, size),
/// size)` is `(x, y)` for every point of a board of at most 19 lines.
pub proof fn law_vertex_roundtrip(x: nat, y: nat, size: nat)
    requires
        x < size,
        x < 19,
        y < size,
        size <= usize::MAX,
    ensures
        vertex_point(vertex_text(x, y, size), size) == Some((x, y)),
{
    let v = vertex_text(x, y, size);
    lemma_vertex_trimmed(x, y, size);
    assert(v.drop_first() =~= decimal((size - y) as nat));
    law_parse_decimal((size - y) as nat, usize::MAX as nat);
    assert(v[0] == column_letter(x));
}

} // verus!
