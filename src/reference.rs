use vstd::prelude::*;

use crate::column::{
    column_index_of, column_name, column_value, is_letter, usize_to_column_name,
    valid_column_name,
};
use crate::error::SheetError;
use crate::text::{
    all_digits, chars_of, decimal_text, decimal_value, is_digit, parse_decimal, push_decimal,
    slice_chars, string_of,
};

verus! {

/// A cell key: column and row. Columns are 1-based; column 0 is the row header.
#[derive(Debug, Clone, Copy, PartialEq, Eq, Hash, Structural)]
pub struct CellPointer(pub usize, pub usize);

/// A key moved by a signed distance, when it stays within `usize`.
pub open spec fn moved(k: CellPointer, d: (isize, isize)) -> Option<CellPointer> {
    let c = k.0 + d.0;
    let r = k.1 + d.1;
    if 0 <= c <= usize::MAX && 0 <= r <= usize::MAX {
        Some(CellPointer(c as usize, r as usize))
    } else {
        None
    }
}

/// The serialization form of a key: `<col>-<row>` in decimal.
pub open spec fn key_text(k: CellPointer) -> Seq<char> {
    decimal_text(k.0 as nat) + seq!['-'] + decimal_text(k.1 as nat)
}

/// Whether `s` splits at `k` into two non-empty digit runs around a `-`.
pub open spec fn key_split(s: Seq<char>, k: int) -> bool {
    &&& 0 < k < s.len() - 1
    &&& s[k] == '-'
    &&& all_digits(s.subrange(0, k))
    &&& all_digits(s.subrange(k + 1, s.len() as int))
}

/// The key that a serialization form denotes.
pub open spec fn key_of(s: Seq<char>) -> Option<CellPointer> {
    if exists|k: int| key_split(s, k) {
        let k = choose|k: int| key_split(s, k);
        let c = decimal_value(s.subrange(0, k));
        let r = decimal_value(s.subrange(k + 1, s.len() as int));
        if c <= usize::MAX && r <= usize::MAX {
            Some(CellPointer(c as usize, r as usize))
        } else {
            None
        }
    } else {
        None
    }
}

pub open spec fn upper_char(c: char) -> char {
    if 'a' <= c && c <= 'z' {
        (c as int - 32) as char
    } else {
        c
    }
}

/// The display form of a key: upper-case column letters, then the row (`AB12`).
pub open spec fn display_text(k: CellPointer) -> Seq<char> {
    column_letters(k.0) + decimal_text(k.1 as nat)
}

impl CellPointer {
    /// Reads the serialization form `<col>-<row>`.
    pub fn from_str(s: &str) -> (r: Result<CellPointer, SheetError>)
        ensures
            r matches Ok(k) ==> key_of(s@) == Some(k),
            r matches Err(e) ==> e is BadSerialization && key_of(s@) is None,
    {
        let chars = chars_of(s);
        let n = chars.len();
        let mut k: usize = 0;
        while k < n && chars[k] != '-'
            invariant
                k <= n,
                n == s@.len(),
                chars@ == s@,
                forall|j: int| 0 <= j < k ==> s@[j] != '-',
            decreases n - k,
        {
            k += 1;
        }
        if k == n || k == 0 || k == n - 1 {
            proof {
                assert forall|k2: int| !key_split(s@, k2) by {
                    if key_split(s@, k2) {
                        if k == n {
                            assert(s@[k2] != '-');
                        } else if k2 > k {
                            assert(s@.subrange(0, k2)[k as int] == '-');
                            assert(!is_digit(s@[k as int]));
                        } else if k2 < k {
                            assert(s@[k2] != '-');
                        }
                    }
                }
            }
            return Err(SheetError::BadSerialization);
        }
        let left = slice_chars(&chars, 0, k);
        let right = slice_chars(&chars, k + 1, n);
        let c = parse_decimal(&left);
        let r = parse_decimal(&right);
        proof {
            assert forall|k2: int| key_split(s@, k2) implies k2 == k by {
                if k2 > k {
                    assert(s@.subrange(0, k2)[k as int] == '-');
                } else if k2 < k {
                    assert(s@[k2] != '-');
                }
            }
        }
        match (c, r) {
            (Some(c), Some(r)) => {
                assert(key_split(s@, k as int));
                Ok(CellPointer(c, r))
            },
            _ => Err(SheetError::BadSerialization),
        }
    }

    /// The serialization form `<col>-<row>`.
    pub fn to_string(&self) -> (r: String)
        ensures
            r@ == key_text(*self),
    {
        let mut out: Vec<char> = Vec::new();
        push_decimal(&mut out, self.0);
        out.push('-');
        push_decimal(&mut out, self.1);
        assert(out@ =~= key_text(*self));
        string_of(&out)
    }

    /// The display form, upper-case letters then the row (`AB12`).
    pub fn to_reference(&self) -> (r: String)
        ensures
            r@ == display_text(*self),
    {
        let mut out: Vec<char> = Vec::new();
        push_display(&mut out, *self);
        string_of(&out)
    }

    /// The key of a column and a row.
    pub fn from_column_and_row(column: usize, row: usize) -> (r: CellPointer)
        ensures
            r == CellPointer(column, row),
    {
        CellPointer(column, row)
    }

    /// The key moved by `distance`; the move must stay within `usize`.
    pub fn add(&self, distance: (isize, isize)) -> (r: CellPointer)
        requires
            moved(*self, distance) is Some,
        ensures
            Some(r) == moved(*self, distance),
    {
        match self.try_add(distance) {
            Some(k) => k,
            None => *self,
        }
    }

    /// The key moved by `distance`, or `None` when the move leaves `usize`.
    pub fn try_add(&self, distance: (isize, isize)) -> (r: Option<CellPointer>)
        ensures
            r == moved(*self, distance),
    {
        let c = self.0.checked_add_signed(distance.0);
        let r = self.1.checked_add_signed(distance.1);
        match (c, r) {
            (Some(c), Some(r)) => Some(CellPointer(c, r)),
            _ => None,
        }
    }

    /// The signed distance from this key to `target`.
    pub fn distance(&self, target: &Self) -> (r: (isize, isize))
        requires
            self.0 <= isize::MAX,
            self.1 <= isize::MAX,
            target.0 <= isize::MAX,
            target.1 <= isize::MAX,
        ensures
            r.0 == target.0 - self.0,
            r.1 == target.1 - self.1,
    {
        (target.0 as isize - self.0 as isize, target.1 as isize - self.1 as isize)
    }
}

/// Moving a key by its distance to another key lands on that other key.
pub proof fn lemma_add_distance(k: CellPointer, m: CellPointer, d: (isize, isize))
    requires
        d.0 == m.0 - k.0,
        d.1 == m.1 - k.1,
    ensures
        moved(k, d) == Some(m),
{
}

/// The upper-case letters of a column (`AB`).
pub open spec fn column_letters(c: usize) -> Seq<char> {
    column_name(c as nat).map_values(|c: char| upper_char(c))
}

/// Appends the upper-case letters of a column.
pub fn push_column_letters(out: &mut Vec<char>, col: usize)
    ensures
        final(out)@ == old(out)@ + column_letters(col),
{
    let name = chars_of(usize_to_column_name(col).as_str());
    let ghost start = out@;
    let mut i: usize = 0;
    while i < name.len()
        invariant
            i <= name@.len(),
            name@ == column_name(col as nat),
            out@ == start + name@.subrange(0, i as int).map_values(|c: char| upper_char(c)),
        decreases name.len() - i,
    {
        let c = name[i];
        let u = if 'a' <= c && c <= 'z' {
            ((c as u32 - 32) as u8) as char
        } else {
            c
        };
        out.push(u);
        i += 1;
        assert(name@.subrange(0, i as int).map_values(|c: char| upper_char(c)) =~= name@.subrange(
            0,
            i - 1,
        ).map_values(|c: char| upper_char(c)).push(upper_char(c)));
    }
    assert(name@.subrange(0, name@.len() as int) =~= name@);
}

/// Appends the display form of a key.
pub fn push_display(out: &mut Vec<char>, k: CellPointer)
    ensures
        final(out)@ == old(out)@ + display_text(k),
{
    let ghost start = out@;
    push_column_letters(out, k.0);
    push_decimal(out, k.1);
    assert(out@ =~= start + display_text(k));
}

/// A reference to one cell or to a range of cells.
#[derive(Debug, Clone, Copy, PartialEq, Eq, Structural)]
pub enum Reference {
    Single(CellPointer),
    BoundedRange(CellPointer, CellPointer),
    UnboundedColRange(CellPointer, usize),
    UnboundedRowRange(CellPointer, usize),
}

pub open spec fn is_ascii_text(s: Seq<char>) -> bool {
    forall|i: int| 0 <= i < s.len() ==> (#[trigger] s[i] as u32) < 128
}

/// Whether `t` splits at `k` into a run of letters and a run of digits, both non-empty.
pub open spec fn cell_split(t: Seq<char>, k: int) -> bool {
    &&& 0 < k < t.len()
    &&& forall|i: int| 0 <= i < k ==> is_letter(#[trigger] t[i])
    &&& all_digits(t.subrange(k, t.len() as int))
}

/// The key that a text such as `ab12` denotes.
pub open spec fn cell_of(t: Seq<char>) -> Option<CellPointer> {
    if exists|k: int| cell_split(t, k) {
        let k = choose|k: int| cell_split(t, k);
        let l = t.subrange(0, k);
        let d = t.subrange(k, t.len() as int);
        if valid_column_name(l) && column_value(l) <= usize::MAX && decimal_value(d)
            <= usize::MAX {
            Some(CellPointer(column_value(l) as usize, decimal_value(d) as usize))
        } else {
            None
        }
    } else {
        None
    }
}

/// The column that a run of letters denotes.
pub open spec fn col_of(t: Seq<char>) -> Option<usize> {
    if valid_column_name(t) && column_value(t) <= usize::MAX {
        Some(column_value(t) as usize)
    } else {
        None
    }
}

/// The row that a run of digits denotes.
pub open spec fn row_of(t: Seq<char>) -> Option<usize> {
    if t.len() > 0 && all_digits(t) && decimal_value(t) <= usize::MAX {
        Some(decimal_value(t) as usize)
    } else {
        None
    }
}

/// The reference that a text denotes: `A1`, `A1:B5`, `A1:A` or `A1:1`, letters in either case.
pub open spec fn reference_of(s: Seq<char>) -> Option<Reference> {
    if !is_ascii_text(s) {
        None
    } else if exists|i: int| 0 <= i < s.len() && s[i] == ':' {
        let i = choose|i: int| 0 <= i < s.len() && s[i] == ':';
        let l = s.subrange(0, i);
        let r = s.subrange(i + 1, s.len() as int);
        match cell_of(l) {
            None => None,
            Some(a) => match cell_of(r) {
                Some(b) => Some(Reference::BoundedRange(a, b)),
                None => match col_of(r) {
                    Some(c) => Some(Reference::UnboundedColRange(a, c)),
                    None => match row_of(r) {
                        Some(w) => Some(Reference::UnboundedRowRange(a, w)),
                        None => None,
                    },
                },
            },
        }
    } else {
        match cell_of(s) {
            Some(a) => Some(Reference::Single(a)),
            None => None,
        }
    }
}

/// A text that denotes a key holds only letters and digits.
proof fn lemma_cell_chars(t: Seq<char>, j: int)
    requires
        cell_of(t) is Some,
        0 <= j < t.len(),
    ensures
        is_letter(t[j]) || is_digit(t[j]),
{
    let k = choose|k: int| cell_split(t, k);
    if j >= k {
        assert(t.subrange(k, t.len() as int)[j - k] == t[j]);
    }
}

proof fn lemma_col_chars(t: Seq<char>, j: int)
    requires
        col_of(t) is Some,
        0 <= j < t.len(),
    ensures
        is_letter(t[j]),
{
}

/// Reads a key written as letters and digits.
fn cell_of_chars(t: &Vec<char>) -> (r: Option<CellPointer>)
    ensures
        r == cell_of(t@),
{
    let n = t.len();
    let mut k: usize = 0;
    while k < n && (('a' <= t[k] && t[k] <= 'z') || ('A' <= t[k] && t[k] <= 'Z'))
        invariant
            k <= n,
            n == t@.len(),
            forall|i: int| 0 <= i < k ==> is_letter(#[trigger] t@[i]),
        decreases n - k,
    {
        k += 1;
    }
    proof {
        assert forall|k2: int| cell_split(t@, k2) implies k2 == k by {
            if k2 < k {
                assert(is_letter(t@[k2]));
                assert(t@.subrange(k2, t@.len() as int)[0] == t@[k2]);
            } else if k2 > k {
                assert(is_letter(t@[k as int]));
            }
        }
    }
    if k == 0 || k == n {
        return None;
    }
    let letters = slice_chars(t, 0, k);
    let digits = slice_chars(t, k, n);
    match parse_decimal(&digits) {
        None => {
            return None;
        },
        Some(row) => {
            assert(cell_split(t@, k as int));
            match column_index_of(&letters) {
                Ok(col) => Some(CellPointer(col, row)),
                Err(_) => None,
            }
        },
    }
}

impl Reference {
    /// Reads a cell or range reference.
    pub fn parse(input: &str) -> (r: Result<Reference, SheetError>)
        ensures
            r matches Ok(x) ==> reference_of(input@) == Some(x),
            r matches Err(e) ==> e is BadReference && reference_of(input@) is None,
    {
        let s = chars_of(input);
        Self::parse_chars(&s)
    }

    /// Reads a cell or range reference given as characters.
    pub fn parse_chars(s: &Vec<char>) -> (r: Result<Reference, SheetError>)
        ensures
            r matches Ok(x) ==> reference_of(s@) == Some(x),
            r matches Err(e) ==> e is BadReference && reference_of(s@) is None,
    {
        let n = s.len();
        let mut i: usize = 0;
        while i < n
            invariant
                i <= n,
                n == s@.len(),
                forall|j: int| 0 <= j < i ==> (#[trigger] s@[j] as u32) < 128,
            decreases n - i,
        {
            if s[i] as u32 >= 128 {
                return Err(SheetError::BadReference);
            }
            i += 1;
        }
        let mut colon: usize = 0;
        while colon < n && s[colon] != ':'
            invariant
                colon <= n,
                n == s@.len(),
                forall|j: int| 0 <= j < colon ==> s@[j] != ':',
            decreases n - colon,
        {
            colon += 1;
        }
        if colon == n {
            return match cell_of_chars(s) {
                Some(a) => Ok(Reference::Single(a)),
                None => Err(SheetError::BadReference),
            };
        }
        let left = slice_chars(s, 0, colon);
        let right = slice_chars(s, colon + 1, n);
        let ghost chosen = choose|i: int| 0 <= i < s@.len() && s@[i] == ':';
        proof {
            if chosen != colon {
                assert(chosen > colon);
                if cell_of(s@.subrange(0, chosen)) is Some {
                    lemma_cell_chars(s@.subrange(0, chosen), colon as int);
                }
                let j = chosen - colon - 1;
                assert(right@[j] == ':');
                if cell_of(right@) is Some {
                    lemma_cell_chars(right@, j);
                }
                if col_of(right@) is Some {
                    lemma_col_chars(right@, j);
                }
                assert(!is_digit(right@[j]));
            }
        }
        let a = match cell_of_chars(&left) {
            Some(a) => a,
            None => {
                return Err(SheetError::BadReference);
            },
        };
        if let Some(b) = cell_of_chars(&right) {
            return Ok(Reference::BoundedRange(a, b));
        }
        if let Ok(c) = column_index_of(&right) {
            return Ok(Reference::UnboundedColRange(a, c));
        }
        match parse_decimal(&right) {
            Some(w) => Ok(Reference::UnboundedRowRange(a, w)),
            None => Err(SheetError::BadReference),
        }
    }
}

} // verus!
