use vstd::prelude::*;

use crate::error::SheetError;
use crate::text::{chars_of, string_of};

verus! {

pub open spec fn is_lower_letter(c: char) -> bool {
    'a' <= c && c <= 'z'
}

pub open spec fn is_letter(c: char) -> bool {
    is_lower_letter(c) || ('A' <= c && c <= 'Z')
}

/// Position of a letter in the alphabet, case-insensitively (`a` and `A` are 0).
pub open spec fn letter_value(c: char) -> int {
    if is_lower_letter(c) {
        c as int - 97
    } else {
        c as int - 65
    }
}

/// The lower-case form of a letter; other characters are kept.
pub open spec fn lower_char(c: char) -> char {
    if 'A' <= c && c <= 'Z' {
        (c as int + 32) as char
    } else {
        c
    }
}

/// A legal column name: one or more letters, all of them `a` (in either case) but the last.
pub open spec fn valid_column_name(s: Seq<char>) -> bool {
    &&& s.len() > 0
    &&& forall|i: int| 0 <= i < s.len() ==> is_letter(#[trigger] s[i])
    &&& forall|i: int| 0 <= i < s.len() - 1 ==> letter_value(#[trigger] s[i]) == 0
}

/// The 1-based column that a legal name denotes: `a` is 1, `z` 26, `aa` 27, `aab` 54.
pub open spec fn column_value(s: Seq<char>) -> int {
    (s.len() - 1) * 26 + letter_value(s.last()) + 1
}

/// The canonical lower-case name of a column (column 0 is named like column 1).
pub open spec fn column_name(i: nat) -> Seq<char> {
    let k: nat = if i == 0 { 0 } else { (i - 1) as nat };
    Seq::new(k / 26, |j: int| 'a') + seq![((k % 26) + 97) as char]
}

/// Reads a column name, case-insensitively.
pub fn try_column_name_to_usize(name: &str) -> (r: Result<usize, SheetError>)
    ensures
        r matches Ok(v) ==> valid_column_name(name@) && v == column_value(name@),
        r matches Err(e) ==> e is BadColumnName && !(valid_column_name(name@) && column_value(
            name@,
        ) <= usize::MAX),
{
    let chars = chars_of(name);
    column_index_of(&chars)
}

/// Reads a column name given as characters.
pub fn column_index_of(chars: &Vec<char>) -> (r: Result<usize, SheetError>)
    ensures
        r matches Ok(v) ==> valid_column_name(chars@) && v == column_value(chars@),
        r matches Err(e) ==> e is BadColumnName && !(valid_column_name(chars@) && column_value(
            chars@,
        ) <= usize::MAX),
{
    let n = chars.len();
    if n == 0 {
        return Err(SheetError::BadColumnName);
    }
    let mut i: usize = 0;
    while i < n
        invariant
            i <= n,
            n == chars@.len(),
            forall|j: int| 0 <= j < i ==> is_letter(#[trigger] chars@[j]),
            forall|j: int| 0 <= j < i && j < n - 1 ==> letter_value(#[trigger] chars@[j]) == 0,
        decreases n - i,
    {
        let c = chars[i];
        let lower = 'a' <= c && c <= 'z';
        let upper = 'A' <= c && c <= 'Z';
        if !lower && !upper {
            return Err(SheetError::BadColumnName);
        }
        if i < n - 1 && c != 'a' && c != 'A' {
            return Err(SheetError::BadColumnName);
        }
        i += 1;
    }
    let last = chars[n - 1];
    let lv: usize = if 'a' <= last && last <= 'z' {
        (last as u32 - 97) as usize
    } else {
        (last as u32 - 65) as usize
    };
    if n - 1 > (usize::MAX - 27) / 26 {
        proof {
            let m = (n - 1) as int;
            assert(m * 26 + 27 > usize::MAX) by (nonlinear_arith)
                requires
                    m > (usize::MAX - 27) / 26,
            ;
        }
        if n - 1 > usize::MAX / 26 {
            return Err(SheetError::BadColumnName);
        }
        let base = (n - 1) * 26;
        if base > usize::MAX - lv - 1 {
            return Err(SheetError::BadColumnName);
        }
        return Ok(base + lv + 1);
    }
    Ok((n - 1) * 26 + lv + 1)
}

/// Reads a legal column name.
pub fn column_name_to_usize(name: &str) -> (r: usize)
    requires
        valid_column_name(name@),
        column_value(name@) <= usize::MAX,
    ensures
        r == column_value(name@),
{
    match try_column_name_to_usize(name) {
        Ok(v) => v,
        Err(_) => 0,
    }
}

/// The canonical lower-case name of a column.
pub fn usize_to_column_name(index: usize) -> (r: String)
    ensures
        r@ == column_name(index as nat),
{
    let k: usize = if index == 0 { 0 } else { index - 1 };
    let q = k / 26;
    let mut out: Vec<char> = Vec::new();
    let mut i: usize = 0;
    while i < q
        invariant
            i <= q,
            out@ == Seq::new(i as nat, |j: int| 'a'),
        decreases q - i,
    {
        out.push('a');
        i += 1;
        assert(out@ =~= Seq::new(i as nat, |j: int| 'a'));
    }
    let r = (k % 26) as u8;
    out.push((r + 97) as char);
    assert(out@ =~= column_name(index as nat));
    string_of(&out)
}

/// A column name read and written back is the name in lower case.
pub proof fn lemma_name_round_trip(s: Seq<char>)
    requires
        valid_column_name(s),
    ensures
        column_value(s) >= 1,
        column_name(column_value(s) as nat) =~= s.map_values(|c: char| lower_char(c)),
{
    let v = column_value(s);
    let k = v - 1;
    assert(k == (s.len() - 1) * 26 + letter_value(s.last()));
    assert(0 <= letter_value(s.last()) < 26) by {
        assert(is_letter(s[s.len() - 1]));
    }
    assert(k / 26 == s.len() - 1 && k % 26 == letter_value(s.last())) by (nonlinear_arith)
        requires
            k == (s.len() - 1) * 26 + letter_value(s.last()),
            0 <= letter_value(s.last()) < 26,
            s.len() >= 1,
    ;
    let t = column_name(v as nat);
    assert forall|j: int| 0 <= j < s.len() implies t[j] == lower_char(s[j]) by {
        assert(is_letter(s[j]));
        if j < s.len() - 1 {
            assert(letter_value(s[j]) == 0);
        }
    }
}

/// A column written as a name and read back is the same column.
pub proof fn lemma_index_round_trip(i: nat)
    requires
        i >= 1,
    ensures
        valid_column_name(column_name(i)),
        column_value(column_name(i)) == i,
{
    let k = (i - 1) as nat;
    let s = column_name(i);
    assert(s.len() == k / 26 + 1);
    assert(s.last() == ((k % 26) + 97) as char);
    assert forall|j: int| 0 <= j < s.len() implies is_letter(#[trigger] s[j]) by {
        if j < s.len() - 1 {
            assert(s[j] == 'a');
        }
    }
    assert forall|j: int| 0 <= j < s.len() - 1 implies letter_value(#[trigger] s[j]) == 0 by {
        assert(s[j] == 'a');
    }
    assert((k / 26) * 26 + k % 26 == k) by (nonlinear_arith);
}

} // verus!
