//! The line-oriented atlas description.
//!
//! Lines are split at `\n` and trimmed of spaces, tabs and carriage returns; empty
//! lines and lines starting with `//` are skipped. The first four remaining lines are
//! the binary's path, the palette's path, the start offset in hexadecimal, and the
//! number of tiles in hexadecimal (16 bytes each). Every further line is one entry of
//! six comma-separated fields: tile index (hexadecimal), x and y (octal), and the
//! palette indices c0, c1, c2 (hexadecimal). Entries of this form have no background
//! colour and no transforms.
use vstd::arithmetic::div_mod::{lemma_fundamental_div_mod, lemma_mod_pos_bound};
use vstd::prelude::*;
use vstd::string::StrSliceExecFns;

use crate::atlas::{Atlas, AtlasData};
use crate::Error;

verus! {

broadcast use vstd::string::group_string_axioms;

/// `s` cut at every `sep`: `k` separators give `k + 1` pieces, empty ones included.
pub open spec fn split_on(s: Seq<char>, sep: char) -> Seq<Seq<char>>
    decreases s.len(),
{
    if s.len() == 0 {
        seq![Seq::empty()]
    } else {
        let p = split_on(s.drop_last(), sep);
        if s.last() == sep {
            p.push(Seq::empty())
        } else {
            p.update(p.len() - 1, p.last().push(s.last()))
        }
    }
}

proof fn lemma_split_nonempty(s: Seq<char>, sep: char)
    ensures
        split_on(s, sep).len() >= 1,
    decreases s.len(),
{
    if s.len() > 0 {
        lemma_split_nonempty(s.drop_last(), sep);
    }
}

/// Spaces, tabs and carriage returns.
pub open spec fn is_blank(c: char) -> bool {
    c == ' ' || c == '\t' || c == '\r'
}

/// `s` without its leading blanks.
pub open spec fn trim_start(s: Seq<char>) -> Seq<char>
    decreases s.len(),
{
    if s.len() > 0 && is_blank(s[0]) {
        trim_start(s.drop_first())
    } else {
        s
    }
}

/// `s` without its trailing blanks.
pub open spec fn trim_end(s: Seq<char>) -> Seq<char>
    decreases s.len(),
{
    if s.len() > 0 && is_blank(s.last()) {
        trim_end(s.drop_last())
    } else {
        s
    }
}

/// `s` without its leading and trailing blanks.
pub open spec fn trimmed(s: Seq<char>) -> Seq<char> {
    trim_end(trim_start(s))
}

/// The characters of `s`, in order.
fn chars_of(s: &str) -> (r: Vec<char>)
    ensures
        r@ == s@,
{
    let mut r: Vec<char> = Vec::new();
    for c in it: s.chars()
        invariant
            it.seq() == s@,
            r@ == s@.take(it.index() as int),
    {
        assert(s@.take(it.index() as int).push(c) =~= s@.take(it.index() + 1));
        r.push(c);
    }
    assert(r@ =~= s@);
    r
}

/// The bounds of the pieces of `chars[lo..hi]` cut at every `sep`.
fn split_ranges(chars: &Vec<char>, lo: usize, hi: usize, sep: char) -> (r: Vec<(usize, usize)>)
    requires
        lo <= hi <= chars@.len(),
    ensures
        r@.len() == split_on(chars@.subrange(lo as int, hi as int), sep).len(),
        forall|k: int| 0 <= k < r@.len() ==> lo <= (#[trigger] r@[k]).0 <= r@[k].1 <= hi,
        forall|k: int| 0 <= k < r@.len() ==> chars@.subrange((#[trigger] r@[k]).0 as int, r@[k].1 as int)
            == split_on(chars@.subrange(lo as int, hi as int), sep)[k],
{
    let mut r: Vec<(usize, usize)> = Vec::new();
    let mut start = lo;
    let mut i = lo;
    proof {
        assert(chars@.subrange(lo as int, lo as int) =~= Seq::<char>::empty());
    }
    while i < hi
        invariant
            lo <= start <= i <= hi <= chars@.len(),
            r@.len() + 1 == split_on(chars@.subrange(lo as int, i as int), sep).len(),
            forall|k: int| 0 <= k < r@.len() ==> lo <= (#[trigger] r@[k]).0 <= r@[k].1 <= hi,
            forall|k: int| 0 <= k < r@.len() ==> chars@.subrange((#[trigger] r@[k]).0 as int, r@[k].1 as int)
                == split_on(chars@.subrange(lo as int, i as int), sep)[k],
            split_on(chars@.subrange(lo as int, i as int), sep).last() == chars@.subrange(start as int, i as int),
        decreases hi - i,
    {
        let ghost before = split_on(chars@.subrange(lo as int, i as int), sep);
        proof {
            assert(chars@.subrange(lo as int, i + 1).drop_last() =~= chars@.subrange(lo as int, i as int));
            lemma_split_nonempty(chars@.subrange(lo as int, i as int), sep);
        }
        if chars[i] == sep {
            r.push((start, i));
            start = i + 1;
            proof {
                assert(chars@.subrange(start as int, i + 1) =~= Seq::<char>::empty());
            }
        } else {
            proof {
                assert(chars@.subrange(start as int, i + 1) =~= chars@.subrange(start as int, i as int).push(chars@[i as int]));
            }
        }
        i = i + 1;
    }
    proof {
        lemma_split_nonempty(chars@.subrange(lo as int, hi as int), sep);
    }
    r.push((start, hi));
    r
}

/// The bounds of `chars[lo..hi]` without its leading and trailing blanks.
fn trim_range(chars: &Vec<char>, lo: usize, hi: usize) -> (r: (usize, usize))
    requires
        lo <= hi <= chars@.len(),
    ensures
        lo <= r.0 <= r.1 <= hi,
        chars@.subrange(r.0 as int, r.1 as int) == trimmed(chars@.subrange(lo as int, hi as int)),
{
    let mut a = lo;
    while a < hi && is_blank_char(chars[a])
        invariant
            lo <= a <= hi <= chars@.len(),
            trim_start(chars@.subrange(lo as int, hi as int)) == trim_start(chars@.subrange(a as int, hi as int)),
        decreases hi - a,
    {
        assert(chars@.subrange(a as int, hi as int).drop_first() =~= chars@.subrange(a + 1, hi as int));
        a = a + 1;
    }
    let mut b = hi;
    while b > a && is_blank_char(chars[b - 1])
        invariant
            lo <= a <= b <= hi <= chars@.len(),
            trim_start(chars@.subrange(lo as int, hi as int)) == chars@.subrange(a as int, hi as int) ==> trimmed(
                chars@.subrange(lo as int, hi as int),
            ) == trim_end(chars@.subrange(a as int, b as int)),
        decreases b - a,
    {
        assert(chars@.subrange(a as int, b as int).drop_last() =~= chars@.subrange(a as int, b - 1));
        b = b - 1;
    }
    (a, b)
}

fn is_blank_char(c: char) -> (r: bool)
    ensures
        r == is_blank(c),
{
    c == ' ' || c == '\t' || c == '\r'
}

/// A trimmed line that carries content: not empty and not a `//` comment.
pub open spec fn is_content(l: Seq<char>) -> bool {
    l.len() > 0 && !(l.len() >= 2 && l[0] == '/' && l[1] == '/')
}

/// The content lines among `ls`, in order.
pub open spec fn kept(ls: Seq<Seq<char>>) -> Seq<Seq<char>>
    decreases ls.len(),
{
    if ls.len() == 0 {
        Seq::empty()
    } else if is_content(ls.last()) {
        kept(ls.drop_last()).push(ls.last())
    } else {
        kept(ls.drop_last())
    }
}

/// The trimmed content lines of a description.
pub open spec fn content_lines(s: Seq<char>) -> Seq<Seq<char>> {
    kept(split_on(s, '\n').map_values(|l: Seq<char>| trimmed(l)))
}

/// The value of a digit in base `radix`, if it is one.
pub open spec fn digit_value(c: char, radix: nat) -> Option<nat> {
    let v: int = if '0' <= c <= '9' {
        c as int - '0' as int
    } else if 'a' <= c <= 'f' {
        c as int - 'a' as int + 10
    } else if 'A' <= c <= 'F' {
        c as int - 'A' as int + 10
    } else {
        16
    };
    if v < radix {
        Some(v as nat)
    } else {
        None
    }
}

/// Every character of `s` is a digit in base `radix`.
pub open spec fn all_digits(s: Seq<char>, radix: nat) -> bool {
    forall|i: int| 0 <= i < s.len() ==> (#[trigger] digit_value(s[i], radix)) is Some
}

/// The number that the digits `s` write in base `radix`, most significant first.
pub open spec fn digits_value(s: Seq<char>, radix: nat) -> nat
    decreases s.len(),
{
    if s.len() == 0 {
        0
    } else {
        digits_value(s.drop_last(), radix) * radix + digit_value(s.last(), radix)->0
    }
}

/// The number `s` writes in base `radix`, when it is one or more digits and at most `max`.
pub open spec fn number_in(s: Seq<char>, radix: nat, max: nat) -> Option<nat> {
    if s.len() > 0 && all_digits(s, radix) && digits_value(s, radix) <= max {
        Some(digits_value(s, radix))
    } else {
        None
    }
}

/// Appending digits never makes a number smaller.
proof fn lemma_digits_grow(s: Seq<char>, k: int, radix: nat)
    requires
        0 <= k <= s.len(),
        radix >= 1,
    ensures
        digits_value(s.take(k), radix) <= digits_value(s, radix),
    decreases s.len() - k,
{
    if k < s.len() {
        lemma_digits_grow(s, k + 1, radix);
        assert(s.take(k + 1).drop_last() =~= s.take(k));
        let v = digits_value(s.take(k), radix);
        assert(v <= v * radix) by (nonlinear_arith)
            requires
                radix >= 1,
        ;
    } else {
        assert(s.take(k) =~= s);
    }
}

fn digit_of(c: char, radix: u64) -> (r: Option<u64>)
    requires
        radix <= 16,
    ensures
        r matches Some(v) ==> digit_value(c, radix as nat) == Some(v as nat),
        r is None ==> digit_value(c, radix as nat) is None,
{
    let v: u64 = if '0' <= c && c <= '9' {
        (c as u32 - '0' as u32) as u64
    } else if 'a' <= c && c <= 'f' {
        (c as u32 - 'a' as u32 + 10) as u64
    } else if 'A' <= c && c <= 'F' {
        (c as u32 - 'A' as u32 + 10) as u64
    } else {
        16
    };
    if v < radix {
        Some(v)
    } else {
        None
    }
}

/// Reads `chars[lo..hi]` as a number in base `radix` of at most `max`.
fn parse_number(chars: &Vec<char>, lo: usize, hi: usize, radix: u64, max: u64) -> (r: Option<u64>)
    requires
        lo <= hi <= chars@.len(),
        2 <= radix <= 16,
    ensures
        r matches Some(v) ==> number_in(chars@.subrange(lo as int, hi as int), radix as nat, max as nat) == Some(v as nat),
        r is None ==> number_in(chars@.subrange(lo as int, hi as int), radix as nat, max as nat) is None,
{
    let ghost s = chars@.subrange(lo as int, hi as int);
    if lo == hi {
        return None;
    }
    let mut v: u64 = 0;
    let mut i = lo;
    while i < hi
        invariant
            lo <= i <= hi <= chars@.len(),
            s == chars@.subrange(lo as int, hi as int),
            2 <= radix <= 16,
            all_digits(s.take(i - lo), radix as nat),
            v == digits_value(s.take(i - lo), radix as nat),
            v <= max,
        decreases hi - i,
    {
        let ghost k = i - lo;
        proof {
            assert(s.take(k + 1).drop_last() =~= s.take(k));
            assert(s[k] == chars@[i as int]);
        }
        let d = match digit_of(chars[i], radix) {
            Some(d) => d,
            None => return None,
        };
        if d > max {
            proof {
                lemma_digits_grow(s, k + 1, radix as nat);
            }
            return None;
        }
        let q = (max - d) / radix;
        proof {
            lemma_fundamental_div_mod((max - d) as int, radix as int);
            lemma_mod_pos_bound((max - d) as int, radix as int);
        }
        if v > q {
            proof {
                assert(v * radix + d > max) by (nonlinear_arith)
                    requires
                        v > q,
                        (max - d) as int == radix * q + ((max - d) as int % (radix as int)),
                        ((max - d) as int % (radix as int)) < (radix as int),
                        radix >= 2,
                ;
                lemma_digits_grow(s, k + 1, radix as nat);
            }
            return None;
        }
        proof {
            assert(v * radix + d <= max) by (nonlinear_arith)
                requires
                    v <= q,
                    (max - d) as int == radix * q + ((max - d) as int % (radix as int)),
                    0 <= ((max - d) as int % (radix as int)),
                    radix >= 2,
                    d <= max,
            ;
        }
        v = v * radix + d;
        proof {
            assert forall|j: int| 0 <= j < k + 1 implies (#[trigger] digit_value(s.take(k + 1)[j], radix as nat)) is Some by {
                if j < k {
                    assert(s.take(k + 1)[j] == s.take(k)[j]);
                }
            }
        }
        i = i + 1;
    }
    proof {
        assert(s.take(hi - lo) =~= s);
    }
    Some(v)
}

/// The bounds of the trimmed content lines of `chars`.
fn content_line_ranges(chars: &Vec<char>) -> (r: Vec<(usize, usize)>)
    ensures
        r@.len() == content_lines(chars@).len(),
        forall|k: int| 0 <= k < r@.len() ==> (#[trigger] r@[k]).0 <= r@[k].1 <= chars@.len(),
        forall|k: int| 0 <= k < r@.len() ==> chars@.subrange((#[trigger] r@[k]).0 as int, r@[k].1 as int)
            == content_lines(chars@)[k],
{
    let lines = split_ranges(chars, 0, chars.len(), '\n');
    assert(chars@.subrange(0, chars@.len() as int) =~= chars@);
    let ghost pieces = split_on(chars@, '\n').map_values(|l: Seq<char>| trimmed(l));
    let mut r: Vec<(usize, usize)> = Vec::new();
    let mut j: usize = 0;
    assert(pieces.take(0) =~= Seq::<Seq<char>>::empty());
    while j < lines.len()
        invariant
            0 <= j <= lines@.len(),
            lines@.len() == pieces.len(),
            pieces == split_on(chars@, '\n').map_values(|l: Seq<char>| trimmed(l)),
            forall|k: int| 0 <= k < lines@.len() ==> (#[trigger] lines@[k]).0 <= lines@[k].1 <= chars@.len(),
            forall|k: int| 0 <= k < lines@.len() ==> chars@.subrange((#[trigger] lines@[k]).0 as int, lines@[k].1 as int)
                == split_on(chars@, '\n')[k],
            r@.len() == kept(pieces.take(j as int)).len(),
            forall|k: int| 0 <= k < r@.len() ==> (#[trigger] r@[k]).0 <= r@[k].1 <= chars@.len(),
            forall|k: int| 0 <= k < r@.len() ==> chars@.subrange((#[trigger] r@[k]).0 as int, r@[k].1 as int)
                == kept(pieces.take(j as int))[k],
        decreases lines@.len() - j,
    {
        let (lo, hi) = lines[j];
        let (a, b) = trim_range(chars, lo, hi);
        proof {
            assert(pieces.take(j + 1).drop_last() =~= pieces.take(j as int));
            assert(pieces[j as int] == chars@.subrange(a as int, b as int));
        }
        let content = b > a && !(b - a >= 2 && chars[a] == '/' && chars[a + 1] == '/');
        proof {
            let l = chars@.subrange(a as int, b as int);
            if b - a >= 2 {
                assert(l[0] == chars@[a as int] && l[1] == chars@[a + 1]);
            }
            assert(content == is_content(l));
        }
        if content {
            r.push((a, b));
        }
        j = j + 1;
    }
    assert(pieces.take(j as int) =~= pieces);
    r
}

/// Why a description is refused: its shape, or a field that is not a number.
pub enum Fault {
    Shape,
    Field(Seq<char>),
}

/// The base of entry field `k`: octal for the position, hexadecimal otherwise.
pub open spec fn field_radix(k: int) -> nat {
    if k == 1 || k == 2 { 8 } else { 16 }
}

/// The largest value entry field `k` holds.
pub open spec fn field_max(k: int) -> nat {
    if k == 1 || k == 2 { u32::MAX as nat } else { usize::MAX as nat }
}

/// The first of the fields `ts[0..k]` that is not a number in its base and range.
pub open spec fn field_fault(ts: Seq<Seq<char>>, k: nat) -> Option<Seq<char>>
    decreases k,
{
    if k == 0 {
        None
    } else {
        match field_fault(ts, (k - 1) as nat) {
            Some(t) => Some(t),
            None => if number_in(ts[k - 1], field_radix(k - 1), field_max(k - 1)) is None {
                Some(ts[k - 1])
            } else {
                None
            },
        }
    }
}

/// The entry that an entry line describes.
pub open spec fn entry_of(l: Seq<char>) -> Result<AtlasData, Fault> {
    let ts = split_on(l, ',').map_values(|f: Seq<char>| trimmed(f));
    if ts.len() != 6 {
        Err(Fault::Shape)
    } else {
        match field_fault(ts, 6) {
            Some(t) => Err(Fault::Field(t)),
            None => Ok(AtlasData {
                chr_index: digits_value(ts[0], 16) as usize,
                x: digits_value(ts[1], 8) as u32,
                y: digits_value(ts[2], 8) as u32,
                c0: digits_value(ts[3], 16) as usize,
                c1: digits_value(ts[4], 16) as usize,
                c2: digits_value(ts[5], 16) as usize,
                cbg: None,
                transpose: false,
                flip_x: false,
                flip_y: false,
            }),
        }
    }
}

/// The entries that entry lines describe, or the fault of the first line that has one.
pub open spec fn entries_of(ls: Seq<Seq<char>>) -> Result<Seq<AtlasData>, Fault>
    decreases ls.len(),
{
    if ls.len() == 0 {
        Ok(Seq::empty())
    } else {
        match entries_of(ls.drop_last()) {
            Err(f) => Err(f),
            Ok(es) => match entry_of(ls.last()) {
                Err(f) => Err(f),
                Ok(e) => Ok(es.push(e)),
            },
        }
    }
}

/// What a description holds.
pub struct Described {
    pub binary: Seq<char>,
    pub palette: Seq<char>,
    pub start: nat,
    pub length: nat,
    pub data: Seq<AtlasData>,
}

/// What description `s` holds, or why it is refused.
pub open spec fn described(s: Seq<char>) -> Result<Described, Fault> {
    let ls = content_lines(s);
    if ls.len() < 4 {
        Err(Fault::Shape)
    } else {
        match number_in(ls[2], 16, u64::MAX as nat) {
            None => Err(Fault::Field(ls[2])),
            Some(start) => match number_in(ls[3], 16, (usize::MAX / 16) as nat) {
                None => Err(Fault::Field(ls[3])),
                Some(tiles) => match entries_of(ls.subrange(4, ls.len() as int)) {
                    Err(f) => Err(f),
                    Ok(data) => Ok(Described { binary: ls[0], palette: ls[1], start, length: tiles * 16, data }),
                },
            },
        }
    }
}

/// The error a fault is reported as: a field fault carries the field.
pub open spec fn reports(e: Error, f: Fault) -> bool {
    match f {
        Fault::Shape => e == Error::DescriptionShapeError,
        Fault::Field(t) => e matches Error::FieldParseError(text) && text@ == t,
    }
}

/// The text of `chars[lo..hi]`, taken from `s`, whose characters `chars` are.
fn text_of(s: &str, chars: &Vec<char>, lo: usize, hi: usize) -> (r: String)
    requires
        chars@ == s@,
        lo <= hi <= chars@.len(),
    ensures
        r@ == chars@.subrange(lo as int, hi as int),
{
    String::from_str(s.substring_char(lo, hi))
}

/// A field fault among the first fields stays the first one.
proof fn lemma_field_fault_stays(ts: Seq<Seq<char>>, k: nat, m: nat)
    requires
        k <= m,
        field_fault(ts, k) is Some,
    ensures
        field_fault(ts, m) == field_fault(ts, k),
    decreases m - k,
{
    if k < m {
        lemma_field_fault_stays(ts, k, (m - 1) as nat);
    }
}

/// Reads the entry line `chars[lo..hi]`.
fn parse_entry(s: &str, chars: &Vec<char>, lo: usize, hi: usize) -> (r: Result<AtlasData, Error>)
    requires
        chars@ == s@,
        lo <= hi <= chars@.len(),
    ensures
        match entry_of(chars@.subrange(lo as int, hi as int)) {
            Ok(e) => r == Ok::<AtlasData, Error>(e),
            Err(f) => r matches Err(e) && reports(e, f),
        },
{
    let ghost l = chars@.subrange(lo as int, hi as int);
    let ghost ts = split_on(l, ',').map_values(|f: Seq<char>| trimmed(f));
    let fields = split_ranges(chars, lo, hi, ',');
    if fields.len() != 6 {
        return Err(Error::DescriptionShapeError);
    }
    let mut vals = [0u64; 6];
    let mut k: usize = 0;
    while k < 6
        invariant
            0 <= k <= 6,
            chars@ == s@,
            lo <= hi <= chars@.len(),
            l == chars@.subrange(lo as int, hi as int),
            fields@.len() == 6,
            ts.len() == 6,
            ts == split_on(l, ',').map_values(|f: Seq<char>| trimmed(f)),
            forall|j: int| 0 <= j < 6 ==> lo <= (#[trigger] fields@[j]).0 <= fields@[j].1 <= hi,
            forall|j: int| 0 <= j < 6 ==> chars@.subrange((#[trigger] fields@[j]).0 as int, fields@[j].1 as int)
                == split_on(l, ',')[j],
            field_fault(ts, k as nat) is None,
            forall|j: int| 0 <= j < k ==> number_in(#[trigger] ts[j], field_radix(j), field_max(j)) == Some(vals@[j] as nat),
        decreases 6 - k,
    {
        let (a, b) = trim_range(chars, fields[k].0, fields[k].1);
        assert(chars@.subrange(a as int, b as int) == ts[k as int]);
        let radix: u64 = if k == 1 || k == 2 { 8 } else { 16 };
        let max: u64 = if k == 1 || k == 2 { u32::MAX as u64 } else { usize::MAX as u64 };
        match parse_number(chars, a, b, radix, max) {
            Some(v) => {
                vals[k] = v;
            },
            None => {
                proof {
                    assert(field_fault(ts, (k + 1) as nat) == Some(ts[k as int]));
                    lemma_field_fault_stays(ts, (k + 1) as nat, 6);
                    assert(entry_of(l) == Err::<AtlasData, Fault>(Fault::Field(ts[k as int])));
                }
                let text = text_of(s, chars, a, b);
                return Err(Error::FieldParseError(text));
            },
        }
        k = k + 1;
    }
    proof {
        assert(number_in(ts[0], 16, usize::MAX as nat) == Some(vals@[0] as nat));
        assert(number_in(ts[1], 8, u32::MAX as nat) == Some(vals@[1] as nat));
        assert(number_in(ts[2], 8, u32::MAX as nat) == Some(vals@[2] as nat));
        assert(number_in(ts[3], 16, usize::MAX as nat) == Some(vals@[3] as nat));
        assert(number_in(ts[4], 16, usize::MAX as nat) == Some(vals@[4] as nat));
        assert(number_in(ts[5], 16, usize::MAX as nat) == Some(vals@[5] as nat));
    }
    Ok(AtlasData {
        chr_index: vals[0] as usize,
        x: vals[1] as u32,
        y: vals[2] as u32,
        c0: vals[3] as usize,
        c1: vals[4] as usize,
        c2: vals[5] as usize,
        cbg: None,
        transpose: false,
        flip_x: false,
        flip_y: false,
    })
}

/// A description of fewer than four content lines lacks its header.
pub proof fn lemma_short_header(s: Seq<char>)
    requires
        content_lines(s).len() < 4,
    ensures
        described(s) == Err::<Described, Fault>(Fault::Shape),
{
}

/// A description of exactly four content lines whose numbers read describes the atlas of
/// that header with no entries: the two paths as written, the start offset, and a byte
/// length of 16 per tile.
pub proof fn lemma_header_only(s: Seq<char>)
    requires
        content_lines(s).len() == 4,
        number_in(content_lines(s)[2], 16, u64::MAX as nat) is Some,
        number_in(content_lines(s)[3], 16, (usize::MAX / 16) as nat) is Some,
    ensures
        described(s) is Ok,
        described(s)->Ok_0.binary == content_lines(s)[0],
        described(s)->Ok_0.palette == content_lines(s)[1],
        described(s)->Ok_0.start == number_in(content_lines(s)[2], 16, u64::MAX as nat)->0,
        described(s)->Ok_0.length == 16 * number_in(content_lines(s)[3], 16, (usize::MAX / 16) as nat)->0,
        described(s)->Ok_0.data.len() == 0,
{
    assert(content_lines(s).subrange(4, 4) =~= Seq::<Seq<char>>::empty());
}

/// An entry line without exactly six comma-separated fields is refused for its shape.
pub proof fn lemma_entry_field_count(l: Seq<char>)
    requires
        split_on(l, ',').len() != 6,
    ensures
        entry_of(l) == Err::<AtlasData, Fault>(Fault::Shape),
{
}

/// A description whose header reads but whose first entry line does not have exactly six
/// fields is refused for its shape.
pub proof fn lemma_first_entry_field_count(s: Seq<char>)
    requires
        content_lines(s).len() >= 5,
        number_in(content_lines(s)[2], 16, u64::MAX as nat) is Some,
        number_in(content_lines(s)[3], 16, (usize::MAX / 16) as nat) is Some,
        split_on(content_lines(s)[4], ',').len() != 6,
    ensures
        described(s) == Err::<Described, Fault>(Fault::Shape),
{
    let ls = content_lines(s);
    let es = ls.subrange(4, ls.len() as int);
    assert(es.take(1).drop_last() =~= Seq::<Seq<char>>::empty());
    assert(es.take(1).last() == ls[4]);
    lemma_entry_field_count(ls[4]);
    assert(entries_of(es.take(1).drop_last()) == Ok::<Seq<AtlasData>, Fault>(Seq::empty()));
    assert(entries_of(es.take(1)) == Err::<Seq<AtlasData>, Fault>(Fault::Shape));
    lemma_entries_fault_prefix(es, 1);
}

/// Reads an atlas from its line-oriented description.
pub fn parse_atlas(s: &str) -> (r: Result<Atlas, Error>)
    ensures
        match described(s@) {
            Ok(d) => r matches Ok(a) && a.binary@ == d.binary && a.palette@ == d.palette && a.start == d.start
                && a.length == d.length && a.data@ == d.data,
            Err(f) => r matches Err(e) && reports(e, f),
        },
{
    let chars = chars_of(s);
    let lines = content_line_ranges(&chars);
    let ghost ls = content_lines(s@);
    if lines.len() < 4 {
        return Err(Error::DescriptionShapeError);
    }
    let start = match parse_number(&chars, lines[2].0, lines[2].1, 16, u64::MAX) {
        Some(v) => v,
        None => return Err(Error::FieldParseError(text_of(s, &chars, lines[2].0, lines[2].1))),
    };
    let tiles = match parse_number(&chars, lines[3].0, lines[3].1, 16, (usize::MAX / 16) as u64) {
        Some(v) => v,
        None => return Err(Error::FieldParseError(text_of(s, &chars, lines[3].0, lines[3].1))),
    };
    let length = tiles as usize * 16;
    let mut data: Vec<AtlasData> = Vec::new();
    let mut j: usize = 4;
    proof {
        assert(ls.subrange(4, 4) =~= Seq::<Seq<char>>::empty());
    }
    while j < lines.len()
        invariant
            4 <= j <= lines@.len(),
            chars@ == s@,
            ls.len() >= 4,
            number_in(ls[2], 16, u64::MAX as nat) == Some(start as nat),
            number_in(ls[3], 16, (usize::MAX / 16) as nat) == Some(tiles as nat),
            ls == content_lines(s@),
            lines@.len() == ls.len(),
            forall|k: int| 0 <= k < lines@.len() ==> (#[trigger] lines@[k]).0 <= lines@[k].1 <= chars@.len(),
            forall|k: int| 0 <= k < lines@.len() ==> chars@.subrange((#[trigger] lines@[k]).0 as int, lines@[k].1 as int)
                == ls[k],
            entries_of(ls.subrange(4, j as int)) == Ok::<Seq<AtlasData>, Fault>(data@),
        decreases lines@.len() - j,
    {
        proof {
            assert(ls.subrange(4, j + 1).drop_last() =~= ls.subrange(4, j as int));
        }
        match parse_entry(s, &chars, lines[j].0, lines[j].1) {
            Ok(e) => {
                proof {
                    assert(ls.subrange(4, j + 1).last() == ls[j as int]);
                }
                data.push(e);
            },
            Err(e) => {
                proof {
                    assert(ls.subrange(4, j + 1).last() == ls[j as int]);
                    assert(ls.subrange(4, ls.len() as int).take(j - 4 + 1) =~= ls.subrange(4, j + 1));
                    lemma_entries_fault_prefix(ls.subrange(4, ls.len() as int), j - 4 + 1);
                }
                return Err(e);
            },
        }
        j = j + 1;
    }
    proof {
        assert(ls.subrange(4, j as int) =~= ls.subrange(4, ls.len() as int));
    }
    let binary = text_of(s, &chars, lines[0].0, lines[0].1);
    let palette = text_of(s, &chars, lines[1].0, lines[1].1);
    Ok(Atlas { binary, palette, start, length, data })
}

/// A fault among the first entry lines is the fault of all of them.
proof fn lemma_entries_fault_prefix(ls: Seq<Seq<char>>, k: int)
    requires
        0 <= k <= ls.len(),
        entries_of(ls.take(k)) is Err,
    ensures
        entries_of(ls) == entries_of(ls.take(k)),
    decreases ls.len() - k,
{
    if k < ls.len() {
        assert(ls.take(k + 1).drop_last() =~= ls.take(k));
        lemma_entries_fault_prefix(ls, k + 1);
    } else {
        assert(ls.take(k) =~= ls);
    }
}

} // verus!
