//! The symbolic side of the keymap: keysym values, the standard keysym name
//! table, canonical names for rendering, and case-insensitive resolution of
//! textual key names to keysyms.

use vstd::prelude::*;
use vstd::string::*;
use crate::ascii_lower;
use crate::lower_char_exec;

verus! {

/// The keysym standing for "no symbol": the sentinel for a failed resolution.
pub const KEYSYM_NOSYMBOL: u32 = 0;

/// The keysym of the Return key.
pub const KEYSYM_RETURN: u32 = 0xff0d;

/// The keysym of the Tab key.
pub const KEYSYM_TAB: u32 = 0xff09;

/// The keysym of the Escape key.
pub const KEYSYM_ESCAPE: u32 = 0xff1b;

/// Keysyms from this value up to `KEYSYM_UNICODE_MAX` encode a Unicode
/// scalar directly: keysym = scalar + offset.
pub const KEYSYM_UNICODE_OFFSET: u32 = 0x01000000;

/// The largest keysym that directly encodes a Unicode scalar.
pub const KEYSYM_UNICODE_MAX: u32 = 0x0110ffff;

/// The largest value that is a keysym at all.
pub const KEYSYM_MAX: u32 = 0x1fffffff;

/// The keysym the standard table assigns to a character.
pub uninterp spec fn keysym_of_char(c: char) -> u32;

/// Relies on `xkeysym::Keysym::from_char`, which replicates
/// `xkb_utf32_to_keysym`: the keysym depends on the character alone.
#[verifier::external_body]
pub(crate) fn char_to_keysym(c: char) -> (r: u32)
    ensures
        r == keysym_of_char(c),
{
    xkeysym::Keysym::from_char(c).raw()
}

/// The name the standard keysym table gives a keysym, `None` where it has
/// no entry.
pub uninterp spec fn raw_keysym_name(k: u32) -> Option<Seq<char>>;

/// The view of an optional string.
pub open spec fn opt_string_view(o: Option<String>) -> Option<Seq<char>> {
    match o {
        Some(s) => Some(s@),
        None => None,
    }
}

/// Relies on `xkeysym::Keysym::name`, a fixed compiled-in table: the name
/// depends on the keysym value alone.
#[verifier::external_body]
pub(crate) fn keysym_table_name(k: u32) -> (r: Option<String>)
    ensures
        opt_string_view(r) == raw_keysym_name(k),
{
    match xkeysym::Keysym::new(k).name() {
        Some(n) => Some(n.to_owned()),
        None => None,
    }
}

/// Relies on `String`'s `FromIterator` over characters: collecting characters
/// yields the string of exactly those characters.
#[verifier::external_body]
pub(crate) fn string_from_chars(v: &Vec<char>) -> (r: String)
    ensures
        r@ == v@,
{
    v.iter().copied().collect()
}

/// The characters of a string, as a vector.
pub fn chars_of_str(s: &str) -> (v: Vec<char>)
    ensures
        v@ == s@,
{
    let n = s.unicode_len();
    let mut v: Vec<char> = Vec::new();
    let mut i: usize = 0;
    while i < n
        invariant
            0 <= i <= n,
            n == s@.len(),
            v@ == s@.take(i as int),
        decreases n - i,
    {
        v.push(s.get_char(i));
        proof {
            assert(v@ =~= s@.take(i + 1));
        }
        i = i + 1;
    }
    proof {
        assert(s@.take(n as int) =~= s@);
    }
    v
}

/// A table name with its `XK_` marker removed: the names the table stores
/// read `XK_Return` or `XF86XK_AudioPlay`, the canonical forms are `Return`
/// and `XF86AudioPlay`. The first occurrence of the marker is dropped; a name
/// without the marker stays as it is.
pub open spec fn strip_marker(s: Seq<char>) -> Seq<char>
    decreases s.len(),
{
    if s.len() < 3 {
        s
    } else if s[0] == 'X' && s[1] == 'K' && s[2] == '_' {
        s.skip(3)
    } else {
        seq![s[0]] + strip_marker(s.skip(1))
    }
}

/// Remove the first `XK_` marker from a name, as `strip_marker` describes.
pub(crate) fn strip_marker_exec(v: &Vec<char>) -> (r: Vec<char>)
    ensures
        r@ == strip_marker(v@),
{
    let n = v.len();
    let mut i: usize = 0;
    proof {
        assert(v@.skip(0) =~= v@);
        assert(v@.take(0) + strip_marker(v@) =~= strip_marker(v@));
    }
    while i < n && n - i >= 3
        invariant
            0 <= i <= n,
            n == v@.len(),
            strip_marker(v@) == v@.take(i as int) + strip_marker(v@.skip(i as int)),
        decreases n - i,
    {
        if v[i] == 'X' && v[i + 1] == 'K' && v[i + 2] == '_' {
            let mut r: Vec<char> = Vec::new();
            let mut j: usize = 0;
            while j < i
                invariant
                    0 <= j <= i,
                    i + 3 <= n,
                    n == v@.len(),
                    r@ == v@.take(j as int),
                decreases i - j,
            {
                r.push(v[j]);
                proof {
                    assert(r@ =~= v@.take(j + 1));
                }
                j = j + 1;
            }
            let mut j: usize = i + 3;
            while j < n
                invariant
                    i + 3 <= j <= n,
                    n == v@.len(),
                    r@ == v@.take(i as int) + v@.subrange(i + 3, j as int),
                decreases n - j,
            {
                r.push(v[j]);
                proof {
                    assert(r@ =~= v@.take(i as int) + v@.subrange(i + 3, j + 1));
                }
                j = j + 1;
            }
            proof {
                let s = v@.skip(i as int);
                assert(s[0] == 'X' && s[1] == 'K' && s[2] == '_');
                assert(s.skip(3) =~= v@.subrange(i + 3, n as int));
                assert(r@ =~= v@.take(i as int) + s.skip(3));
            }
            return r;
        }
        proof {
            let s = v@.skip(i as int);
            assert(s.len() >= 3);
            assert(!(s[0] == 'X' && s[1] == 'K' && s[2] == '_'));
            assert(s.skip(1) =~= v@.skip(i + 1));
            assert(v@.take(i as int) + (seq![s[0]] + strip_marker(s.skip(1))) =~= v@.take(i + 1)
                + strip_marker(v@.skip(i + 1)));
        }
        i = i + 1;
    }
    proof {
        assert(strip_marker(v@.skip(i as int)) == v@.skip(i as int));
        assert(v@.take(i as int) + v@.skip(i as int) =~= v@);
    }
    let mut r: Vec<char> = Vec::new();
    let mut j: usize = 0;
    while j < n
        invariant
            0 <= j <= n,
            n == v@.len(),
            r@ == v@.take(j as int),
        decreases n - j,
    {
        r.push(v[j]);
        proof {
            assert(r@ =~= v@.take(j + 1));
        }
        j = j + 1;
    }
    proof {
        assert(v@.take(n as int) =~= v@);
    }
    r
}

/// Append every character of `src` to `dst`.
pub(crate) fn push_all(dst: &mut Vec<char>, src: &Vec<char>)
    ensures
        final(dst)@ == old(dst)@ + src@,
{
    let n = src.len();
    let mut j: usize = 0;
    while j < n
        invariant
            0 <= j <= n,
            n == src@.len(),
            dst@ == old(dst)@ + src@.take(j as int),
        decreases n - j,
    {
        dst.push(src[j]);
        proof {
            assert(dst@ =~= old(dst)@ + src@.take(j + 1));
        }
        j = j + 1;
    }
    proof {
        assert(old(dst)@ + src@.take(n as int) =~= old(dst)@ + src@);
    }
}

/// The decimal digit character for a value below ten.
pub open spec fn dec_digit(d: int) -> char {
    if d == 0 {
        '0'
    } else if d == 1 {
        '1'
    } else if d == 2 {
        '2'
    } else if d == 3 {
        '3'
    } else if d == 4 {
        '4'
    } else if d == 5 {
        '5'
    } else if d == 6 {
        '6'
    } else if d == 7 {
        '7'
    } else if d == 8 {
        '8'
    } else {
        '9'
    }
}

/// The decimal notation of a value, most significant digit first, with no
/// sign and no leading zero.
pub open spec fn spec_decimal(v: int) -> Seq<char>
    recommends
        v >= 0,
    decreases v,
{
    if v < 10 {
        seq![dec_digit(v)]
    } else {
        spec_decimal(v / 10).push(dec_digit(v % 10))
    }
}

/// The decimal digit character for a value below ten.
fn dec_digit_exec(d: u64) -> (c: char)
    requires
        d < 10,
    ensures
        c == dec_digit(d as int),
{
    if d == 0 {
        '0'
    } else if d == 1 {
        '1'
    } else if d == 2 {
        '2'
    } else if d == 3 {
        '3'
    } else if d == 4 {
        '4'
    } else if d == 5 {
        '5'
    } else if d == 6 {
        '6'
    } else if d == 7 {
        '7'
    } else if d == 8 {
        '8'
    } else {
        '9'
    }
}

/// Write a value in decimal, as `spec_decimal` describes.
pub(crate) fn decimal_chars(v: u64) -> (r: Vec<char>)
    ensures
        r@ == spec_decimal(v as int),
    decreases v,
{
    if v < 10 {
        let mut r: Vec<char> = Vec::new();
        r.push(dec_digit_exec(v));
        proof {
            assert(r@ =~= seq![dec_digit(v as int)]);
        }
        r
    } else {
        let mut r = decimal_chars(v / 10);
        r.push(dec_digit_exec(v % 10));
        r
    }
}

/// The hexadecimal digit character for a value below sixteen, in the chosen
/// case.
pub open spec fn hex_digit(d: int, upper: bool) -> char {
    if d < 10 {
        dec_digit(d)
    } else if d == 10 {
        if upper {
            'A'
        } else {
            'a'
        }
    } else if d == 11 {
        if upper {
            'B'
        } else {
            'b'
        }
    } else if d == 12 {
        if upper {
            'C'
        } else {
            'c'
        }
    } else if d == 13 {
        if upper {
            'D'
        } else {
            'd'
        }
    } else if d == 14 {
        if upper {
            'E'
        } else {
            'e'
        }
    } else {
        if upper {
            'F'
        } else {
            'f'
        }
    }
}

/// The hexadecimal notation of a value, most significant digit first, with
/// no leading zero.
pub open spec fn spec_hex(v: int, upper: bool) -> Seq<char>
    recommends
        v >= 0,
    decreases v,
{
    if v < 16 {
        seq![hex_digit(v, upper)]
    } else {
        spec_hex(v / 16, upper).push(hex_digit(v % 16, upper))
    }
}

/// The hexadecimal digit character for a value below sixteen.
fn hex_digit_exec(d: u32, upper: bool) -> (c: char)
    requires
        d < 16,
    ensures
        c == hex_digit(d as int, upper),
{
    if d < 10 {
        dec_digit_exec(d as u64)
    } else if d == 10 {
        if upper {
            'A'
        } else {
            'a'
        }
    } else if d == 11 {
        if upper {
            'B'
        } else {
            'b'
        }
    } else if d == 12 {
        if upper {
            'C'
        } else {
            'c'
        }
    } else if d == 13 {
        if upper {
            'D'
        } else {
            'd'
        }
    } else if d == 14 {
        if upper {
            'E'
        } else {
            'e'
        }
    } else {
        if upper {
            'F'
        } else {
            'f'
        }
    }
}

/// Write a value in hexadecimal, as `spec_hex` describes.
pub(crate) fn hex_chars(v: u32, upper: bool) -> (r: Vec<char>)
    ensures
        r@ == spec_hex(v as int, upper),
    decreases v,
{
    if v < 16 {
        let mut r: Vec<char> = Vec::new();
        r.push(hex_digit_exec(v, upper));
        proof {
            assert(r@ =~= seq![hex_digit(v as int, upper)]);
        }
        r
    } else {
        let mut r = hex_chars(v / 16, upper);
        r.push(hex_digit_exec(v % 16, upper));
        r
    }
}

/// The notation padded with leading zeroes up to the given width; a notation
/// already that wide stays as it is.
pub open spec fn zero_pad(s: Seq<char>, w: int) -> Seq<char> {
    if s.len() >= w {
        s
    } else {
        Seq::new((w - s.len()) as nat, |i: int| '0') + s
    }
}

/// Pad a notation with leading zeroes, as `zero_pad` describes.
pub(crate) fn zero_pad_exec(s: Vec<char>, w: usize) -> (r: Vec<char>)
    ensures
        r@ == zero_pad(s@, w as int),
{
    if s.len() >= w {
        s
    } else {
        let pad = w - s.len();
        let mut r: Vec<char> = Vec::new();
        let mut j: usize = 0;
        while j < pad
            invariant
                0 <= j <= pad,
                r@ =~= Seq::new(j as nat, |i: int| '0'),
            decreases pad - j,
        {
            r.push('0');
            proof {
                assert(r@ =~= Seq::new((j + 1) as nat, |i: int| '0'));
            }
            j = j + 1;
        }
        push_all(&mut r, &s);
        r
    }
}

/// The value of a hexadecimal digit character of either case, `-1` for any
/// other character.
pub open spec fn hex_digit_val(c: char) -> int {
    if c == '0' {
        0
    } else if c == '1' {
        1
    } else if c == '2' {
        2
    } else if c == '3' {
        3
    } else if c == '4' {
        4
    } else if c == '5' {
        5
    } else if c == '6' {
        6
    } else if c == '7' {
        7
    } else if c == '8' {
        8
    } else if c == '9' {
        9
    } else if c == 'a' || c == 'A' {
        10
    } else if c == 'b' || c == 'B' {
        11
    } else if c == 'c' || c == 'C' {
        12
    } else if c == 'd' || c == 'D' {
        13
    } else if c == 'e' || c == 'E' {
        14
    } else if c == 'f' || c == 'F' {
        15
    } else {
        -1
    }
}

/// Whether a character is a hexadecimal digit of either case.
pub open spec fn is_hex_digit(c: char) -> bool {
    hex_digit_val(c) >= 0
}

/// Whether every character of the sequence is a hexadecimal digit.
pub open spec fn all_hex(s: Seq<char>) -> bool {
    forall|i: int| 0 <= i < s.len() ==> is_hex_digit(#[trigger] s[i])
}

/// The value of a sequence of hexadecimal digits, most significant first.
pub open spec fn spec_hex_value(s: Seq<char>) -> int
    recommends
        all_hex(s),
    decreases s.len(),
{
    if s.len() == 0 {
        0
    } else {
        spec_hex_value(s.drop_last()) * 16 + hex_digit_val(s.last())
    }
}

/// The value of a digit sequence is never negative.
proof fn lemma_hex_value_nonneg(s: Seq<char>)
    requires
        all_hex(s),
    ensures
        spec_hex_value(s) >= 0,
    decreases s.len(),
{
    if s.len() > 0 {
        assert(all_hex(s.drop_last())) by {
            assert(forall|i: int|
                0 <= i < s.len() - 1 ==> #[trigger] s.drop_last()[i] == s[i]);
        }
        lemma_hex_value_nonneg(s.drop_last());
    }
}

/// Reading more digits never shrinks the value.
proof fn lemma_hex_value_monotone(s: Seq<char>, p: int)
    requires
        all_hex(s),
        0 <= p <= s.len(),
    ensures
        spec_hex_value(s) >= spec_hex_value(s.take(p)),
    decreases s.len() - p,
{
    if p < s.len() {
        let t = s.take(p + 1);
        assert(t.drop_last() =~= s.take(p));
        assert(all_hex(s.take(p)) && all_hex(t)) by {
            assert(forall|i: int| 0 <= i < p ==> #[trigger] s.take(p)[i] == s[i]);
            assert(forall|i: int| 0 <= i < p + 1 ==> #[trigger] t[i] == s[i]);
        }
        lemma_hex_value_nonneg(s.take(p));
        assert(spec_hex_value(t) == spec_hex_value(s.take(p)) * 16 + hex_digit_val(t.last()));
        assert(spec_hex_value(t) >= spec_hex_value(s.take(p)));
        lemma_hex_value_monotone(s, p + 1);
        assert(s.take(s.len() as int) =~= s);
    } else {
        assert(s.take(p) =~= s);
    }
}

/// A hexadecimal digit character.
fn hex_digit_val_exec(c: char) -> (r: Option<u32>)
    ensures
        match r {
            Some(d) => hex_digit_val(c) == d && d < 16,
            None => hex_digit_val(c) < 0,
        },
{
    if c == '0' {
        Some(0)
    } else if c == '1' {
        Some(1)
    } else if c == '2' {
        Some(2)
    } else if c == '3' {
        Some(3)
    } else if c == '4' {
        Some(4)
    } else if c == '5' {
        Some(5)
    } else if c == '6' {
        Some(6)
    } else if c == '7' {
        Some(7)
    } else if c == '8' {
        Some(8)
    } else if c == '9' {
        Some(9)
    } else if c == 'a' || c == 'A' {
        Some(10)
    } else if c == 'b' || c == 'B' {
        Some(11)
    } else if c == 'c' || c == 'C' {
        Some(12)
    } else if c == 'd' || c == 'D' {
        Some(13)
    } else if c == 'e' || c == 'E' {
        Some(14)
    } else if c == 'f' || c == 'F' {
        Some(15)
    } else {
        None
    }
}

/// Read the characters from `start` on as hexadecimal digits. Fails where
/// there is no digit at all, where a character is no digit, and where the
/// value passes the largest keysym.
fn parse_hex_from(v: &Vec<char>, start: usize) -> (r: Option<u32>)
    requires
        start <= v@.len(),
    ensures
        ({
            let s = v@.skip(start as int);
            match r {
                Some(val) => s.len() > 0 && all_hex(s) && spec_hex_value(s) == val && val
                    <= KEYSYM_MAX,
                None => s.len() == 0 || !all_hex(s) || spec_hex_value(s) > KEYSYM_MAX,
            }
        }),
{
    let ghost s = v@.skip(start as int);
    let n = v.len();
    if start == n {
        return None;
    }
    let mut acc: u64 = 0;
    let mut i: usize = start;
    while i < n
        invariant
            start <= i <= n,
            n == v@.len(),
            s == v@.skip(start as int),
            all_hex(s.take(i - start)),
            acc == spec_hex_value(s.take(i - start)),
            acc <= KEYSYM_MAX,
        decreases n - i,
    {
        let ghost p = i - start;
        match hex_digit_val_exec(v[i]) {
            None => {
                proof {
                    assert(s[p] == v@[i as int]);
                    assert(!is_hex_digit(s[p]));
                }
                return None;
            },
            Some(d) => {
                let next: u64 = acc * 16 + (d as u64);
                proof {
                    let t = s.take(p + 1);
                    assert(t.drop_last() =~= s.take(p));
                    assert(t.last() == v@[i as int]);
                    assert(spec_hex_value(t) == acc * 16 + d);
                    assert(all_hex(t)) by {
                        assert(forall|j: int| 0 <= j < p ==> #[trigger] t[j] == s.take(p)[j]);
                    }
                }
                if next > (KEYSYM_MAX as u64) {
                    proof {
                        assert(spec_hex_value(s.take(p + 1)) > KEYSYM_MAX);
                        if all_hex(s) {
                            lemma_hex_value_monotone(s, p + 1);
                        }
                    }
                    return None;
                }
                acc = next;
            },
        }
        i = i + 1;
    }
    proof {
        assert(s.take(n - start) =~= s);
    }
    Some(acc as u32)
}

/// Whether the table name of a keysym, in canonical form, equals the query
/// when ASCII case is ignored.
pub open spec fn name_entry_matches(k: u32, q: Seq<char>) -> bool {
    raw_keysym_name(k) matches Some(n) && ascii_lower(strip_marker(n)) == q
}

/// Whether the table name of a keysym matches the query and carries no ASCII
/// uppercase letter. Where two table names differ only in case, the
/// resolution prefers the lowercase one.
pub open spec fn lower_entry_matches(k: u32, q: Seq<char>) -> bool {
    raw_keysym_name(k) matches Some(n) && ascii_lower(strip_marker(n)) == q && strip_marker(n)
        == ascii_lower(strip_marker(n))
}

/// The first keysym in `[lo, hi)` whose table name matches the query; with
/// `lower_only`, the first whose name matches and is lowercase.
pub open spec fn scan_first(lo: u32, hi: u32, q: Seq<char>, lower_only: bool) -> Option<u32>
    decreases hi - lo,
{
    if lo >= hi {
        None
    } else if (if lower_only {
        lower_entry_matches(lo, q)
    } else {
        name_entry_matches(lo, q)
    }) {
        Some(lo)
    } else {
        scan_first((lo + 1) as u32, hi, q, lower_only)
    }
}

/// The first of two findings.
pub open spec fn opt_or(a: Option<u32>, b: Option<u32>) -> Option<u32> {
    if a is Some {
        a
    } else {
        b
    }
}

/// A scan over one keysym alone finds it exactly when it matches.
proof fn lemma_scan_one(k: u32, q: Seq<char>, lower_only: bool)
    requires
        k < 0xffffffff,
    ensures
        scan_first(k, (k + 1) as u32, q, lower_only) == (if (if lower_only {
            lower_entry_matches(k, q)
        } else {
            name_entry_matches(k, q)
        }) {
            Some(k)
        } else {
            None::<u32>
        }),
{
    reveal_with_fuel(scan_first, 2);
}

/// A scan over a range splits at any point of it.
proof fn lemma_scan_split(lo: u32, mid: u32, hi: u32, q: Seq<char>, lower_only: bool)
    requires
        lo <= mid <= hi,
    ensures
        scan_first(lo, hi, q, lower_only) == opt_or(
            scan_first(lo, mid, q, lower_only),
            scan_first(mid, hi, q, lower_only),
        ),
    decreases mid - lo,
{
    if lo < mid {
        lemma_scan_split((lo + 1) as u32, mid, hi, q, lower_only);
    }
}

/// The ranges of the keysym table that the resolution searches, in order:
/// the classic keysyms, the keyboard-extension keysyms, and the vendor
/// keysyms.
pub open spec fn table_scan(q: Seq<char>, lower_only: bool) -> Option<u32> {
    opt_or(
        scan_first(0, 0x10000, q, lower_only),
        opt_or(
            scan_first(0x10000000, 0x10010000, q, lower_only),
            scan_first(0x10040000, 0x10090000, q, lower_only),
        ),
    )
}

/// The ASCII-lowercased characters of a vector.
fn lower_vec(v: &Vec<char>) -> (r: Vec<char>)
    ensures
        r@ == ascii_lower(v@),
{
    let n = v.len();
    let mut r: Vec<char> = Vec::new();
    let mut j: usize = 0;
    while j < n
        invariant
            0 <= j <= n,
            n == v@.len(),
            r@ =~= ascii_lower(v@).take(j as int),
        decreases n - j,
    {
        r.push(lower_char_exec(v[j]));
        proof {
            assert(r@ =~= ascii_lower(v@).take(j + 1));
        }
        j = j + 1;
    }
    proof {
        assert(ascii_lower(v@).take(n as int) =~= ascii_lower(v@));
    }
    r
}

/// Whether two character vectors hold the same characters.
fn vec_eq(a: &Vec<char>, b: &Vec<char>) -> (r: bool)
    ensures
        r == (a@ == b@),
{
    let n = a.len();
    if n != b.len() {
        return false;
    }
    let mut j: usize = 0;
    while j < n
        invariant
            0 <= j <= n,
            n == a@.len(),
            n == b@.len(),
            forall|i: int| 0 <= i < j ==> a@[i] == b@[i],
        decreases n - j,
    {
        if a[j] != b[j] {
            return false;
        }
        j = j + 1;
    }
    proof {
        assert(a@ =~= b@);
    }
    true
}

/// Scan one keysym range for the query, returning the first lowercase-named
/// match; record the first match of any case in `first_any` where none is
/// recorded yet.
fn scan_range(lo: u32, hi: u32, q: &Vec<char>, first_any: &mut Option<u32>) -> (r: Option<u32>)
    requires
        lo <= hi,
    ensures
        r == scan_first(lo, hi, q@, true),
        r is None ==> *final(first_any) == opt_or(*old(first_any), scan_first(lo, hi, q@, false)),
{
    let mut k = lo;
    while k < hi
        invariant
            lo <= k <= hi,
            scan_first(lo, k, q@, true) is None,
            *first_any == opt_or(*old(first_any), scan_first(lo, k, q@, false)),
        decreases hi - k,
    {
        let nm = keysym_table_name(k);
        let mut matches = false;
        let mut lower = false;
        match nm {
            Some(n) => {
                let nv = chars_of_str(n.as_str());
                let canon = strip_marker_exec(&nv);
                let lowered = lower_vec(&canon);
                matches = vec_eq(&lowered, q);
                if matches {
                    lower = vec_eq(&canon, &lowered);
                }
            },
            None => {},
        }
        proof {
            assert(matches == name_entry_matches(k, q@));
            assert(lower == lower_entry_matches(k, q@));
            lemma_scan_one(k, q@, true);
            lemma_scan_one(k, q@, false);
            lemma_scan_split(lo, k, (k + 1) as u32, q@, true);
            lemma_scan_split(lo, k, (k + 1) as u32, q@, false);
        }
        if lower {
            proof {
                lemma_scan_split(lo, (k + 1) as u32, hi, q@, true);
            }
            return Some(k);
        }
        if matches && first_any.is_none() {
            *first_any = Some(k);
        }
        k = k + 1;
    }
    None
}

/// Search the keysym name table for a query already in lowercase: the first
/// lowercase-named match anywhere wins, then the first match of any case.
fn table_scan_exec(q: &Vec<char>) -> (r: Option<u32>)
    ensures
        r == opt_or(table_scan(q@, true), table_scan(q@, false)),
{
    let mut first_any: Option<u32> = None;
    if let Some(k) = scan_range(0, 0x10000, q, &mut first_any) {
        return Some(k);
    }
    if let Some(k) = scan_range(0x10000000, 0x10010000, q, &mut first_any) {
        return Some(k);
    }
    if let Some(k) = scan_range(0x10040000, 0x10090000, q, &mut first_any) {
        return Some(k);
    }
    first_any
}

/// The keysym a coded key name stands for: `u` followed by the hexadecimal
/// scalar of a typable character gives that character's direct keysym (the
/// value itself below `0x100`), and `0x` followed by a hexadecimal keysym
/// value gives that value. Anything else, a control scalar, or a value out
/// of range gives no symbol.
pub open spec fn spec_coded_keysym(q: Seq<char>) -> u32 {
    if q.len() >= 2 && q[0] == 'u' && all_hex(q.skip(1)) {
        let v = spec_hex_value(q.skip(1));
        if v < 0x20 || (0x7e < v && v < 0xa0) || v > 0x10ffff {
            KEYSYM_NOSYMBOL
        } else if v < 0x100 {
            v as u32
        } else {
            (v + KEYSYM_UNICODE_OFFSET) as u32
        }
    } else if q.len() >= 3 && q[0] == '0' && q[1] == 'x' && all_hex(q.skip(2)) {
        let v = spec_hex_value(q.skip(2));
        if v > KEYSYM_MAX {
            KEYSYM_NOSYMBOL
        } else {
            v as u32
        }
    } else {
        KEYSYM_NOSYMBOL
    }
}

/// Where a textual key name resolves, ignoring ASCII case: the empty name
/// resolves to no symbol; otherwise the name table is searched first, with
/// lowercase names preferred, and then the coded forms of
/// `spec_coded_keysym` apply. `KEYSYM_NOSYMBOL` stands for an unknown name.
pub open spec fn spec_resolve_key_name(name: Seq<char>) -> u32 {
    let q = ascii_lower(name);
    if name.len() == 0 {
        KEYSYM_NOSYMBOL
    } else {
        match opt_or(table_scan(q, true), table_scan(q, false)) {
            Some(k) => k,
            None => spec_coded_keysym(q),
        }
    }
}

/// Resolve a textual key name, as `spec_resolve_key_name` describes.
pub fn resolve_key_name(name: &str) -> (r: u32)
    ensures
        r == spec_resolve_key_name(name@),
{
    let nv = chars_of_str(name);
    let q = lower_vec(&nv);
    if q.len() == 0 {
        return KEYSYM_NOSYMBOL;
    }
    match table_scan_exec(&q) {
        Some(k) => k,
        None => {
            if q.len() >= 2 && q[0] == 'u' {
                match parse_hex_from(&q, 1) {
                    Some(v) => {
                        if v < 0x20 || (0x7e < v && v < 0xa0) || v > 0x10ffff {
                            KEYSYM_NOSYMBOL
                        } else if v < 0x100 {
                            v
                        } else {
                            v + KEYSYM_UNICODE_OFFSET
                        }
                    },
                    None => KEYSYM_NOSYMBOL,
                }
            } else if q.len() >= 3 && q[0] == '0' && q[1] == 'x' {
                match parse_hex_from(&q, 2) {
                    Some(v) => v,
                    None => KEYSYM_NOSYMBOL,
                }
            } else {
                KEYSYM_NOSYMBOL
            }
        },
    }
}

/// The empty key name resolves to no symbol, so asking a keymap for it
/// always fails with an unknown-name error.
pub proof fn lemma_empty_key_name_unknown()
    ensures
        spec_resolve_key_name(Seq::<char>::empty()) == KEYSYM_NOSYMBOL,
{
}

/// Two key names that differ only in ASCII case resolve to the same keysym.
pub proof fn lemma_key_name_case_insensitive(n1: Seq<char>, n2: Seq<char>)
    requires
        ascii_lower(n1) == ascii_lower(n2),
    ensures
        spec_resolve_key_name(n1) == spec_resolve_key_name(n2),
{
    assert(n1.len() == ascii_lower(n1).len());
    assert(n2.len() == ascii_lower(n2).len());
}

/// The canonical display name of a keysym, as the rendered keymap binds it:
/// the table name without its marker where the table has one, `U` and the
/// scalar in at least four uppercase hexadecimal digits for a keysym that
/// directly encodes a Unicode scalar, and `0x` with eight lowercase
/// hexadecimal digits for anything else.
pub open spec fn spec_keysym_display_name(k: u32) -> Seq<char> {
    match raw_keysym_name(k) {
        Some(n) => strip_marker(n),
        None => if KEYSYM_UNICODE_OFFSET <= k <= KEYSYM_UNICODE_MAX {
            seq!['U'] + zero_pad(spec_hex((k - KEYSYM_UNICODE_OFFSET) as int, true), 4)
        } else {
            seq!['0', 'x'] + zero_pad(spec_hex(k as int, false), 8)
        },
    }
}

/// The display name of a keysym, as `spec_keysym_display_name` describes.
pub fn keysym_display_name(k: u32) -> (r: Vec<char>)
    ensures
        r@ == spec_keysym_display_name(k),
{
    match keysym_table_name(k) {
        Some(n) => {
            let nv = chars_of_str(n.as_str());
            strip_marker_exec(&nv)
        },
        None => {
            let mut r: Vec<char> = Vec::new();
            if KEYSYM_UNICODE_OFFSET <= k && k <= KEYSYM_UNICODE_MAX {
                r.push('U');
                let h = zero_pad_exec(hex_chars(k - KEYSYM_UNICODE_OFFSET, true), 4);
                push_all(&mut r, &h);
                proof {
                    assert(r@ =~= seq!['U'] + h@);
                }
            } else {
                r.push('0');
                r.push('x');
                let h = zero_pad_exec(hex_chars(k, false), 8);
                push_all(&mut r, &h);
                proof {
                    assert(r@ =~= seq!['0', 'x'] + h@);
                }
            }
            r
        },
    }
}

} // verus!
