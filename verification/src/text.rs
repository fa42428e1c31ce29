use vstd::prelude::*;

verus! {

/// `c` with an ASCII lowercase letter turned uppercase; every other char unchanged.
pub open spec fn ascii_upper_char(c: char) -> char {
    if 'a' <= c && c <= 'z' {
        ((c as u32) - 32) as char
    } else {
        c
    }
}

/// `c` with an ASCII uppercase letter turned lowercase; every other char unchanged.
pub open spec fn ascii_lower_char(c: char) -> char {
    if 'A' <= c && c <= 'Z' {
        ((c as u32) + 32) as char
    } else {
        c
    }
}

pub open spec fn ascii_upper(s: Seq<char>) -> Seq<char> {
    s.map_values(|c: char| ascii_upper_char(c))
}

pub open spec fn ascii_lower(s: Seq<char>) -> Seq<char> {
    s.map_values(|c: char| ascii_lower_char(c))
}

fn upper_char(c: char) -> (r: char)
    ensures
        r == ascii_upper_char(c),
{
    if 'a' <= c && c <= 'z' {
        ((c as u8) - 32) as char
    } else {
        c
    }
}

fn lower_char(c: char) -> (r: char)
    ensures
        r == ascii_lower_char(c),
{
    if 'A' <= c && c <= 'Z' {
        ((c as u8) + 32) as char
    } else {
        c
    }
}

/// Whether `s`, its ASCII letters uppercased, spells `t`.
pub fn upper_equals(s: &str, t: &str) -> (b: bool)
    ensures
        b == (ascii_upper(s@) == t@),
{
    let n = s.unicode_len();
    let m = t.unicode_len();
    if n != m {
        proof {
            assert(ascii_upper(s@).len() != t@.len());
        }
        return false;
    }
    let mut i: usize = 0;
    while i < n
        invariant
            n == s@.len(),
            m == t@.len(),
            n == m,
            0 <= i <= n,
            forall|k: int| 0 <= k < i ==> ascii_upper_char(#[trigger] s@[k]) == t@[k],
        decreases n - i,
    {
        if upper_char(s.get_char(i)) != t.get_char(i) {
            proof {
                assert(ascii_upper(s@)[i as int] != t@[i as int]);
            }
            return false;
        }
        i += 1;
    }
    proof {
        assert(ascii_upper(s@) =~= t@);
    }
    true
}

/// Whether `s`, its ASCII letters lowercased, spells `t`.
pub fn lower_equals(s: &str, t: &str) -> (b: bool)
    ensures
        b == (ascii_lower(s@) == t@),
{
    let n = s.unicode_len();
    let m = t.unicode_len();
    if n != m {
        proof {
            assert(ascii_lower(s@).len() != t@.len());
        }
        return false;
    }
    let mut i: usize = 0;
    while i < n
        invariant
            n == s@.len(),
            m == t@.len(),
            n == m,
            0 <= i <= n,
            forall|k: int| 0 <= k < i ==> ascii_lower_char(#[trigger] s@[k]) == t@[k],
        decreases n - i,
    {
        if lower_char(s.get_char(i)) != t.get_char(i) {
            proof {
                assert(ascii_lower(s@)[i as int] != t@[i as int]);
            }
            return false;
        }
        i += 1;
    }
    proof {
        assert(ascii_lower(s@) =~= t@);
    }
    true
}

/// The characters Unicode gives the White_Space property, which is what
/// `char::is_whitespace` tests and `str::trim` strips.
pub open spec fn is_space(c: char) -> bool {
    ||| ('\u{9}' <= c && c <= '\u{d}')
    ||| c == ' '
    ||| c == '\u{85}'
    ||| c == '\u{a0}'
    ||| c == '\u{1680}'
    ||| ('\u{2000}' <= c && c <= '\u{200a}')
    ||| c == '\u{2028}'
    ||| c == '\u{2029}'
    ||| c == '\u{202f}'
    ||| c == '\u{205f}'
    ||| c == '\u{3000}'
}

/// `s` without its leading white space.
pub open spec fn trim_start(s: Seq<char>) -> Seq<char>
    decreases s.len(),
{
    if s.len() > 0 && is_space(s[0]) {
        trim_start(s.drop_first())
    } else {
        s
    }
}

/// `s` without its trailing white space.
pub open spec fn trim_end(s: Seq<char>) -> Seq<char>
    decreases s.len(),
{
    if s.len() > 0 && is_space(s.last()) {
        trim_end(s.drop_last())
    } else {
        s
    }
}

/// `s` without leading and trailing white space.
pub open spec fn trim(s: Seq<char>) -> Seq<char> {
    trim_end(trim_start(s))
}

fn space_char(c: char) -> (b: bool)
    ensures
        b == is_space(c),
{
    ('\u{9}' <= c && c <= '\u{d}') || c == ' ' || c == '\u{85}' || c == '\u{a0}' || c
        == '\u{1680}' || ('\u{2000}' <= c && c <= '\u{200a}') || c == '\u{2028}' || c
        == '\u{2029}' || c == '\u{202f}' || c == '\u{205f}' || c == '\u{3000}'
}

proof fn lemma_trim_start_at(s: Seq<char>, i: int)
    requires
        0 <= i <= s.len(),
        forall|k: int| 0 <= k < i ==> is_space(#[trigger] s[k]),
        i == s.len() || !is_space(s[i]),
    ensures
        trim_start(s) == s.subrange(i, s.len() as int),
    decreases i,
{
    if i == 0 {
        assert(s.subrange(0, s.len() as int) =~= s);
    } else {
        let t = s.drop_first();
        assert forall|k: int| 0 <= k < i - 1 implies is_space(#[trigger] t[k]) by {
            assert(t[k] == s[k + 1]);
        }
        if i < s.len() {
            assert(t[i - 1] == s[i]);
        }
        lemma_trim_start_at(t, i - 1);
        assert(t.subrange(i - 1, t.len() as int) =~= s.subrange(i, s.len() as int));
    }
}

proof fn lemma_trim_end_at(s: Seq<char>, j: int)
    requires
        0 <= j <= s.len(),
        forall|k: int| j <= k < s.len() ==> is_space(#[trigger] s[k]),
        j == 0 || !is_space(s[j - 1]),
    ensures
        trim_end(s) == s.subrange(0, j),
    decreases s.len() - j,
{
    if j == s.len() {
        assert(s.subrange(0, j) =~= s);
    } else {
        let t = s.drop_last();
        assert forall|k: int| j <= k < t.len() implies is_space(#[trigger] t[k]) by {
            assert(t[k] == s[k]);
        }
        if j > 0 {
            assert(t[j - 1] == s[j - 1]);
        }
        lemma_trim_end_at(t, j);
        assert(t.subrange(0, j) =~= s.subrange(0, j));
    }
}

/// The character range [a, b) that trimming the range [lo, hi) of `s` leaves.
pub(crate) fn trim_range(s: &str, lo: usize, hi: usize) -> (r: (usize, usize))
    requires
        lo <= hi <= s@.len(),
    ensures
        lo <= r.0 <= r.1 <= hi,
        s@.subrange(r.0 as int, r.1 as int) == trim(s@.subrange(lo as int, hi as int)),
{
    let ghost piece = s@.subrange(lo as int, hi as int);
    let mut a = lo;
    while a < hi && space_char(s.get_char(a))
        invariant
            lo <= a <= hi,
            hi <= s@.len(),
            piece == s@.subrange(lo as int, hi as int),
            forall|k: int| lo <= k < a ==> is_space(#[trigger] s@[k]),
        decreases hi - a,
    {
        a += 1;
    }
    proof {
        assert forall|k: int| 0 <= k < a - lo implies is_space(#[trigger] piece[k]) by {
            assert(piece[k] == s@[lo + k]);
        }
        if a < hi {
            assert(piece[a - lo] == s@[a as int]);
        }
        lemma_trim_start_at(piece, a - lo);
    }
    let mut b = hi;
    while b > a && space_char(s.get_char(b - 1))
        invariant
            lo <= a <= b <= hi,
            hi <= s@.len(),
            forall|k: int| b <= k < hi ==> is_space(#[trigger] s@[k]),
        decreases b - a,
    {
        b -= 1;
    }
    proof {
        let rest = s@.subrange(a as int, hi as int);
        assert(piece.subrange(a - lo, piece.len() as int) =~= rest);
        assert forall|k: int| b - a <= k < rest.len() implies is_space(#[trigger] rest[k]) by {
            assert(rest[k] == s@[a + k]);
        }
        if b > a {
            assert(rest[b - a - 1] == s@[b - 1]);
        }
        lemma_trim_end_at(rest, b - a);
        assert(rest.subrange(0, b - a) =~= s@.subrange(a as int, b as int));
    }
    (a, b)
}

pub open spec fn is_digit(c: char) -> bool {
    '0' <= c && c <= '9'
}

pub open spec fn all_digits(s: Seq<char>) -> bool {
    forall|i: int| 0 <= i < s.len() ==> is_digit(#[trigger] s[i])
}

/// The number a string of decimal digits spells.
pub open spec fn digits_value(s: Seq<char>) -> nat
    decreases s.len(),
{
    if s.len() == 0 {
        0
    } else {
        digits_value(s.drop_last()) * 10 + ((s.last() as int - '0' as int) as nat)
    }
}

/// What `from_str` gives for an unsigned type whose largest value is `max`:
/// an optional `+` and then at least one decimal digit, worth at most `max`.
pub open spec fn parse_unsigned(s: Seq<char>, max: nat) -> Option<nat> {
    let digits = if s.len() > 0 && s[0] == '+' {
        s.drop_first()
    } else {
        s
    };
    if digits.len() == 0 || !all_digits(digits) || digits_value(digits) > max {
        None
    } else {
        Some(digits_value(digits))
    }
}

/// What `i32::from_str` gives: an optional sign and then at least one decimal
/// digit, the value inside the `i32` range.
pub open spec fn parse_i32_value(s: Seq<char>) -> Option<int> {
    if s.len() > 0 && s[0] == '-' {
        let digits = s.drop_first();
        if digits.len() == 0 || !all_digits(digits) || digits_value(digits) > 0x8000_0000 {
            None
        } else {
            Some(-digits_value(digits))
        }
    } else {
        match parse_unsigned(s, 0x7fff_ffff) {
            Some(v) => Some(v as int),
            None => None,
        }
    }
}

proof fn lemma_digits_value_grows(s: Seq<char>, k: int)
    requires
        0 <= k <= s.len(),
    ensures
        digits_value(s.subrange(0, k)) <= digits_value(s),
    decreases s.len() - k,
{
    if k < s.len() {
        lemma_digits_value_grows(s, k + 1);
        assert(s.subrange(0, k + 1).drop_last() =~= s.subrange(0, k));
    } else {
        assert(s.subrange(0, k) =~= s);
    }
}

/// Reads the decimal digits in [a, b) of `s`: `None` unless there is at least
/// one, all are digits, and their value is at most `max`.
fn read_digits(s: &str, a: usize, b: usize, max: u64) -> (r: Option<u64>)
    requires
        a <= b <= s@.len(),
        max <= 0x1_0000_0000,
    ensures
        ({
            let d = s@.subrange(a as int, b as int);
            &&& r is Some <==> (d.len() > 0 && all_digits(d) && digits_value(d) <= max)
            &&& r matches Some(v) ==> v == digits_value(d)
        }),
{
    let ghost d = s@.subrange(a as int, b as int);
    if a == b {
        return None;
    }
    let mut v: u64 = 0;
    let mut i = a;
    proof {
        assert(d.subrange(0, 0) =~= Seq::<char>::empty());
    }
    while i < b
        invariant
            a <= i <= b,
            b <= s@.len(),
            d == s@.subrange(a as int, b as int),
            max <= 0x1_0000_0000,
            all_digits(d.subrange(0, i - a)),
            v == digits_value(d.subrange(0, i - a)),
            v <= max,
        decreases b - i,
    {
        let c = s.get_char(i);
        proof {
            assert(d[i - a] == c);
        }
        if !('0' <= c && c <= '9') {
            proof {
                assert(!is_digit(d[i - a]));
            }
            return None;
        }
        let digit = (c as u32 - '0' as u32) as u64;
        let nv = v * 10 + digit;
        proof {
            let p = d.subrange(0, i - a + 1);
            assert(p.drop_last() =~= d.subrange(0, i - a));
            assert(p.last() == c);
            assert(nv == digits_value(p));
            assert forall|k: int| 0 <= k < p.len() implies is_digit(#[trigger] p[k]) by {
                if k < i - a {
                    assert(p[k] == d.subrange(0, i - a)[k]);
                }
            }
        }
        if nv > max {
            proof {
                lemma_digits_value_grows(d, i - a + 1);
            }
            return None;
        }
        v = nv;
        i += 1;
    }
    proof {
        assert(d.subrange(0, i - a) =~= d);
    }
    Some(v)
}

/// Reads [a, b) of `s` as an unsigned number of at most `max`, `from_str` style.
pub(crate) fn read_unsigned(s: &str, a: usize, b: usize, max: u64) -> (r: Option<u64>)
    requires
        a <= b <= s@.len(),
        max <= 0x1_0000_0000,
    ensures
        ({
            let t = s@.subrange(a as int, b as int);
            &&& r is Some <==> parse_unsigned(t, max as nat) is Some
            &&& r matches Some(v) ==> parse_unsigned(t, max as nat) == Some(v as nat)
        }),
{
    let ghost t = s@.subrange(a as int, b as int);
    if a < b && s.get_char(a) == '+' {
        proof {
            assert(t[0] == '+');
            assert(t.drop_first() =~= s@.subrange(a + 1, b as int));
        }
        read_digits(s, a + 1, b, max)
    } else {
        proof {
            if a < b {
                assert(t[0] == s@[a as int]);
            }
        }
        read_digits(s, a, b, max)
    }
}

/// "Valor inv\u{e1}lido para " followed by the field name.
pub open spec fn invalid_value_text(name: Seq<char>) -> Seq<char> {
    "Valor inv\u{e1}lido para "@ + name
}

fn invalid_value(name: &str) -> (m: String)
    ensures
        m@ == invalid_value_text(name@),
{
    String::from_str("Valor inv\u{e1}lido para ").concat(name)
}

/// Reads a trimmed field as a `u32`, naming the field when it is not one.
pub fn parse_u32(value: &str, name: &str) -> (r: Result<u32, String>)
    ensures
        parse_unsigned(trim(value@), u32::MAX as nat) matches Some(n) ==> r == Ok::<u32, String>(
            n as u32,
        ),
        parse_unsigned(trim(value@), u32::MAX as nat) is None ==> (r matches Err(m) && m@
            == invalid_value_text(name@)),
{
    let (a, b) = trim_range(value, 0, value.unicode_len());
    proof {
        assert(value@.subrange(0, value@.len() as int) =~= value@);
    }
    match read_unsigned(value, a, b, 0xffff_ffff) {
        Some(v) => Ok(v as u32),
        None => Err(invalid_value(name)),
    }
}

/// Reads a trimmed field as a `u8`, naming the field when it is not one.
pub fn parse_u8(value: &str, name: &str) -> (r: Result<u8, String>)
    ensures
        parse_unsigned(trim(value@), u8::MAX as nat) matches Some(n) ==> r == Ok::<u8, String>(
            n as u8,
        ),
        parse_unsigned(trim(value@), u8::MAX as nat) is None ==> (r matches Err(m) && m@
            == invalid_value_text(name@)),
{
    let (a, b) = trim_range(value, 0, value.unicode_len());
    proof {
        assert(value@.subrange(0, value@.len() as int) =~= value@);
    }
    match read_unsigned(value, a, b, 0xff) {
        Some(v) => Ok(v as u8),
        None => Err(invalid_value(name)),
    }
}

/// Reads a trimmed field as an `i32`, naming the field when it is not one.
pub fn parse_i32(value: &str, name: &str) -> (r: Result<i32, String>)
    ensures
        parse_i32_value(trim(value@)) matches Some(n) ==> r == Ok::<i32, String>(n as i32),
        parse_i32_value(trim(value@)) is None ==> (r matches Err(m) && m@ == invalid_value_text(
            name@,
        )),
{
    let (a, b) = trim_range(value, 0, value.unicode_len());
    let ghost t = value@.subrange(a as int, b as int);
    proof {
        assert(value@.subrange(0, value@.len() as int) =~= value@);
    }
    if a < b && value.get_char(a) == '-' {
        proof {
            assert(t[0] == '-');
            assert(t.drop_first() =~= value@.subrange(a + 1, b as int));
        }
        match read_digits(value, a + 1, b, 0x8000_0000) {
            Some(v) => {
                let n: i64 = -(v as i64);
                Ok(n as i32)
            },
            None => Err(invalid_value(name)),
        }
    } else {
        proof {
            if a < b {
                assert(t[0] == value@[a as int]);
            }
        }
        match read_unsigned(value, a, b, 0x7fff_ffff) {
            Some(v) => Ok(v as i32),
            None => Err(invalid_value(name)),
        }
    }
}

} // verus!
