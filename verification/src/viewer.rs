use vstd::prelude::*;
use crate::text::{
    all_digits,
    digits_value,
    invalid_value_text,
    is_space,
    parse_unsigned,
    trim,
    trim_end,
    trim_start,
};
pub use crate::text::{parse_i32, parse_u8, parse_u32};

verus! {

/// The direction the viewer's split tool cuts in.
#[derive(Clone, Copy, Debug, PartialEq, Eq, Structural)]
pub enum SplitAxis {
    Vertical,
    Horizontal,
}

impl SplitAxis {
    /// The axis code a split request starts with: 0 vertical, 1 horizontal.
    pub fn code(self) -> (c: u32)
        ensures
            c == (match self {
                SplitAxis::Vertical => 0u32,
                SplitAxis::Horizontal => 1u32,
            }),
    {
        match self {
            SplitAxis::Vertical => 0,
            SplitAxis::Horizontal => 1,
        }
    }
}

impl Default for SplitAxis {
    fn default() -> (a: SplitAxis)
        ensures
            a == SplitAxis::Vertical,
    {
        SplitAxis::Vertical
    }
}

/// The digit character for `d` (below ten).
pub open spec fn digit_char(d: nat) -> char {
    (d + '0' as nat) as char
}

/// `n` written in decimal, without leading zeros.
pub open spec fn decimal(n: nat) -> Seq<char>
    decreases n,
{
    if n < 10 {
        seq![digit_char(n)]
    } else {
        decimal(n / 10).push(digit_char(n % 10))
    }
}

fn digit_str(d: u8) -> (s: &'static str)
    requires
        d < 10,
    ensures
        s@ == seq![digit_char(d as nat)],
{
    proof {
        reveal_strlit("0");
        reveal_strlit("1");
        reveal_strlit("2");
        reveal_strlit("3");
        reveal_strlit("4");
        reveal_strlit("5");
        reveal_strlit("6");
        reveal_strlit("7");
        reveal_strlit("8");
        reveal_strlit("9");
    }
    let s = match d {
        0 => "0",
        1 => "1",
        2 => "2",
        3 => "3",
        4 => "4",
        5 => "5",
        6 => "6",
        7 => "7",
        8 => "8",
        _ => "9",
    };
    proof {
        assert(s@ =~= seq![digit_char(d as nat)]);
    }
    s
}

/// `n` in decimal, as `to_string` writes it.
pub fn u8_text(n: u8) -> (s: String)
    ensures
        s@ == decimal(n as nat),
{
    let mut s = String::new();
    if n >= 100 {
        s.append(digit_str(n / 100));
    }
    if n >= 10 {
        s.append(digit_str((n / 10) % 10));
    }
    s.append(digit_str(n % 10));
    proof {
        let k = n as nat;
        if k >= 100 {
            assert(decimal(k / 100) == seq![digit_char(k / 100)]);
            assert(decimal(k / 10) == decimal(k / 10 / 10).push(digit_char((k / 10) % 10)));
            assert(k / 10 / 10 == k / 100);
            assert(s@ =~= decimal(k));
        } else if k >= 10 {
            assert(decimal(k / 10) == seq![digit_char(k / 10)]);
            assert((k / 10) % 10 == k / 10);
            assert(s@ =~= decimal(k));
        } else {
            assert(s@ =~= decimal(k));
        }
    }
    s
}

/// The four text fields of a color in the viewer.
pub struct ColorInput {
    pub r: String,
    pub g: String,
    pub b: String,
    pub a: String,
}

/// What reading a color field gives: its value, or the message naming it.
pub open spec fn field_u8(value: Seq<char>, name: Seq<char>) -> Result<u8, Seq<char>> {
    match parse_unsigned(trim(value), u8::MAX as nat) {
        Some(n) => Ok(n as u8),
        None => Err(invalid_value_text(name)),
    }
}

/// What reading the four fields gives: the color, or the message of the
/// first field (R, G, B, A in that order) that is not a `u8`.
pub open spec fn color_fields(r: Seq<char>, g: Seq<char>, b: Seq<char>, a: Seq<char>) -> Result<
    (u8, u8, u8, u8),
    Seq<char>,
> {
    match field_u8(r, "R"@) {
        Err(m) => Err(m),
        Ok(vr) => match field_u8(g, "G"@) {
            Err(m) => Err(m),
            Ok(vg) => match field_u8(b, "B"@) {
                Err(m) => Err(m),
                Ok(vb) => match field_u8(a, "A"@) {
                    Err(m) => Err(m),
                    Ok(va) => Ok((vr, vg, vb, va)),
                },
            },
        },
    }
}

fn read_field(value: &str, name: &str) -> (r: Result<u8, String>)
    ensures
        match field_u8(value@, name@) {
            Ok(n) => r == Ok::<u8, String>(n),
            Err(m) => r matches Err(e) && e@ == m,
        },
{
    parse_u8(value, name)
}

impl ColorInput {
    /// Fields holding the decimal text of each component.
    pub fn solid(r: u8, g: u8, b: u8, a: u8) -> (c: ColorInput)
        ensures
            c.r@ == decimal(r as nat),
            c.g@ == decimal(g as nat),
            c.b@ == decimal(b as nat),
            c.a@ == decimal(a as nat),
    {
        ColorInput { r: u8_text(r), g: u8_text(g), b: u8_text(b), a: u8_text(a) }
    }

    /// Reads the four fields as a color.
    pub fn to_tuple(&self) -> (t: Result<(u8, u8, u8, u8), String>)
        ensures
            match color_fields(self.r@, self.g@, self.b@, self.a@) {
                Ok(c) => t == Ok::<(u8, u8, u8, u8), String>(c),
                Err(m) => t matches Err(e) && e@ == m,
            },
    {
        let r = read_field(self.r.as_str(), "R")?;
        let g = read_field(self.g.as_str(), "G")?;
        let b = read_field(self.b.as_str(), "B")?;
        let a = read_field(self.a.as_str(), "A")?;
        Ok((r, g, b, a))
    }
}

impl Default for ColorInput {
    fn default() -> (c: ColorInput)
        ensures
            c.r@ == decimal(255),
            c.g@ == decimal(0),
            c.b@ == decimal(0),
            c.a@ == decimal(255),
    {
        ColorInput::solid(255, 0, 0, 255)
    }
}

/// A decimal numeral is all digits, has no sign or white space, and reads back as its number.
pub proof fn lemma_decimal_reads_back(n: nat)
    ensures
        decimal(n).len() > 0,
        all_digits(decimal(n)),
        digits_value(decimal(n)) == n,
        trim(decimal(n)) == decimal(n),
        decimal(n)[0] != '+',
        decimal(n)[0] != '-',
    decreases n,
{
    let d = decimal(n);
    assert(digit_char(n % 10) as int == n % 10 + 48);
    if n < 10 {
        assert(d.drop_last() =~= Seq::<char>::empty());
        assert(digit_char(n) as int == n + 48);
        assert(d.last() == digit_char(n));
        assert(digits_value(d) == digits_value(d.drop_last()) * 10 + ((d.last() as int - '0' as int) as nat));
        assert(digits_value(Seq::<char>::empty()) == 0);
    } else {
        lemma_decimal_reads_back(n / 10);
        assert(d.drop_last() == decimal(n / 10));
        assert(d.last() == digit_char(n % 10));
        assert(digits_value(d) == digits_value(d.drop_last()) * 10 + ((d.last() as int - '0' as int) as nat));
        assert((n / 10) * 10 + n % 10 == n);
        assert forall|i: int| 0 <= i < d.len() implies crate::text::is_digit(#[trigger] d[i]) by {
            if i < d.len() - 1 {
                assert(d[i] == decimal(n / 10)[i]);
            }
        }
        assert(d[0] == decimal(n / 10)[0]);
    }
    assert(!is_space(d[0]));
    assert(!is_space(d.last()));
    assert(trim_start(d) == d);
    assert(trim_end(d) == d);
}

/// A color written into the fields reads back as the same color.
pub proof fn lemma_color_fields_round_trip(r: u8, g: u8, b: u8, a: u8)
    ensures
        color_fields(decimal(r as nat), decimal(g as nat), decimal(b as nat), decimal(a as nat))
            == Ok::<(u8, u8, u8, u8), Seq<char>>((r, g, b, a)),
{
    lemma_decimal_reads_back(r as nat);
    lemma_decimal_reads_back(g as nat);
    lemma_decimal_reads_back(b as nat);
    lemma_decimal_reads_back(a as nat);
}

/// The fields of `s` between commas, as `str::split(',')` yields them;
/// `cur` is the part of the current field already read.
pub open spec fn comma_fields_from(s: Seq<char>, cur: Seq<char>) -> Seq<Seq<char>>
    decreases s.len(),
{
    if s.len() == 0 {
        seq![cur]
    } else if s[0] == ',' {
        seq![cur] + comma_fields_from(s.drop_first(), Seq::empty())
    } else {
        comma_fields_from(s.drop_first(), cur.push(s[0]))
    }
}

pub open spec fn comma_fields(s: Seq<char>) -> Seq<Seq<char>> {
    comma_fields_from(s, Seq::empty())
}

/// "Valor inv\u{e1}lido de corte: " followed by the refused field.
pub open spec fn bad_cut_text(field: Seq<char>) -> Seq<char> {
    "Valor inv\u{e1}lido de corte: "@ + field
}

/// The cut positions the fields hold, blank fields skipped, or the message
/// for the first field that is not a `u32`.
pub open spec fn cut_values(fields: Seq<Seq<char>>) -> Result<Seq<u32>, Seq<char>>
    decreases fields.len(),
{
    if fields.len() == 0 {
        Ok(Seq::empty())
    } else {
        let t = trim(fields[0]);
        if t.len() == 0 {
            cut_values(fields.drop_first())
        } else {
            match parse_unsigned(t, u32::MAX as nat) {
                None => Err(bad_cut_text(t)),
                Some(v) => match cut_values(fields.drop_first()) {
                    Ok(vs) => Ok(seq![v as u32] + vs),
                    Err(m) => Err(m),
                },
            }
        }
    }
}

/// What the split tool reads from its text box: the cut positions, or why
/// they are refused (a bad field, or no cut at all).
pub open spec fn cut_list(text: Seq<char>) -> Result<Seq<u32>, Seq<char>> {
    match cut_values(comma_fields(text)) {
        Ok(vs) => if vs.len() == 0 {
            Err("Informe pelo menos um corte"@)
        } else {
            Ok(vs)
        },
        Err(m) => Err(m),
    }
}

pub open spec fn prepend_cuts(done: Seq<u32>, rest: Result<Seq<u32>, Seq<char>>) -> Result<
    Seq<u32>,
    Seq<char>,
> {
    match rest {
        Ok(vs) => Ok(done + vs),
        Err(m) => Err(m),
    }
}

/// Reads the field [a, b) of `text`: `None` when blank.
fn read_cut(text: &str, a: usize, b: usize) -> (r: Result<Option<u32>, String>)
    requires
        a <= b <= text@.len(),
    ensures
        ({
            let t = trim(text@.subrange(a as int, b as int));
            &&& t.len() == 0 ==> r == Ok::<Option<u32>, String>(None)
            &&& t.len() > 0 && parse_unsigned(t, u32::MAX as nat) is None ==> (r matches Err(m)
                && m@ == bad_cut_text(t))
            &&& t.len() > 0 ==> (parse_unsigned(t, u32::MAX as nat) matches Some(v) ==> r == Ok::<
                Option<u32>,
                String,
            >(Some(v as u32)))
        }),
{
    let (ta, tb) = crate::text::trim_range(text, a, b);
    if ta == tb {
        return Ok(None);
    }
    match crate::text::read_unsigned(text, ta, tb, 0xffff_ffff) {
        Some(v) => Ok(Some(v as u32)),
        None => {
            let field = text.substring_char(ta, tb);
            Err(String::from_str("Valor inv\u{e1}lido de corte: ").concat(field))
        },
    }
}

/// The cut positions typed into the split tool, separated by commas.
pub fn parse_cut_list(text: &str) -> (r: Result<Vec<u32>, String>)
    ensures
        match cut_list(text@) {
            Ok(vs) => r matches Ok(v) && v@ == vs,
            Err(m) => r matches Err(e) && e@ == m,
        },
{
    let n = text.unicode_len();
    let ghost s = text@;
    let mut cuts: Vec<u32> = Vec::new();
    let mut start: usize = 0;
    let mut i: usize = 0;
    proof {
        assert(s.skip(0) =~= s);
        assert(s.subrange(0, 0) =~= Seq::<char>::empty());
    }
    while i < n
        invariant
            n == s.len(),
            s == text@,
            0 <= start <= i <= n,
            cut_values(comma_fields(s)) == prepend_cuts(
                cuts@,
                cut_values(comma_fields_from(s.skip(i as int), s.subrange(start as int, i as int))),
            ),
        decreases n - i,
    {
        let c = text.get_char(i);
        proof {
            assert(s.skip(i as int)[0] == c);
            assert(s.skip(i as int).drop_first() =~= s.skip(i + 1));
        }
        if c == ',' {
            let ghost field = s.subrange(start as int, i as int);
            let ghost rest = comma_fields_from(s.skip(i + 1), Seq::empty());
            proof {
                assert(comma_fields_from(s.skip(i as int), field) == seq![field] + rest);
                assert((seq![field] + rest)[0] == field);
                assert((seq![field] + rest).drop_first() =~= rest);
            }
            match read_cut(text, start, i) {
                Ok(Some(v)) => {
                    proof {
                        assert(cuts@.push(v) =~= cuts@ + seq![v]);
                        match cut_values(rest) {
                            Ok(vs) => {
                                assert(cuts@ + (seq![v] + vs) =~= cuts@.push(v) + vs);
                            },
                            Err(_) => {},
                        }
                    }
                    cuts.push(v);
                },
                Ok(None) => {},
                Err(m) => {
                    return Err(m);
                },
            }
            start = i + 1;
            proof {
                assert(s.subrange(start as int, start as int) =~= Seq::<char>::empty());
            }
        } else {
            proof {
                assert(s.subrange(start as int, i as int).push(c) =~= s.subrange(
                    start as int,
                    i + 1,
                ));
            }
        }
        i += 1;
    }
    let ghost field = s.subrange(start as int, n as int);
    proof {
        assert(s.skip(n as int) =~= Seq::<char>::empty());
        assert(comma_fields_from(s.skip(n as int), field) == seq![field]);
        assert(seq![field].drop_first() =~= Seq::<Seq<char>>::empty());
        assert(cut_values(Seq::<Seq<char>>::empty()) == Ok::<Seq<u32>, Seq<char>>(Seq::empty()));
    }
    match read_cut(text, start, n) {
        Ok(Some(v)) => {
            proof {
                assert(cuts@ + (seq![v] + Seq::<u32>::empty()) =~= cuts@.push(v));
            }
            cuts.push(v);
        },
        Ok(None) => {
            proof {
                assert(cuts@ + Seq::<u32>::empty() =~= cuts@);
            }
        },
        Err(m) => {
            return Err(m);
        },
    }
    if cuts.len() == 0 {
        return Err(String::from_str("Informe pelo menos um corte"));
    }
    Ok(cuts)
}

/// The split request the viewer sends: the axis code, then the cuts.
pub fn split_payload(axis: SplitAxis, cuts: &Vec<u32>) -> (p: Vec<u32>)
    ensures
        p@ == seq![axis.code_spec()] + cuts@,
{
    let mut p: Vec<u32> = Vec::new();
    p.push(axis.code());
    let mut i: usize = 0;
    while i < cuts.len()
        invariant
            0 <= i <= cuts@.len(),
            p@ == seq![axis.code_spec()] + cuts@.subrange(0, i as int),
        decreases cuts@.len() - i,
    {
        p.push(cuts[i]);
        proof {
            assert(cuts@.subrange(0, i + 1) =~= cuts@.subrange(0, i as int).push(cuts@[i as int]));
        }
        i += 1;
    }
    proof {
        assert(cuts@.subrange(0, cuts@.len() as int) =~= cuts@);
    }
    p
}

impl SplitAxis {
    pub open spec fn code_spec(self) -> u32 {
        match self {
            SplitAxis::Vertical => 0u32,
            SplitAxis::Horizontal => 1u32,
        }
    }
}

} // verus!
