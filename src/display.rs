use vstd::prelude::*;

verus! {

/// The color a cell is drawn in.
#[derive(Clone, Copy, Debug, PartialEq, Eq, Structural)]
pub enum Tint {
    Black,
    Grey,
    Green,
    Blue,
    Yellow,
    Red,
    Magenta,
    Cyan,
    DarkYellow,
}

/// The color of each cell: one for each of the first tiers and for 2048, cyan
/// for every other value, black for an empty cell.
pub open spec fn tint_of(c: Option<usize>) -> Tint {
    match c {
        None => Tint::Black,
        Some(v) => if v == 2 {
            Tint::Grey
        } else if v == 4 {
            Tint::Green
        } else if v == 8 {
            Tint::Blue
        } else if v == 16 {
            Tint::Yellow
        } else if v == 32 {
            Tint::Red
        } else if v == 64 {
            Tint::Magenta
        } else if v == 2048 {
            Tint::DarkYellow
        } else {
            Tint::Cyan
        },
    }
}

pub fn tint_for(c: Option<usize>) -> (r: Tint)
    ensures
        r == tint_of(c),
{
    match c {
        None => Tint::Black,
        Some(2) => Tint::Grey,
        Some(4) => Tint::Green,
        Some(8) => Tint::Blue,
        Some(16) => Tint::Yellow,
        Some(32) => Tint::Red,
        Some(64) => Tint::Magenta,
        Some(128) => Tint::Cyan,
        Some(2048) => Tint::DarkYellow,
        _ => Tint::Cyan,
    }
}

/// The character of decimal digit `d`.
pub open spec fn digit_of(d: nat) -> char {
    seq!['0', '1', '2', '3', '4', '5', '6', '7', '8', '9'][d as int]
}

/// The decimal digits of `v`, most significant first, without leading zeros.
pub open spec fn decimal(v: nat) -> Seq<char>
    decreases v,
{
    if v < 10 {
        seq![digit_of(v)]
    } else {
        decimal(v / 10).push(digit_of(v % 10))
    }
}

/// `s` with spaces in front, up to `width` characters.
pub open spec fn pad_left(s: Seq<char>, width: nat) -> Seq<char> {
    if s.len() >= width {
        s
    } else {
        Seq::new((width - s.len()) as nat, |i: int| ' ') + s
    }
}

/// The text of a cell: its value in decimal, blank if empty, right-aligned in
/// four characters (longer values are not cut).
pub open spec fn label_of(c: Option<usize>) -> Seq<char> {
    pad_left(
        match c {
            Some(v) => decimal(v as nat),
            None => seq![],
        },
        4,
    )
}

fn digit_char(d: usize) -> (r: char)
    requires
        d < 10,
    ensures
        r == digit_of(d as nat),
{
    match d {
        0 => '0',
        1 => '1',
        2 => '2',
        3 => '3',
        4 => '4',
        5 => '5',
        6 => '6',
        7 => '7',
        8 => '8',
        _ => '9',
    }
}

fn push_decimal(v: usize, out: &mut Vec<char>)
    ensures
        final(out)@ == old(out)@ + decimal(v as nat),
    decreases v,
{
    if v >= 10 {
        push_decimal(v / 10, out);
    }
    let c = digit_char(v % 10);
    out.push(c);
    assert(final(out)@ =~= old(out)@ + decimal(v as nat)) by {
        if v >= 10 {
            assert(decimal(v as nat) == decimal((v / 10) as nat).push(digit_of((v % 10) as nat)));
        }
    }
}

/// The text that a cell is drawn with.
pub fn cell_label(c: Option<usize>) -> (r: Vec<char>)
    ensures
        r@ == label_of(c),
{
    let mut digits: Vec<char> = Vec::new();
    if let Some(v) = c {
        push_decimal(v, &mut digits);
    }
    assert(digits@ =~= match c {
        Some(v) => decimal(v as nat),
        None => seq![],
    });
    let mut r: Vec<char> = Vec::new();
    let len = digits.len();
    let mut i: usize = len;
    while i < 4
        invariant
            len <= i <= 4 || (len > 4 && i == len),
            r@ == Seq::new((i - len) as nat, |j: int| ' '),
        decreases 4 - i,
    {
        r.push(' ');
        i += 1;
        assert(r@ =~= Seq::new((i - len) as nat, |j: int| ' '));
    }
    let mut j: usize = 0;
    let ghost spaces = r@;
    while j < len
        invariant
            j <= len,
            len == digits@.len(),
            r@ == spaces + digits@.subrange(0, j as int),
        decreases len - j,
    {
        r.push(digits[j]);
        j += 1;
        assert(r@ =~= spaces + digits@.subrange(0, j as int));
    }
    assert(digits@.subrange(0, len as int) =~= digits@);
    assert(r@ =~= label_of(c));
    r
}

} // verus!
