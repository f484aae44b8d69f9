use vstd::prelude::*;
use vstd::string::*;

verus! {

pub open spec fn digit_char(d: nat) -> char {
    if d == 0 {
        '0'
    } else if d == 1 {
        '1'
    } else if d == 2 {
        '2'
    } else if d == 3 {
        '3'
    } else if d == 4 {
        '4'
    } else if d == 5 {
        '5'
    } else if d == 6 {
        '6'
    } else if d == 7 {
        '7'
    } else if d == 8 {
        '8'
    } else {
        '9'
    }
}

/// The decimal digits of `n`, most significant first, without leading zeros.
pub open spec fn decimal(n: nat) -> Seq<char>
    decreases n,
{
    if n < 10 {
        seq![digit_char(n)]
    } else {
        decimal(n / 10) + seq![digit_char(n % 10)]
    }
}

/// A signed integer in decimal, with a minus sign when negative.
pub open spec fn signed_decimal(x: int) -> Seq<char> {
    if x < 0 {
        seq!['-'] + decimal((-x) as nat)
    } else {
        decimal(x as nat)
    }
}

/// `d` left-padded with zeros to `w` characters.
pub open spec fn padded(d: Seq<char>, w: nat) -> Seq<char> {
    if d.len() >= w {
        d
    } else {
        Seq::new((w - d.len()) as nat, |_i: int| '0') + d
    }
}

/// The power of 1024 whose unit a byte count is shown in.
pub open spec fn size_exp(b: nat) -> nat {
    if b < 1024 {
        0
    } else if b < 1048576 {
        1
    } else if b < 1073741824 {
        2
    } else if b < 1099511627776 {
        3
    } else {
        4
    }
}

pub open spec fn unit_scale(e: nat) -> nat {
    if e == 1 {
        1024
    } else if e == 2 {
        1048576
    } else if e == 3 {
        1073741824
    } else {
        1099511627776
    }
}

pub open spec fn unit_name(e: nat) -> Seq<char> {
    if e == 1 {
        "KB"@
    } else if e == 2 {
        "MB"@
    } else if e == 3 {
        "GB"@
    } else {
        "TB"@
    }
}

/// A byte count in base-1024 units: whole bytes below 1024 (`"512 B"`), else
/// the largest unit up to TB with one truncated decimal (`"2.3 MB"`).
pub open spec fn human_size(b: nat) -> Seq<char> {
    let e = size_exp(b);
    if e == 0 {
        decimal(b) + " B"@
    } else {
        let d = unit_scale(e);
        decimal(b / d) + "."@ + decimal((b % d) * 10 / d) + " "@ + unit_name(e)
    }
}

fn digit_str(d: u64) -> (r: &'static str)
    requires
        d < 10,
    ensures
        r@ == seq![digit_char(d as nat)],
{
    proof {
        reveal_strlit("0");
        reveal_strlit("1");
        reveal_strlit("2");
        reveal_strlit("3");
        reveal_strlit("4");
        reveal_strlit("5");
        reveal_strlit("6");
        reveal_strlit("7");
        reveal_strlit("8");
        reveal_strlit("9");
    }
    if d == 0 {
        "0"
    } else if d == 1 {
        "1"
    } else if d == 2 {
        "2"
    } else if d == 3 {
        "3"
    } else if d == 4 {
        "4"
    } else if d == 5 {
        "5"
    } else if d == 6 {
        "6"
    } else if d == 7 {
        "7"
    } else if d == 8 {
        "8"
    } else {
        assert(seq!['9'] =~= "9"@);
        "9"
    }
}

/// `n` written in decimal.
pub fn decimal_string(n: u64) -> (r: String)
    ensures
        r@ == decimal(n as nat),
    decreases n,
{
    if n < 10 {
        String::from_str(digit_str(n))
    } else {
        let mut s = decimal_string(n / 10);
        s.append(digit_str(n % 10));
        s
    }
}

/// `x` written in decimal, with a minus sign when negative.
pub fn signed_decimal_string(x: i64) -> (r: String)
    ensures
        r@ == signed_decimal(x as int),
{
    if x < 0 {
        let magnitude = (0i128 - x as i128) as u64;
        let digits = decimal_string(magnitude);
        let mut s = String::from_str("-");
        proof {
            reveal_strlit("-");
        }
        s.append(digits.as_str());
        s
    } else {
        decimal_string(x as u64)
    }
}

/// `n` in decimal, left-padded with zeros to `width` characters.
pub fn padded_decimal(n: u64, width: usize) -> (r: String)
    ensures
        r@ == padded(decimal(n as nat), width as nat),
{
    let digits = decimal_string(n);
    let len = digits.as_str().unicode_len();
    if len >= width {
        return digits;
    }
    let mut s = String::new();
    let mut k: usize = 0;
    proof {
        reveal_strlit("0");
    }
    while k < width - len
        invariant
            k <= width - len,
            len < width,
            s@ == Seq::new(k as nat, |_i: int| '0'),
        decreases width - len - k,
    {
        proof {
            reveal_strlit("0");
        }
        s.append("0");
        k += 1;
        assert(s@ =~= Seq::new(k as nat, |_i: int| '0'));
    }
    s.append(digits.as_str());
    s
}

fn scaled_size(b: u64, d: u64, unit: &str) -> (r: String)
    requires
        1 <= d <= 1099511627776,
    ensures
        r@ == decimal(b as nat / d as nat) + "."@ + decimal((b as nat % d as nat) * 10 / d as nat) + " "@ + unit@,
{
    assert(b % d < d) by (nonlinear_arith)
        requires
            d > 0,
    ;
    let whole = decimal_string(b / d);
    let tenth = decimal_string((b % d) * 10 / d);
    let mut s = whole;
    s.append(".");
    s.append(tenth.as_str());
    s.append(" ");
    s.append(unit);
    s
}

/// A byte count in base-1024 units, as `human_size` states it.
pub fn format_size(b: u64) -> (r: String)
    ensures
        r@ == human_size(b as nat),
{
    if b < 1024 {
        let mut s = decimal_string(b);
        s.append(" B");
        s
    } else if b < 1048576 {
        scaled_size(b, 1024, "KB")
    } else if b < 1073741824 {
        scaled_size(b, 1048576, "MB")
    } else if b < 1099511627776 {
        scaled_size(b, 1073741824, "GB")
    } else {
        scaled_size(b, 1099511627776, "TB")
    }
}

} // verus!
