//! Decimal and hexadecimal rendering of integers, zero padding and space
//! padding: the building blocks of the fixed-width hosts-file output.
use vstd::prelude::*;

verus! {

/// The decimal digit character for a value below ten.
pub open spec fn dec_digit(d: nat) -> char {
    if d == 0 {
        '0'
    } else if d == 1 {
        '1'
    } else if d == 2 {
        '2'
    } else if d == 3 {
        '3'
    } else if d == 4 {
        '4'
    } else if d == 5 {
        '5'
    } else if d == 6 {
        '6'
    } else if d == 7 {
        '7'
    } else if d == 8 {
        '8'
    } else {
        '9'
    }
}

/// The lowercase hexadecimal digit character for a value below sixteen.
pub open spec fn hex_digit(d: nat) -> char {
    if d < 10 {
        dec_digit(d)
    } else if d == 10 {
        'a'
    } else if d == 11 {
        'b'
    } else if d == 12 {
        'c'
    } else if d == 13 {
        'd'
    } else if d == 14 {
        'e'
    } else {
        'f'
    }
}

/// Decimal text of `n`: most significant digit first, no leading zeros.
pub open spec fn dec_str(n: nat) -> Seq<char>
    decreases n,
{
    if n < 10 {
        seq![dec_digit(n)]
    } else {
        dec_str(n / 10).push(dec_digit(n % 10))
    }
}

/// Lowercase hexadecimal text of `n`, no leading zeros.
pub open spec fn hex_str(n: nat) -> Seq<char>
    decreases n,
{
    if n < 16 {
        seq![hex_digit(n)]
    } else {
        hex_str(n / 16).push(hex_digit(n % 16))
    }
}

/// `n` copies of the space character.
pub open spec fn spaces(n: nat) -> Seq<char> {
    Seq::new(n, |i: int| ' ')
}

/// `s` padded on the right with spaces up to width `w` (unchanged if already
/// at least that wide): the left-aligned column format.
pub open spec fn pad_right(s: Seq<char>, w: nat) -> Seq<char> {
    if s.len() >= w {
        s
    } else {
        s + spaces((w - s.len()) as nat)
    }
}

/// `s` padded on the left with spaces up to width `w`: the right-aligned
/// column format.
pub open spec fn pad_left(s: Seq<char>, w: nat) -> Seq<char> {
    if s.len() >= w {
        s
    } else {
        spaces((w - s.len()) as nat) + s
    }
}

/// `s` padded on the left with zero digits up to width `w`.
pub open spec fn zero_pad(s: Seq<char>, w: nat) -> Seq<char> {
    if s.len() >= w {
        s
    } else {
        Seq::new((w - s.len()) as nat, |i: int| '0') + s
    }
}

/// The single-digit string for `d`.
fn digit_to_str(d: u8) -> (r: &'static str)
    requires
        d < 16,
    ensures
        r@ == seq![hex_digit(d as nat)],
{
    let r: &'static str = match d {
        0 => "0",
        1 => "1",
        2 => "2",
        3 => "3",
        4 => "4",
        5 => "5",
        6 => "6",
        7 => "7",
        8 => "8",
        9 => "9",
        10 => "a",
        11 => "b",
        12 => "c",
        13 => "d",
        14 => "e",
        _ => "f",
    };
    proof {
        reveal_strlit("0");
        reveal_strlit("1");
        reveal_strlit("2");
        reveal_strlit("3");
        reveal_strlit("4");
        reveal_strlit("5");
        reveal_strlit("6");
        reveal_strlit("7");
        reveal_strlit("8");
        reveal_strlit("9");
        reveal_strlit("a");
        reveal_strlit("b");
        reveal_strlit("c");
        reveal_strlit("d");
        reveal_strlit("e");
        reveal_strlit("f");
        assert(r@ =~= seq![hex_digit(d as nat)]);
    }
    r
}

/// Decimal rendering of a `u64`.
pub fn u64_to_dec(n: u64) -> (r: String)
    ensures
        r@ == dec_str(n as nat),
    decreases n,
{
    if n < 10 {
        String::from_str(digit_to_str(n as u8))
    } else {
        let mut s = u64_to_dec(n / 10);
        s.append(digit_to_str((n % 10) as u8));
        s
    }
}

/// Lowercase hexadecimal rendering of a `u16`.
pub fn u16_to_hex(n: u16) -> (r: String)
    ensures
        r@ == hex_str(n as nat),
    decreases n,
{
    if n < 16 {
        String::from_str(digit_to_str(n as u8))
    } else {
        let mut s = u16_to_hex(n / 16);
        s.append(digit_to_str((n % 16) as u8));
        s
    }
}

/// Decimal rendering of `n`, zero-padded on the left to at least `width`
/// characters.
pub fn u64_to_dec_padded(n: u64, width: usize) -> (r: String)
    ensures
        r@ == zero_pad(dec_str(n as nat), width as nat),
{
    let digits = u64_to_dec(n);
    let mut r = String::new();
    let mut have: usize = digits.as_str().unicode_len();
    while have < width
        invariant
            dec_str(n as nat).len() <= have,
            have <= vstd::math::max(width as int, dec_str(n as nat).len() as int),
            digits@ == dec_str(n as nat),
            r@ == Seq::new((have - digits@.len()) as nat, |i: int| '0'),
        decreases width - have,
    {
        r.append("0");
        have = have + 1;
        proof {
            reveal_strlit("0");
            assert(r@ =~= Seq::new((have - digits@.len()) as nat, |i: int| '0'));
        }
    }
    r.append(digits.as_str());
    proof {
        assert(r@ =~= zero_pad(dec_str(n as nat), width as nat));
    }
    r
}

/// Appends `s` followed by enough spaces to reach width `w`.
pub fn append_pad_right(out: &mut String, s: &str, w: usize)
    ensures
        final(out)@ == old(out)@ + pad_right(s@, w as nat),
{
    let ghost start = out@;
    out.append(s);
    let mut have: usize = s.unicode_len();
    while have < w
        invariant
            s@.len() <= have,
            have <= vstd::math::max(w as int, s@.len() as int),
            out@ == start + s@ + spaces((have - s@.len()) as nat),
        decreases w - have,
    {
        out.append(" ");
        have = have + 1;
        proof {
            reveal_strlit(" ");
            assert(start + s@ + spaces(((have - 1) - s@.len()) as nat) + (" ")@ =~= start + s@
                + spaces((have - s@.len()) as nat));
        }
    }
    proof {
        assert(out@ =~= start + pad_right(s@, w as nat));
    }
}

/// Appends enough spaces to reach width `w`, then `s`.
pub fn append_pad_left(out: &mut String, s: &str, w: usize)
    ensures
        final(out)@ == old(out)@ + pad_left(s@, w as nat),
{
    let ghost start = out@;
    let len = s.unicode_len();
    let mut have: usize = len;
    while have < w
        invariant
            len == s@.len(),
            s@.len() <= have,
            have <= vstd::math::max(w as int, s@.len() as int),
            out@ == start + spaces((have - s@.len()) as nat),
        decreases w - have,
    {
        out.append(" ");
        have = have + 1;
        proof {
            reveal_strlit(" ");
            assert(start + spaces(((have - 1) - s@.len()) as nat) + (" ")@ =~= start + spaces(
                (have - s@.len()) as nat,
            ));
        }
    }
    out.append(s);
    proof {
        assert(out@ =~= start + pad_left(s@, w as nat));
    }
}

/// The larger of two lengths; used when computing column widths.
pub fn max_usize(a: usize, b: usize) -> (r: usize)
    ensures
        r == vstd::math::max(a as int, b as int),
{
    if a >= b {
        a
    } else {
        b
    }
}

} // verus!
