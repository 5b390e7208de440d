//! Hexadecimal text.
use crate::bigint::BigInt;
use vstd::prelude::*;

verus! {

/// The lowercase hexadecimal digit of `d < 16`.
pub open spec fn hex_char(d: nat) -> char {
    if d < 10 {
        ((d + 48) as u8) as char
    } else {
        ((d + 87) as u8) as char
    }
}

/// The hexadecimal digits of `v`, most significant first, without leading zeros.
pub open spec fn hex_digits(v: nat) -> Seq<char>
    decreases v,
{
    if v < 16 {
        seq![hex_char(v)]
    } else {
        hex_digits(v / 16) + seq![hex_char(v % 16)]
    }
}

/// The text of `v`: a minus sign for a negative value, then the digits of its magnitude.
pub open spec fn hex_text(v: int) -> Seq<char> {
    if v < 0 {
        seq!['-'] + hex_digits((-v) as nat)
    } else {
        hex_digits(v as nat)
    }
}

fn digit_str(d: u8) -> (r: &'static str)
    requires
        d < 16,
    ensures
        r@ == seq![hex_char(d as nat)],
{
    proof {
        reveal_strlit("0");
        reveal_strlit("1");
        reveal_strlit("2");
        reveal_strlit("3");
        reveal_strlit("4");
        reveal_strlit("5");
        reveal_strlit("6");
        reveal_strlit("7");
        reveal_strlit("8");
        reveal_strlit("9");
        reveal_strlit("a");
        reveal_strlit("b");
        reveal_strlit("c");
        reveal_strlit("d");
        reveal_strlit("e");
        reveal_strlit("f");
    }
    match d {
        0 => "0",
        1 => "1",
        2 => "2",
        3 => "3",
        4 => "4",
        5 => "5",
        6 => "6",
        7 => "7",
        8 => "8",
        9 => "9",
        10 => "a",
        11 => "b",
        12 => "c",
        13 => "d",
        14 => "e",
        _ => "f",
    }
}

/// Appends the hexadecimal digits of `x` to `out`.
fn push_hex(x: &BigInt, out: &mut String)
    requires
        x@ >= 0,
    ensures
        final(out)@ == old(out)@ + hex_digits(x@ as nat),
    decreases x@,
{
    let sixteen = BigInt::new_int(16);
    if x.cmp(&sixteen) < 0 {
        let d = x.to_u8();
        out.append(digit_str(d));
    } else {
        let high = x.div(&sixteen);
        let low = x.rmod(&sixteen).to_u8();
        push_hex(&high, out);
        out.append(digit_str(low));
        assert(old(out)@ + hex_digits(high@ as nat) + seq![hex_char(low as nat)] =~= old(out)@
            + hex_digits(x@ as nat));
    }
}

impl BigInt {
    /// Lowercase hexadecimal text, with a leading `-` for a negative value and
    /// no leading zeros; zero is `"0"`.
    pub fn to_string(&self) -> (r: String)
        ensures
            r@ == hex_text(self@),
    {
        let mut out = String::new();
        proof {
            reveal_strlit("-");
        }
        if self.cmp(&BigInt::new()) < 0 {
            out.append("-");
            push_hex(&self.negate(), &mut out);
        } else {
            push_hex(self, &mut out);
        }
        proof {
            assert(out@ =~= hex_text(self@));
        }
        out
    }
}

} // verus!
