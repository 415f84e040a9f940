//! Rendering values as text for the store's diagnostic strings: decimal
//! integers, and a trait for payload types that can render themselves.

use vstd::prelude::*;

verus! {

/// The character of one decimal digit.
pub open spec fn digit_char(d: nat) -> char {
    if d == 0 {
        '0'
    } else if d == 1 {
        '1'
    } else if d == 2 {
        '2'
    } else if d == 3 {
        '3'
    } else if d == 4 {
        '4'
    } else if d == 5 {
        '5'
    } else if d == 6 {
        '6'
    } else if d == 7 {
        '7'
    } else if d == 8 {
        '8'
    } else {
        '9'
    }
}

/// The decimal rendering of a natural number, most significant digit
/// first.
pub open spec fn dec_str(n: nat) -> Seq<char>
    decreases n,
{
    if n < 10 {
        seq![digit_char(n)]
    } else {
        dec_str(n / 10).push(digit_char(n % 10))
    }
}

/// The decimal rendering of an integer: a minus sign for negative values.
pub open spec fn dec_str_int(v: int) -> Seq<char> {
    if v < 0 {
        seq!['-'] + dec_str((-v) as nat)
    } else {
        dec_str(v as nat)
    }
}

/// One decimal digit as text.
fn digit_str(d: usize) -> (r: &'static str)
    requires
        d < 10,
    ensures
        r@ == seq![digit_char(d as nat)],
{
    proof {
        reveal_strlit("0");
        reveal_strlit("1");
        reveal_strlit("2");
        reveal_strlit("3");
        reveal_strlit("4");
        reveal_strlit("5");
        reveal_strlit("6");
        reveal_strlit("7");
        reveal_strlit("8");
        reveal_strlit("9");
    }
    let r = match d {
        0 => "0",
        1 => "1",
        2 => "2",
        3 => "3",
        4 => "4",
        5 => "5",
        6 => "6",
        7 => "7",
        8 => "8",
        _ => "9",
    };
    proof {
        assert(r@ =~= seq![digit_char(d as nat)]);
    }
    r
}

/// Renders a natural number in decimal.
pub fn u64_to_string(n: u64) -> (r: String)
    ensures
        r@ == dec_str(n as nat),
    decreases n,
{
    if n < 10 {
        let s = String::from_str(digit_str(n as usize));
        proof {
            assert(s@ =~= dec_str(n as nat));
        }
        s
    } else {
        let mut s = u64_to_string(n / 10);
        s.append(digit_str((n % 10) as usize));
        proof {
            assert(s@ =~= dec_str(n as nat));
        }
        s
    }
}

/// Renders a natural number in decimal.
pub fn usize_to_string(n: usize) -> (r: String)
    ensures
        r@ == dec_str(n as nat),
{
    u64_to_string(n as u64)
}

/// Renders a signed 64-bit integer in decimal.
pub fn i64_to_string(v: i64) -> (r: String)
    ensures
        r@ == dec_str_int(v as int),
{
    if v >= 0 {
        let s = u64_to_string(v as u64);
        proof {
            assert(s@ =~= dec_str_int(v as int));
        }
        s
    } else {
        // the magnitude of the most negative value still fits usize
        let mag: u64 = if v == i64::MIN {
            9223372036854775808u64
        } else {
            (0 - v) as u64
        };
        let mut s = String::new();
        proof {
            reveal_strlit("-");
        }
        s.append("-");
        let tail = u64_to_string(mag);
        s.append(tail.as_str());
        proof {
            assert(s@ =~= dec_str_int(v as int));
        }
        s
    }
}

/// Renders a signed 32-bit integer in decimal.
pub fn i32_to_string(v: i32) -> (r: String)
    ensures
        r@ == dec_str_int(v as int),
{
    i64_to_string(v as i64)
}

/// A payload that renders itself for the store's diagnostic strings.
pub trait DiagString {
    /// What the rendering is, as a sequence of characters.
    spec fn diag_view(&self) -> Seq<char>;

    /// Renders the value.
    fn diag_string(&self) -> (r: String)
        ensures
            r@ == self.diag_view(),
    ;
}

impl DiagString for i32 {
    open spec fn diag_view(&self) -> Seq<char> {
        dec_str_int(*self as int)
    }

    fn diag_string(&self) -> (r: String) {
        i32_to_string(*self)
    }
}

} // verus!
