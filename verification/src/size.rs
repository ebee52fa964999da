//! Human-readable byte sizes for table output.
//!
//! A size renders with the largest decimal unit it reaches, to two fixed
//! decimal places, the scaled value rounded half to even; at and below
//! one thousand it renders as plain bytes, and beyond the terabyte range
//! as whole petabytes.

use vstd::prelude::*;
use crate::text::dec_str;
use crate::text::digit_char;
use crate::text::u64_to_string;

verus! {

/// The top of the plain-bytes range.
pub const BYTES: i64 = 1000;

/// The top of the kilobyte range.
pub const KILOBYTES: i64 = 1000000;

/// The top of the megabyte range.
pub const MEGABYTES: i64 = 1000000000;

/// The top of the gigabyte range.
pub const GIGABYTES: i64 = 1000000000000;

/// The top of the terabyte range.
pub const TERABYTES: i64 = 1000000000000000;

/// A byte count destined for display.
#[derive(Debug, Default, Clone, Copy)]
pub struct Size {
    pub size: i64,
}

impl From<i64> for Size {
    fn from(size: i64) -> (r: Self) {
        Size { size }
    }
}

impl vstd::std_specs::convert::FromSpecImpl<i64> for Size {
    open spec fn obeys_from_spec() -> bool {
        true
    }

    open spec fn from_spec(size: i64) -> Self {
        Size { size }
    }
}

/// A possibly negative count in decimal.
pub open spec fn int_chars(n: int) -> Seq<char> {
    if n < 0 {
        seq!['-'] + dec_str((-n) as nat)
    } else {
        dec_str(n as nat)
    }
}

/// `n / d` in hundredths, rounded half to even.
pub open spec fn scaled_hundredths(n: int, d: int) -> int
    recommends
        n >= 0,
        d > 0,
{
    let q = (n * 100) / d;
    let r = (n * 100) % d;
    if 2 * r < d {
        q
    } else if 2 * r > d {
        q + 1
    } else if q % 2 == 0 {
        q
    } else {
        q + 1
    }
}

/// `n / d` rendered with two decimal places.
pub open spec fn fixed2_chars(n: int, d: int) -> Seq<char>
    recommends
        n >= 0,
        d > 0,
{
    let s = scaled_hundredths(n, d);
    dec_str((s / 100) as nat) + seq!['.', digit_char((s / 10) % 10), digit_char(s % 10)]
}

/// What a size renders to.
pub open spec fn size_chars(size: int) -> Seq<char> {
    if size <= BYTES {
        int_chars(size) + seq!['B']
    } else if size <= KILOBYTES {
        fixed2_chars(size, BYTES as int) + seq!['k', 'B']
    } else if size <= MEGABYTES {
        fixed2_chars(size, KILOBYTES as int) + seq!['M', 'B']
    } else if size <= GIGABYTES {
        fixed2_chars(size, MEGABYTES as int) + seq!['G', 'B']
    } else if size <= TERABYTES {
        fixed2_chars(size, GIGABYTES as int) + seq!['T', 'B']
    } else {
        dec_str((size / (TERABYTES as int)) as nat) + seq!['P', 'B']
    }
}

/// Renders `n / d` with two decimal places, rounded half to even.
fn fixed2_string(n: u64, d: u64) -> (r: String)
    requires
        0 < d <= 1000000000000,
        n <= 0x002386f26fc10000,  // within the terabyte range: n * 100 cannot overflow
    ensures
        r@ == fixed2_chars(n as int, d as int),
{
    let scaled = n * 100;
    let q = scaled / d;
    let rem = scaled % d;
    let rounded = if 2 * rem < d {
        q
    } else if 2 * rem > d {
        q + 1
    } else if q % 2 == 0 {
        q
    } else {
        q + 1
    };
    proof {
        assert(rounded == scaled_hundredths(n as int, d as int));
        reveal_strlit(".");
        assert("."@ =~= seq!['.']);
    }
    let mut s = u64_to_string(rounded / 100);
    s.append(".");
    s.append(digit_to_str((rounded / 10) % 10));
    s.append(digit_to_str(rounded % 10));
    proof {
        assert(s@ =~= fixed2_chars(n as int, d as int));
    }
    s
}

/// One decimal digit as a string slice.
fn digit_to_str(d: u64) -> (s: &'static str)
    requires
        d < 10,
    ensures
        s@ == seq![digit_char(d as int)],
{
    proof {
        reveal_strlit("0");
        reveal_strlit("1");
        reveal_strlit("2");
        reveal_strlit("3");
        reveal_strlit("4");
        reveal_strlit("5");
        reveal_strlit("6");
        reveal_strlit("7");
        reveal_strlit("8");
        reveal_strlit("9");
    }
    let s: &'static str = if d == 0 {
        "0"
    } else if d == 1 {
        "1"
    } else if d == 2 {
        "2"
    } else if d == 3 {
        "3"
    } else if d == 4 {
        "4"
    } else if d == 5 {
        "5"
    } else if d == 6 {
        "6"
    } else if d == 7 {
        "7"
    } else if d == 8 {
        "8"
    } else {
        "9"
    };
    proof {
        assert(s@ =~= seq![digit_char(d as int)]);
    }
    s
}

impl Size {
    /// The size as it appears in a table cell.
    pub fn display_string(&self) -> (r: String)
        ensures
            r@ == size_chars(self.size as int),
    {
        if self.size <= BYTES {
            let mut s = if self.size < 0 {
                proof {
                    reveal_strlit("-");
                    assert("-"@ =~= seq!['-']);
                }
                let magnitude = ((-(self.size + 1)) as u64) + 1;
                let mut t = String::from_str("-");
                let digits = u64_to_string(magnitude);
                t.append(digits.as_str());
                t
            } else {
                u64_to_string(self.size as u64)
            };
            proof {
                reveal_strlit("B");
                assert("B"@ =~= seq!['B']);
            }
            s.append("B");
            proof {
                assert(s@ =~= size_chars(self.size as int));
            }
            s
        } else {
            let (mut s, unit): (String, &'static str) = if self.size <= KILOBYTES {
                (fixed2_string(self.size as u64, BYTES as u64), "kB")
            } else if self.size <= MEGABYTES {
                (fixed2_string(self.size as u64, KILOBYTES as u64), "MB")
            } else if self.size <= GIGABYTES {
                (fixed2_string(self.size as u64, MEGABYTES as u64), "GB")
            } else if self.size <= TERABYTES {
                (fixed2_string(self.size as u64, GIGABYTES as u64), "TB")
            } else {
                (u64_to_string((self.size / TERABYTES) as u64), "PB")
            };
            proof {
                reveal_strlit("kB");
                reveal_strlit("MB");
                reveal_strlit("GB");
                reveal_strlit("TB");
                reveal_strlit("PB");
                assert("kB"@ =~= seq!['k', 'B']);
                assert("MB"@ =~= seq!['M', 'B']);
                assert("GB"@ =~= seq!['G', 'B']);
                assert("TB"@ =~= seq!['T', 'B']);
                assert("PB"@ =~= seq!['P', 'B']);
            }
            s.append(unit);
            proof {
                assert(s@ =~= size_chars(self.size as int));
            }
            s
        }
    }
}

} // verus!