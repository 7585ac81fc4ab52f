//! Byte counts and their human-readable text.

use core::cmp::Ordering;
use vstd::prelude::*;
use vstd::std_specs::ops::AddSpec;

verus! {

/// One kibibyte, in bytes.
pub const KIB: u64 = 1024;

/// One mebibyte, in bytes.
pub const MIB: u64 = 1_048_576;

/// One gibibyte, in bytes.
pub const GIB: u64 = 1_073_741_824;

/// A number of bytes. Sizes are ordered by their number of bytes.
#[derive(PartialEq, Eq, Ord, Clone, Copy, Debug, Structural)]
pub struct Size(pub u64);

impl View for Size {
    type V = nat;

    open spec fn view(&self) -> nat {
        self.0 as nat
    }
}

/// The character that stands for the decimal digit `d`.
pub open spec fn digit(d: nat) -> char {
    if d == 0 {
        '0'
    } else if d == 1 {
        '1'
    } else if d == 2 {
        '2'
    } else if d == 3 {
        '3'
    } else if d == 4 {
        '4'
    } else if d == 5 {
        '5'
    } else if d == 6 {
        '6'
    } else if d == 7 {
        '7'
    } else if d == 8 {
        '8'
    } else {
        '9'
    }
}

/// The decimal numeral of `n`, without leading zeros.
pub open spec fn decimal(n: nat) -> Seq<char>
    decreases n,
{
    if n < 10 {
        seq![digit(n)]
    } else {
        decimal(n / 10).push(digit(n % 10))
    }
}

/// `n / unit` in tenths, rounded to the nearest tenth; a value exactly
/// halfway between two tenths goes to the even one.
pub open spec fn tenths(n: nat, unit: nat) -> nat {
    let q = (n * 10) / unit;
    let r = (n * 10) % unit;
    if 2 * r > unit || (2 * r == unit && q % 2 == 1) {
        q + 1
    } else {
        q
    }
}

/// `n / unit` written with exactly one digit after the point.
pub open spec fn one_decimal(n: nat, unit: nat) -> Seq<char> {
    decimal(tenths(n, unit) / 10) + seq!['.', digit(tenths(n, unit) % 10)]
}

/// The text of a byte count: whole bytes below one kibibyte, then kibibytes,
/// mebibytes and gibibytes with one decimal. Each unit starts at its own
/// power of 1024.
pub open spec fn size_text(n: nat) -> Seq<char> {
    if n < KIB {
        decimal(n) + seq![' ', 'B']
    } else if n < MIB {
        one_decimal(n, KIB as nat) + seq![' ', 'K', 'B']
    } else if n < GIB {
        one_decimal(n, MIB as nat) + seq![' ', 'M', 'B']
    } else {
        one_decimal(n, GIB as nat) + seq![' ', 'G', 'B']
    }
}

fn digit_str(d: u128) -> (s: &'static str)
    requires
        d < 10,
    ensures
        s@ == seq![digit(d as nat)],
{
    proof {
        reveal_strlit("0");
        reveal_strlit("1");
        reveal_strlit("2");
        reveal_strlit("3");
        reveal_strlit("4");
        reveal_strlit("5");
        reveal_strlit("6");
        reveal_strlit("7");
        reveal_strlit("8");
        reveal_strlit("9");
    }
    let s = if d == 0 {
        "0"
    } else if d == 1 {
        "1"
    } else if d == 2 {
        "2"
    } else if d == 3 {
        "3"
    } else if d == 4 {
        "4"
    } else if d == 5 {
        "5"
    } else if d == 6 {
        "6"
    } else if d == 7 {
        "7"
    } else if d == 8 {
        "8"
    } else {
        "9"
    };
    assert(s@ =~= seq![digit(d as nat)]);
    s
}

fn push_decimal(out: &mut String, n: u128)
    ensures
        final(out)@ == old(out)@ + decimal(n as nat),
    decreases n,
{
    if n >= 10 {
        push_decimal(out, n / 10);
    }
    out.append(digit_str(n % 10));
    assert(out@ =~= old(out)@ + decimal(n as nat));
}

fn push_one_decimal(out: &mut String, n: u64, unit: u64)
    requires
        unit >= 1,
    ensures
        final(out)@ == old(out)@ + one_decimal(n as nat, unit as nat),
{
    let scaled: u128 = (n as u128) * 10;
    let q: u128 = scaled / (unit as u128);
    let r: u128 = scaled % (unit as u128);
    assert(q <= scaled) by (nonlinear_arith)
        requires
            q == scaled / (unit as u128),
            unit >= 1,
    ;
    let t: u128 = if 2 * r > unit as u128 || (2 * r == unit as u128 && q % 2 == 1) {
        q + 1
    } else {
        q
    };
    assert(t == tenths(n as nat, unit as nat));
    push_decimal(out, t / 10);
    out.append(".");
    out.append(digit_str(t % 10));
    proof {
        reveal_strlit(".");
        assert(out@ =~= old(out)@ + one_decimal(n as nat, unit as nat));
    }
}

impl Size {
    /// A size of `bytes` bytes.
    pub fn new(bytes: u64) -> (size: Size)
        ensures
            size@ == bytes,
    {
        Size(bytes)
    }

    /// The number of bytes.
    pub fn bytes(self) -> (bytes: u64)
        ensures
            bytes == self@,
    {
        self.0
    }

    /// The text of this size, as `size_text` defines it.
    pub fn format(&self) -> (text: String)
        ensures
            text@ == size_text(self@),
    {
        let mut text = String::new();
        let n = self.0;
        if n < KIB {
            push_decimal(&mut text, n as u128);
            text.append(" B");
            proof {
                reveal_strlit(" B");
                assert(text@ =~= size_text(self@));
            }
        } else if n < MIB {
            push_one_decimal(&mut text, n, KIB);
            text.append(" KB");
            proof {
                reveal_strlit(" KB");
                assert(text@ =~= size_text(self@));
            }
        } else if n < GIB {
            push_one_decimal(&mut text, n, MIB);
            text.append(" MB");
            proof {
                reveal_strlit(" MB");
                assert(text@ =~= size_text(self@));
            }
        } else {
            push_one_decimal(&mut text, n, GIB);
            text.append(" GB");
            proof {
                reveal_strlit(" GB");
                assert(text@ =~= size_text(self@));
            }
        }
        text
    }
}

impl PartialOrd for Size {
    /// The order of two sizes, which is that of their numbers of bytes.
    fn partial_cmp(&self, other: &Size) -> (order: Option<Ordering>) {
        if self.0 < other.0 {
            Some(Ordering::Less)
        } else if self.0 == other.0 {
            Some(Ordering::Equal)
        } else {
            Some(Ordering::Greater)
        }
    }
}

impl vstd::std_specs::cmp::PartialOrdSpecImpl for Size {
    open spec fn obeys_partial_cmp_spec() -> bool {
        true
    }

    open spec fn partial_cmp_spec(&self, other: &Size) -> Option<Ordering> {
        if self@ < other@ {
            Some(Ordering::Less)
        } else if self@ == other@ {
            Some(Ordering::Equal)
        } else {
            Some(Ordering::Greater)
        }
    }
}

impl core::ops::Add for Size {
    type Output = Size;

    /// The sum of two sizes. The sum has to fit in 64 bits.
    fn add(self, rhs: Size) -> (sum: Size) {
        Size(self.0 + rhs.0)
    }
}

impl vstd::std_specs::ops::AddSpecImpl for Size {
    open spec fn obeys_add_spec() -> bool {
        true
    }

    open spec fn add_req(self, rhs: Size) -> bool {
        self@ + rhs@ <= u64::MAX
    }

    open spec fn add_spec(self, rhs: Size) -> Size {
        Size((self.0 + rhs.0) as u64)
    }
}

/// Adding sizes is commutative.
pub proof fn lemma_add_commutative(a: Size, b: Size)
    requires
        a@ + b@ <= u64::MAX,
    ensures
        a.add_spec(b) == b.add_spec(a),
        a.add_spec(b)@ == a@ + b@,
{
}

/// Adding sizes is associative.
pub proof fn lemma_add_associative(a: Size, b: Size, c: Size)
    requires
        a@ + b@ + c@ <= u64::MAX,
    ensures
        a.add_spec(b).add_spec(c) == a.add_spec(b.add_spec(c)),
        a.add_spec(b).add_spec(c)@ == a@ + b@ + c@,
{
}

} // verus!
