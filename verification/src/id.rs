//! Strongly typed identifiers: a number tagged with the kind of thing it
//! names.

use core::marker::PhantomData;
use vstd::prelude::*;
use vstd::string::StringExecFns;

verus! {

/// Character of a digit below 16, in lower case.
pub open spec fn digit_char(d: nat) -> char {
    if d < 10 {
        (('0' as u8) + d) as char
    } else {
        (('a' as u8) + (d - 10)) as char
    }
}

/// Digits of `n` in base `b` (at least one digit), most significant first.
pub open spec fn digits(n: nat, b: nat) -> Seq<char>
    decreases n,
{
    if b < 2 || n < b {
        seq![digit_char(n)]
    } else {
        proof {
            assert(n / b < n) by (nonlinear_arith)
                requires
                    b >= 2,
                    n >= b,
            ;
        }
        digits(n / b, b) + seq![digit_char(n % b)]
    }
}

/// Decimal text of an integer, with a leading `-` when it is negative.
pub open spec fn decimal(v: int) -> Seq<char> {
    if v < 0 {
        seq!['-'] + digits((-v) as nat, 10)
    } else {
        digits(v as nat, 10)
    }
}

/// The one-character text of a digit below 16.
fn digit_str(d: u128) -> (s: &'static str)
    requires
        d < 16,
    ensures
        s@ == seq![digit_char(d as nat)],
{
    match d {
        0 => {
            proof {
                reveal_strlit("0");
            }
            "0"
        },
        1 => {
            proof {
                reveal_strlit("1");
            }
            "1"
        },
        2 => {
            proof {
                reveal_strlit("2");
            }
            "2"
        },
        3 => {
            proof {
                reveal_strlit("3");
            }
            "3"
        },
        4 => {
            proof {
                reveal_strlit("4");
            }
            "4"
        },
        5 => {
            proof {
                reveal_strlit("5");
            }
            "5"
        },
        6 => {
            proof {
                reveal_strlit("6");
            }
            "6"
        },
        7 => {
            proof {
                reveal_strlit("7");
            }
            "7"
        },
        8 => {
            proof {
                reveal_strlit("8");
            }
            "8"
        },
        9 => {
            proof {
                reveal_strlit("9");
            }
            "9"
        },
        10 => {
            proof {
                reveal_strlit("a");
            }
            "a"
        },
        11 => {
            proof {
                reveal_strlit("b");
            }
            "b"
        },
        12 => {
            proof {
                reveal_strlit("c");
            }
            "c"
        },
        13 => {
            proof {
                reveal_strlit("d");
            }
            "d"
        },
        14 => {
            proof {
                reveal_strlit("e");
            }
            "e"
        },
        _ => {
            proof {
                reveal_strlit("f");
            }
            "f"
        },
    }
}

/// Digits of `n` in base `b`, most significant first.
pub(crate) fn digits_string(n: u128, b: u128) -> (s: String)
    requires
        2 <= b <= 16,
    ensures
        s@ == digits(n as nat, b as nat),
{
    let mut ds: Vec<u128> = Vec::new();
    let mut m = n;
    while m >= b
        invariant
            2 <= b <= 16,
            m <= n,
            digits(n as nat, b as nat) == digits(m as nat, b as nat) + ds@.reverse().map_values(
                |d: u128| digit_char(d as nat),
            ),
            forall|i: int| 0 <= i < ds@.len() ==> #[trigger] ds@[i] < b,
        decreases m,
    {
        let ghost old_ds = ds@;
        ds.push(m % b);
        proof {
            assert(ds@.reverse() =~= seq![m % b].add(old_ds.reverse()));
            assert(ds@.reverse().map_values(|d: u128| digit_char(d as nat)) =~= seq![digit_char(
                (m % b) as nat,
            )] + old_ds.reverse().map_values(|d: u128| digit_char(d as nat)));
        }
        m = m / b;
    }
    let mut s = String::from_str(digit_str(m));
    let mut k = ds.len();
    assert(ds@.reverse().map_values(|d: u128| digit_char(d as nat)).take(0) =~= Seq::<char>::empty());
    while k > 0
        invariant
            k <= ds@.len(),
            forall|i: int| 0 <= i < ds@.len() ==> #[trigger] ds@[i] < b,
            2 <= b <= 16,
            digits(n as nat, b as nat) == digits(m as nat, b as nat) + ds@.reverse().map_values(
                |d: u128| digit_char(d as nat),
            ),
            s@ == digits(m as nat, b as nat) + ds@.reverse().map_values(
                |d: u128| digit_char(d as nat),
            ).take(ds@.len() - k),
        decreases k,
    {
        k = k - 1;
        s.append(digit_str(ds[k]));
        proof {
            let rs = ds@.reverse().map_values(|d: u128| digit_char(d as nat));
            assert(rs[ds@.len() - 1 - k] == digit_char(ds@[k as int] as nat));
            assert(rs.take(ds@.len() - k) =~= rs.take(ds@.len() - 1 - k) + seq![rs[ds@.len() - 1 - k]]);
        }
    }
    proof {
        let rs = ds@.reverse().map_values(|d: u128| digit_char(d as nat));
        assert(rs.take(ds@.len() as int) =~= rs);
    }
    s
}

/// Numbers that identifiers are made of.
pub trait IdValue: Copy {
    /// The number.
    spec fn int_value(&self) -> int;

    /// The bits of the number read as an unsigned number (what lower-case
    /// hexadecimal formatting prints).
    spec fn bits_value(&self) -> nat;

    /// The number, widened.
    fn to_i128(&self) -> (r: i128)
        ensures
            r == self.int_value(),
    ;

    /// The bits, widened.
    fn to_bits(&self) -> (r: u128)
        ensures
            r == self.bits_value(),
    ;
}

impl IdValue for usize {
    open spec fn int_value(&self) -> int {
        *self as int
    }

    open spec fn bits_value(&self) -> nat {
        *self as nat
    }

    fn to_i128(&self) -> (r: i128) {
        *self as i128
    }

    fn to_bits(&self) -> (r: u128) {
        *self as u128
    }
}

impl IdValue for u32 {
    open spec fn int_value(&self) -> int {
        *self as int
    }

    open spec fn bits_value(&self) -> nat {
        *self as nat
    }

    fn to_i128(&self) -> (r: i128) {
        *self as i128
    }

    fn to_bits(&self) -> (r: u128) {
        *self as u128
    }
}

impl IdValue for u64 {
    open spec fn int_value(&self) -> int {
        *self as int
    }

    open spec fn bits_value(&self) -> nat {
        *self as nat
    }

    fn to_i128(&self) -> (r: i128) {
        *self as i128
    }

    fn to_bits(&self) -> (r: u128) {
        *self as u128
    }
}

impl IdValue for i32 {
    open spec fn int_value(&self) -> int {
        *self as int
    }

    open spec fn bits_value(&self) -> nat {
        (*self as u32) as nat
    }

    fn to_i128(&self) -> (r: i128) {
        *self as i128
    }

    fn to_bits(&self) -> (r: u128) {
        (*self as u32) as u128
    }
}

impl IdValue for i64 {
    open spec fn int_value(&self) -> int {
        *self as int
    }

    open spec fn bits_value(&self) -> nat {
        (*self as u64) as nat
    }

    fn to_i128(&self) -> (r: i128) {
        *self as i128
    }

    fn to_bits(&self) -> (r: u128) {
        (*self as u64) as u128
    }
}

/// Identifier of a thing of kind `C`, held as a number of type `T`.
#[derive(Eq, PartialEq, Hash, Debug)]
pub struct Id<C, T = usize>(T, PhantomData<C>);

impl<C, T: Copy> Clone for Id<C, T> {
    fn clone(&self) -> (r: Self)
        ensures
            r == *self,
    {
        Id(self.0, PhantomData)
    }
}

impl<C, T: Copy> Copy for Id<C, T> {

}

impl<C, T: IdValue> Id<C, T> {
    /// The number.
    pub closed spec fn value(&self) -> T {
        self.0
    }

    /// The identifier numbered `n`.
    pub fn new(n: T) -> (id: Id<C, T>)
        ensures
            id.value() == n,
    {
        Id::<C, T>(n, PhantomData::<C>)
    }

    /// The number.
    pub fn number(&self) -> (r: T)
        ensures
            r == self.value(),
    {
        self.0
    }

    /// `#` followed by the number in lower-case hexadecimal.
    pub fn to_hex_string(&self) -> (s: String)
        ensures
            s@ == seq!['#'] + digits(self.value().bits_value(), 16),
    {
        let mut s = String::from_str("#");
        proof {
            reveal_strlit("#");
        }
        let h = digits_string(self.0.to_bits(), 16);
        s.append(h.as_str());
        s
    }

    /// The number in decimal.
    pub fn to_string(&self) -> (s: String)
        ensures
            s@ == decimal(self.value().int_value()),
    {
        let v = self.0.to_i128();
        if v < 0 {
            let mut s = String::from_str("-");
            proof {
                reveal_strlit("-");
            }
            let mag: u128 = if v == i128::MIN {
                170141183460469231731687303715884105728u128
            } else {
                (-v) as u128
            };
            let d = digits_string(mag, 10);
            s.append(d.as_str());
            s
        } else {
            digits_string(v as u128, 10)
        }
    }
}

} // verus!
