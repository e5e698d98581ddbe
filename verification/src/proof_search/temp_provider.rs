use vstd::prelude::*;

verus! {

/// The counter after one more fresh name is drawn. It sticks at the machine
/// maximum instead of wrapping; no run can draw that many names.
pub open spec fn next_counter(c: nat) -> nat {
    if c < usize::MAX as nat {
        c + 1
    } else {
        c
    }
}

/// The counter after `k` more names.
pub open spec fn counter_plus(c: nat, k: nat) -> nat
    decreases k,
{
    if k == 0 {
        c
    } else {
        next_counter(counter_plus(c, (k - 1) as nat))
    }
}

/// The character of one decimal digit.
pub open spec fn digit_char(d: nat) -> char {
    if d == 0 {
        '0'
    } else if d == 1 {
        '1'
    } else if d == 2 {
        '2'
    } else if d == 3 {
        '3'
    } else if d == 4 {
        '4'
    } else if d == 5 {
        '5'
    } else if d == 6 {
        '6'
    } else if d == 7 {
        '7'
    } else if d == 8 {
        '8'
    } else {
        '9'
    }
}

/// The decimal digits of `n`, most significant first.
pub open spec fn dec_digits(n: nat) -> Seq<char>
    decreases n,
{
    if n < 10 {
        seq![digit_char(n)]
    } else {
        dec_digits(n / 10).push(digit_char(n % 10))
    }
}

/// The placeholder name for counter value `n`: an underscore — which the
/// grammar keeps out of user identifiers — followed by the digits of `n`.
pub open spec fn temp_name(n: nat) -> Seq<char> {
    seq!['_'] + dec_digits(n)
}

/// The string slice holding one decimal digit.
fn digit_str(d: usize) -> (r: &'static str)
    requires
        d < 10,
    ensures
        r@ == seq![digit_char(d as nat)],
{
    if d == 0 {
        proof {
            reveal_strlit("0");
            assert("0"@ =~= seq![digit_char(0)]);
        }
        "0"
    } else if d == 1 {
        proof {
            reveal_strlit("1");
            assert("1"@ =~= seq![digit_char(1)]);
        }
        "1"
    } else if d == 2 {
        proof {
            reveal_strlit("2");
            assert("2"@ =~= seq![digit_char(2)]);
        }
        "2"
    } else if d == 3 {
        proof {
            reveal_strlit("3");
            assert("3"@ =~= seq![digit_char(3)]);
        }
        "3"
    } else if d == 4 {
        proof {
            reveal_strlit("4");
            assert("4"@ =~= seq![digit_char(4)]);
        }
        "4"
    } else if d == 5 {
        proof {
            reveal_strlit("5");
            assert("5"@ =~= seq![digit_char(5)]);
        }
        "5"
    } else if d == 6 {
        proof {
            reveal_strlit("6");
            assert("6"@ =~= seq![digit_char(6)]);
        }
        "6"
    } else if d == 7 {
        proof {
            reveal_strlit("7");
            assert("7"@ =~= seq![digit_char(7)]);
        }
        "7"
    } else if d == 8 {
        proof {
            reveal_strlit("8");
            assert("8"@ =~= seq![digit_char(8)]);
        }
        "8"
    } else {
        proof {
            reveal_strlit("9");
            assert("9"@ =~= seq![digit_char(9)]);
        }
        "9"
    }
}

/// Append the decimal digits of `n`.
fn push_digits(n: usize, out: &mut String)
    ensures
        final(out)@ == old(out)@ + dec_digits(n as nat),
    decreases n,
{
    if n < 10 {
        out.append(digit_str(n));
        proof {
            assert(out@ =~= old(out)@ + dec_digits(n as nat));
        }
    } else {
        push_digits(n / 10, out);
        out.append(digit_str(n % 10));
        proof {
            assert(out@ =~= old(out)@ + dec_digits(n as nat));
        }
    }
}

/// Produces the placeholder variable names `_1`, `_2`, … in order: while the
/// counter moves — and no run exhausts it — no two calls return the same
/// name, and no name collides with a user identifier.
#[derive(Debug)]
pub struct TempProvider {
    count: usize,
}

impl TempProvider {
    /// How many names have been handed out.
    pub closed spec fn counter(&self) -> nat {
        self.count as nat
    }

    /// The next placeholder name.
    pub fn get(&mut self) -> (r: String)
        ensures
            final(self).counter() == next_counter(old(self).counter()),
            r@ == temp_name(next_counter(old(self).counter())),
    {
        if self.count < usize::MAX {
            self.count = self.count + 1;
        }
        let mut out = String::from_str("_");
        proof {
            reveal_strlit("_");
            assert(out@ =~= seq!['_']);
        }
        push_digits(self.count, &mut out);
        out
    }
}

impl Default for TempProvider {
    /// A provider whose first name is `_1`.
    fn default() -> (r: Self)
        ensures
            r.counter() == 0,
    {
        TempProvider { count: 0 }
    }
}


/// The decimal digits of distinct numbers differ.
pub proof fn lemma_dec_digits_injective(a: nat, b: nat)
    requires
        a != b,
    ensures
        dec_digits(a) != dec_digits(b),
    decreases a + b,
{
    if a < 10 && b < 10 {
        assert(dec_digits(a)[0] == digit_char(a));
        assert(dec_digits(b)[0] == digit_char(b));
    } else if a < 10 && b >= 10 {
        assert(dec_digits(a).len() == 1);
        assert(dec_digits(b).len() == dec_digits(b / 10).len() + 1);
    } else if a >= 10 && b < 10 {
        assert(dec_digits(b).len() == 1);
        assert(dec_digits(a).len() == dec_digits(a / 10).len() + 1);
    } else {
        if a / 10 != b / 10 {
            lemma_dec_digits_injective(a / 10, b / 10);
            assert(dec_digits(a).drop_last() =~= dec_digits(a / 10));
            assert(dec_digits(b).drop_last() =~= dec_digits(b / 10));
            if dec_digits(a) == dec_digits(b) {
                assert(dec_digits(a).drop_last() == dec_digits(b).drop_last());
            }
        } else {
            assert(a % 10 != b % 10) by {
                assert(a == 10 * (a / 10) + a % 10);
                assert(b == 10 * (b / 10) + b % 10);
            }
            assert(dec_digits(a).last() == digit_char(a % 10));
            assert(dec_digits(b).last() == digit_char(b % 10));
        }
    }
}

/// No placeholder name is handed out twice while the counter moves, and none
/// is a user identifier: each starts with the underscore the grammar
/// reserves.
pub proof fn lemma_temp_names_fresh(c1: nat, c2: nat)
    requires
        c1 != c2,
    ensures
        temp_name(c1) != temp_name(c2),
        temp_name(c1)[0] == '_',
{
    lemma_dec_digits_injective(c1, c2);
    if temp_name(c1) == temp_name(c2) {
        assert(temp_name(c1).skip(1) =~= dec_digits(c1));
        assert(temp_name(c2).skip(1) =~= dec_digits(c2));
    }
}

} // verus!
