//! Text helpers: digits, hexadecimal and decimal numerals, and the
//! characters of a string.
use vstd::prelude::*;
use vstd::std_specs::iter::IteratorSpec;
use vstd::string::StringExecFns;

verus! {

/// The character of digit `d` (0 to 15), in lower case.
pub open spec fn digit_char(d: nat) -> char {
    if d < 10 {
        (48 + d) as char
    } else {
        (87 + d) as char
    }
}

/// The numeral of `n` in base `b` (10 or 16), most significant first.
pub open spec fn numeral(n: nat, b: nat) -> Seq<char>
    decreases n
    via numeral_decreases
{
    if b < 2 || n < b {
        seq![digit_char(n)]
    } else {
        numeral(n / b, b) + seq![digit_char(n % b)]
    }
}

#[via_fn]
proof fn numeral_decreases(n: nat, b: nat) {
    if !(b < 2 || n < b) {
        assert(n / b < n) by (nonlinear_arith)
            requires
                b >= 2,
                n >= b,
        ;
    }
}

/// The one-character string of digit `d`.
pub fn digit_str(d: u64) -> (r: &'static str)
    requires
        d < 16,
    ensures
        r@ == seq![digit_char(d as nat)],
{
    if d == 0 {
        proof {
            reveal_strlit("0");
        }
        "0"
    } else if d == 1 {
        proof {
            reveal_strlit("1");
        }
        "1"
    } else if d == 2 {
        proof {
            reveal_strlit("2");
        }
        "2"
    } else if d == 3 {
        proof {
            reveal_strlit("3");
        }
        "3"
    } else if d == 4 {
        proof {
            reveal_strlit("4");
        }
        "4"
    } else if d == 5 {
        proof {
            reveal_strlit("5");
        }
        "5"
    } else if d == 6 {
        proof {
            reveal_strlit("6");
        }
        "6"
    } else if d == 7 {
        proof {
            reveal_strlit("7");
        }
        "7"
    } else if d == 8 {
        proof {
            reveal_strlit("8");
        }
        "8"
    } else if d == 9 {
        proof {
            reveal_strlit("9");
        }
        "9"
    } else if d == 10 {
        proof {
            reveal_strlit("a");
        }
        "a"
    } else if d == 11 {
        proof {
            reveal_strlit("b");
        }
        "b"
    } else if d == 12 {
        proof {
            reveal_strlit("c");
        }
        "c"
    } else if d == 13 {
        proof {
            reveal_strlit("d");
        }
        "d"
    } else if d == 14 {
        proof {
            reveal_strlit("e");
        }
        "e"
    } else {
        proof {
            reveal_strlit("f");
        }
        "f"
    }
}

/// The numeral of `n` in base `b`, 10 or 16.
pub fn numeral_string(n: u64, b: u64) -> (r: String)
    requires
        b == 10 || b == 16,
    ensures
        r@ == numeral(n as nat, b as nat),
    decreases n,
{
    if n < b {
        String::from_str(digit_str(n))
    } else {
        let mut s = numeral_string(n / b, b);
        s.append(digit_str(n % b));
        s
    }
}

/// The characters of `s`.
pub fn chars_of(s: &str) -> (r: Vec<char>)
    ensures
        r@ == s@,
{
    broadcast use vstd::string::axiom_spec_iter, vstd::string::next_postcondition;

    let mut it = s.chars();
    let mut out: Vec<char> = Vec::new();
    loop
        invariant
            it.remaining() == s@.skip(out@.len() as int),
            out@ == s@.take(out@.len() as int),
            out@.len() <= s@.len(),
            it.obeys_prophetic_iter_laws(),
        ensures
            out@.len() == s@.len(),
            out@ == s@.take(out@.len() as int),
        decreases s@.len() - out@.len(),
    {
        match it.next() {
            Some(c) => {
                out.push(c);
                assert(out@ =~= s@.take(out@.len() as int));
                assert(it.remaining() =~= s@.skip(out@.len() as int));
            },
            None => {
                assert(s@.skip(out@.len() as int).len() == 0);
                break;
            },
        }
    }
    assert(s@.take(s@.len() as int) =~= s@);
    out
}

/// `a`, an underscore, then `b`.
pub fn underscore_join(a: &str, b: &str) -> (r: String)
    ensures
        r@ == a@ + seq!['_'] + b@,
{
    let mut s = String::from_str(a);
    proof {
        reveal_strlit("_");
    }
    s.append("_");
    s.append(b);
    s
}

} // verus!
