//! Small verified text building blocks: decimal rendering of numbers and
//! lower-case letter tables, used for derived paths and generated data.

use vstd::prelude::*;
use vstd::pervasive::unreached;
use vstd::string::StringExecFns;

verus! {

/// The decimal digit character for a value below ten.
pub open spec fn spec_digit_char(d: nat) -> char {
    if d == 0 {
        '0'
    } else if d == 1 {
        '1'
    } else if d == 2 {
        '2'
    } else if d == 3 {
        '3'
    } else if d == 4 {
        '4'
    } else if d == 5 {
        '5'
    } else if d == 6 {
        '6'
    } else if d == 7 {
        '7'
    } else if d == 8 {
        '8'
    } else {
        '9'
    }
}

/// The decimal rendering of a number, most significant digit first.
pub open spec fn spec_digits(n: nat) -> Seq<char>
    decreases n,
{
    if n < 10 {
        seq![spec_digit_char(n)]
    } else {
        spec_digits(n / 10).push(spec_digit_char(n % 10))
    }
}

/// The lower-case letter for a value below twenty-six.
pub open spec fn spec_letter_char(d: nat) -> char {
    ((97 + d) as u8) as char
}

/// One-character string for a decimal digit.
pub fn digit_str(d: u64) -> (r: &'static str)
    requires
        d < 10,
    ensures
        r@ == seq![spec_digit_char(d as nat)],
{
    proof {
        reveal_strlit("0");
        reveal_strlit("1");
        reveal_strlit("2");
        reveal_strlit("3");
        reveal_strlit("4");
        reveal_strlit("5");
        reveal_strlit("6");
        reveal_strlit("7");
        reveal_strlit("8");
        reveal_strlit("9");
    }
    match d {
        0 => "0",
        1 => "1",
        2 => "2",
        3 => "3",
        4 => "4",
        5 => "5",
        6 => "6",
        7 => "7",
        8 => "8",
        9 => "9",
        _ => unreached(),
    }
}

/// One-character string for a lower-case letter index.
pub fn letter_str(d: u64) -> (r: &'static str)
    requires
        d < 26,
    ensures
        r@ == seq![spec_letter_char(d as nat)],
{
    proof {
        reveal_strlit("a");
        reveal_strlit("b");
        reveal_strlit("c");
        reveal_strlit("d");
        reveal_strlit("e");
        reveal_strlit("f");
        reveal_strlit("g");
        reveal_strlit("h");
        reveal_strlit("i");
        reveal_strlit("j");
        reveal_strlit("k");
        reveal_strlit("l");
        reveal_strlit("m");
        reveal_strlit("n");
        reveal_strlit("o");
        reveal_strlit("p");
        reveal_strlit("q");
        reveal_strlit("r");
        reveal_strlit("s");
        reveal_strlit("t");
        reveal_strlit("u");
        reveal_strlit("v");
        reveal_strlit("w");
        reveal_strlit("x");
        reveal_strlit("y");
        reveal_strlit("z");
    }
    match d {
        0 => "a",
        1 => "b",
        2 => "c",
        3 => "d",
        4 => "e",
        5 => "f",
        6 => "g",
        7 => "h",
        8 => "i",
        9 => "j",
        10 => "k",
        11 => "l",
        12 => "m",
        13 => "n",
        14 => "o",
        15 => "p",
        16 => "q",
        17 => "r",
        18 => "s",
        19 => "t",
        20 => "u",
        21 => "v",
        22 => "w",
        23 => "x",
        24 => "y",
        25 => "z",
        _ => unreached(),
    }
}

/// The characters of a digit stack, last pushed first.
pub open spec fn spec_rev_digit_chars(ds: Seq<u64>) -> Seq<char>
    decreases ds.len(),
{
    if ds.len() == 0 {
        Seq::empty()
    } else {
        seq![spec_digit_char((ds.last() % 10) as nat)] + spec_rev_digit_chars(ds.drop_last())
    }
}

/// Peeling the first (least recently pushed) digit off a stack appends its
/// character at the end of the rendering.
proof fn lemma_rev_digit_chars_first(ds: Seq<u64>)
    requires
        ds.len() > 0,
    ensures
        spec_rev_digit_chars(ds) == spec_rev_digit_chars(ds.drop_first()) + seq![spec_digit_char(
            (ds.first() % 10) as nat,
        )],
    decreases ds.len(),
{
    if ds.len() == 1 {
        assert(ds.drop_last() =~= Seq::<u64>::empty());
        assert(ds.drop_first() =~= Seq::<u64>::empty());
        assert(ds.last() == ds.first());
        assert(spec_rev_digit_chars(ds) =~= spec_rev_digit_chars(ds.drop_first()) + seq![
            spec_digit_char((ds.first() % 10) as nat),
        ]);
    } else {
        lemma_rev_digit_chars_first(ds.drop_last());
        assert(ds.drop_last().drop_first() =~= ds.drop_first().drop_last());
        assert(ds.drop_first().last() == ds.last());
        assert(ds.drop_last().first() == ds.first());
        assert(spec_rev_digit_chars(ds) =~= spec_rev_digit_chars(ds.drop_first()) + seq![
            spec_digit_char((ds.first() % 10) as nat),
        ]);
    }
}

/// Render a number in decimal.
pub fn u64_to_string(n: u64) -> (r: String)
    ensures
        r@ == spec_digits(n as nat),
{
    if n < 10 {
        return digit_str(n).to_owned();
    }
    let mut acc: Vec<u64> = Vec::new();
    let mut m: u64 = n;
    proof {
        assert(spec_rev_digit_chars(acc@) =~= Seq::<char>::empty());
        assert(spec_digits(n as nat) =~= spec_digits(m as nat) + spec_rev_digit_chars(acc@));
    }
    while m > 0
        invariant
            forall|k: int| 0 <= k < acc@.len() ==> #[trigger] acc@[k] < 10,
            spec_digits(n as nat) == if m > 0 {
                spec_digits(m as nat) + spec_rev_digit_chars(acc@)
            } else {
                spec_rev_digit_chars(acc@)
            },
        decreases m,
    {
        let ghost acc_before = acc@;
        let d = m % 10;
        acc.push(d);
        proof {
            assert(acc@.drop_last() =~= acc_before);
            assert(spec_rev_digit_chars(acc@) =~= seq![spec_digit_char((d % 10) as nat)]
                + spec_rev_digit_chars(acc_before));
            if m >= 10 {
                assert(spec_digits(m as nat) == spec_digits((m / 10) as nat).push(
                    spec_digit_char((m % 10) as nat),
                ));
                assert(spec_digits((m / 10) as nat).push(spec_digit_char((m % 10) as nat))
                    =~= spec_digits((m / 10) as nat) + seq![spec_digit_char((m % 10) as nat)]);
                assert(spec_digits(n as nat) =~= spec_digits((m / 10) as nat)
                    + spec_rev_digit_chars(acc@));
            } else {
                assert(spec_digits(m as nat) =~= seq![spec_digit_char((m % 10) as nat)]);
                assert(spec_digits(n as nat) =~= spec_rev_digit_chars(acc@));
            }
        }
        m = m / 10;
    }
    let mut r = String::new();
    let mut i: usize = acc.len();
    while i > 0
        invariant
            i <= acc@.len(),
            forall|k: int| 0 <= k < acc@.len() ==> #[trigger] acc@[k] < 10,
            r@ == spec_rev_digit_chars(acc@.skip(i as int)),
            spec_digits(n as nat) == spec_rev_digit_chars(acc@),
        decreases i,
    {
        i = i - 1;
        r.append(digit_str(acc[i]));
        proof {
            let s = acc@.skip(i as int);
            assert(s.first() == acc@[i as int]);
            assert(s.drop_first() =~= acc@.skip(i as int + 1));
            lemma_rev_digit_chars_first(s);
            assert(acc@[i as int] % 10 == acc@[i as int]);
        }
    }
    proof {
        assert(acc@.skip(0) =~= acc@);
    }
    r
}

} // verus!
