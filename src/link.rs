//! Link-type codes: the tag pair that a white hole carries.
//!
//! Non-negative codes address numbered ports of an audio unit; negative codes
//! name symbolic channels, each written as one letter.
use vstd::prelude::*;

use crate::text::chars_of;

verus! {

/// Whether `c` is an ASCII decimal digit.
pub open spec fn is_digit(c: char) -> bool {
    '0' <= c && c <= '9'
}

/// The value of the digit `c`.
pub open spec fn digit_value(c: char) -> int {
    c as int - '0' as int
}

/// Whether `s` is one or more decimal digits.
pub open spec fn is_digits(s: Seq<char>) -> bool {
    s.len() > 0 && forall|i: int| 0 <= i < s.len() ==> is_digit(#[trigger] s[i])
}

/// The value of a run of decimal digits, most significant first.
pub open spec fn digits_value(s: Seq<char>) -> int
    decreases s.len(),
{
    if s.len() == 0 {
        0
    } else {
        digits_value(s.drop_last()) * 10 + digit_value(s.last())
    }
}

/// The integer that `s` writes: an optional sign and one or more digits.
pub open spec fn int_text_value(s: Seq<char>) -> Option<int> {
    if s.len() > 0 && (s[0] == '-' || s[0] == '+') {
        let rest = s.drop_first();
        if is_digits(rest) {
            Some(if s[0] == '-' { -digits_value(rest) } else { digits_value(rest) })
        } else {
            None
        }
    } else if is_digits(s) {
        Some(digits_value(s))
    } else {
        None
    }
}

/// `s` read as an 8-bit signed integer, as `str::parse::<i8>` reads it.
pub open spec fn parsed_i8(s: Seq<char>) -> Option<i8> {
    match int_text_value(s) {
        Some(v) => if -128 <= v && v <= 127 { Some(v as i8) } else { None },
        None => None,
    }
}

/// The letter that names a symbolic link type, if `n` is one.
pub open spec fn symbol_letter(n: i8) -> Option<char> {
    if n == -1 { Some('n') }
    else if n == -2 { Some('r') }
    else if n == -3 { Some('x') }
    else if n == -4 { Some('y') }
    else if n == -5 { Some('z') }
    else if n == -6 { Some('h') }
    else if n == -7 { Some('s') }
    else if n == -8 { Some('l') }
    else if n == -9 { Some('a') }
    else if n == -11 { Some('v') }
    else if n == -12 { Some('o') }
    else if n == -13 { Some('A') }
    else if n == -14 { Some('T') }
    else { None }
}

/// The symbolic link type that the letter `c` names; 0 for any other character.
pub open spec fn letter_code(c: char) -> i8 {
    if c == 'n' { -1i8 }
    else if c == 'r' { -2i8 }
    else if c == 'x' { -3i8 }
    else if c == 'y' { -4i8 }
    else if c == 'z' { -5i8 }
    else if c == 'h' { -6i8 }
    else if c == 's' { -7i8 }
    else if c == 'l' { -8i8 }
    else if c == 'a' { -9i8 }
    else if c == 'v' { -11i8 }
    else if c == 'o' { -12i8 }
    else if c == 'A' { -13i8 }
    else if c == 'T' { -14i8 }
    else { 0i8 }
}

/// The link type that the text `s` denotes: an integer that fits in `i8`,
/// else a symbol letter, else 0.
pub open spec fn link_type_of(s: Seq<char>) -> i8 {
    match parsed_i8(s) {
        Some(n) => n,
        None => if s.len() == 1 { letter_code(s[0]) } else { 0i8 },
    }
}

/// The character of the decimal digit `d`.
pub open spec fn digit_char(d: int) -> char {
    ((d + '0' as int) as u32) as char
}

/// The decimal digits of `v`, most significant first, without leading zeros.
pub open spec fn nat_text(v: nat) -> Seq<char>
    decreases v,
{
    if v < 10 {
        seq![digit_char(v as int)]
    } else {
        nat_text(v / 10).push(digit_char((v % 10) as int))
    }
}

/// The decimal text of `v`, with a leading `-` when it is negative.
pub open spec fn int_text(v: int) -> Seq<char> {
    if v < 0 {
        seq!['-'] + nat_text((-v) as nat)
    } else {
        nat_text(v as nat)
    }
}

/// The text of the link type `n`: its letter when it is symbolic, else its decimal.
pub open spec fn lt_text(n: i8) -> Seq<char> {
    match symbol_letter(n) {
        Some(c) => seq![c],
        None => int_text(n as int),
    }
}

/// `v` held within `-cap ..= cap`.
pub open spec fn clamped(v: int, cap: int) -> int {
    if v > cap { cap } else if v < -cap { -cap } else { v }
}

/// Reads an optional sign and decimal digits as an integer held within
/// `-cap ..= cap`.
pub(crate) fn capped_int(s: &Vec<char>, cap: u128) -> (r: Option<i128>)
    requires
        1 <= cap <= u64::MAX as u128 + 2,
    ensures
        match int_text_value(s@) {
            Some(v) => r == Some(clamped(v, cap as int) as i128),
            None => r.is_none(),
        },
{
    let n = s.len();
    if n == 0 {
        return None;
    }
    let negative = s[0] == '-';
    let start: usize = if s[0] == '-' || s[0] == '+' { 1 } else { 0 };
    if start == n {
        assert(s@.drop_first().len() == 0);
        return None;
    }
    let ghost digits = s@.skip(start as int);
    assert(start == 0 ==> s@[0] != '-' && s@[0] != '+');
    assert(start == 1 ==> digits =~= s@.drop_first());
    assert(start == 0 ==> digits =~= s@);
    // `acc` holds the value read so far, held at `cap` once it passes it
    let mut acc: u128 = 0;
    let mut i: usize = start;
    while i < n
        invariant
            start <= i <= n,
            n == s@.len(),
            n > 0,
            start == 0 || start == 1,
            start == 1 <==> (s@[0] == '-' || s@[0] == '+'),
            negative == (s@[0] == '-'),
            1 <= cap <= u64::MAX as u128 + 2,
            digits == s@.skip(start as int),
            forall|j: int| 0 <= j < i - start ==> is_digit(#[trigger] digits[j]),
            acc as int == if digits_value(digits.take(i - start)) > cap {
                cap as int
            } else {
                digits_value(digits.take(i - start))
            },
        decreases n - i,
    {
        let c = s[i];
        assert(digits[i - start] == s@[i as int]);
        if !('0' <= c && c <= '9') {
            assert(!is_digits(digits));
            proof {
                if start == 1 {
                    assert(s@.drop_first() =~= digits);
                } else {
                    assert(s@ =~= digits);
                }
            }
            assert(int_text_value(s@).is_none());
            return None;
        }
        let d = (c as u32) - ('0' as u32);
        let ghost before = digits.take(i - start);
        let ghost v = digits_value(before);
        assert(digits.take(i + 1 - start).drop_last() =~= before);
        assert(digits.take(i + 1 - start).last() == c);
        assert(digits_value(digits.take(i + 1 - start)) == v * 10 + d);
        assert(v >= 0) by {
            lemma_digits_value_nonneg(before);
        }
        assert(acc as int == v || (v > cap && acc == cap));
        if acc * 10 + d as u128 > cap {
            assert(v * 10 + d > cap) by (nonlinear_arith)
                requires
                    acc as int == v || v > cap,
                    acc * 10 + d > cap,
                    v >= 0,
                    d >= 0,
            ;
            acc = cap;
        } else {
            assert(acc as int == v) by (nonlinear_arith)
                requires
                    acc as int == v || (v > cap && acc == cap),
                    acc * 10 + d <= cap,
                    cap >= 1,
                    d >= 0,
            ;
            acc = acc * 10 + d as u128;
        }
        i += 1;
    }
    assert(digits.take(n - start) =~= digits);
    assert(is_digits(digits));
    proof {
        lemma_digits_value_nonneg(digits);
    }
    if negative { Some(-(acc as i128)) } else { Some(acc as i128) }
}

/// Reads an optional sign and decimal digits as an `i8`.
pub(crate) fn parse_i8(s: &Vec<char>) -> (r: Option<i8>)
    ensures
        r == parsed_i8(s@),
{
    match capped_int(s, 129) {
        Some(v) => if -128 <= v && v <= 127 { Some(v as i8) } else { None },
        None => None,
    }
}

proof fn lemma_digits_value_nonneg(s: Seq<char>)
    requires
        forall|i: int| 0 <= i < s.len() ==> is_digit(#[trigger] s[i]),
    ensures
        digits_value(s) >= 0,
    decreases s.len(),
{
    if s.len() > 0 {
        lemma_digits_value_nonneg(s.drop_last());
    }
}

/// Reads a link type: an integer that fits in `i8`, else one of the symbol
/// letters `n r x y z h s l a v o A T`, else 0.
pub fn str_to_lt(s: &str) -> (r: i8)
    ensures
        r == link_type_of(s@),
{
    let t = chars_of(s);
    match parse_i8(&t) {
        Some(n) => n,
        None => {
            if t.len() == 1 {
                let c = t[0];
                if c == 'n' { -1 }
                else if c == 'r' { -2 }
                else if c == 'x' { -3 }
                else if c == 'y' { -4 }
                else if c == 'z' { -5 }
                else if c == 'h' { -6 }
                else if c == 's' { -7 }
                else if c == 'l' { -8 }
                else if c == 'a' { -9 }
                else if c == 'v' { -11 }
                else if c == 'o' { -12 }
                else if c == 'A' { -13 }
                else if c == 'T' { -14 }
                else { 0 }
            } else {
                0
            }
        }
    }
}


proof fn lemma_digit_char(d: int)
    requires
        0 <= d < 10,
    ensures
        digit_value(digit_char(d)) == d,
        is_digit(digit_char(d)),
{
    let u = (d + '0' as int) as u32;
    assert(u as char as u32 == u) by {
        assert(48 <= u <= 57);
    }
}

proof fn lemma_nat_text(v: nat)
    ensures
        is_digits(nat_text(v)),
        digits_value(nat_text(v)) == v,
        nat_text(v)[0] != '-' && nat_text(v)[0] != '+',
    decreases v,
{
    lemma_digit_char((v % 10) as int);
    if v < 10 {
        assert(v % 10 == v);
        let t = seq![digit_char(v as int)];
        assert(t.drop_last() =~= Seq::<char>::empty());
        assert(digits_value(Seq::<char>::empty()) == 0);
        assert(t.last() == digit_char(v as int));
        assert(digits_value(t) == digit_value(digit_char(v as int)));
    } else {
        lemma_nat_text(v / 10);
        assert((v / 10) * 10 + v % 10 == v);
        let r = nat_text(v / 10);
        let t = r.push(digit_char((v % 10) as int));
        assert(t.drop_last() =~= r);
        assert(t.last() == digit_char((v % 10) as int));
        assert(digits_value(t) == digits_value(r) * 10 + (v % 10));
        assert(t[0] == r[0]);
        assert forall|i: int| 0 <= i < t.len() implies is_digit(#[trigger] t[i]) by {
            if i < r.len() {
                assert(t[i] == r[i]);
            }
        }
    }
}

/// Reading back the text of a link type gives the same link type.
pub proof fn law_link_text_round_trip(n: i8)
    ensures
        link_type_of(lt_text(n)) == n,
{
    match symbol_letter(n) {
        Some(c) => {
            let t = seq![c];
            assert(!is_digits(t));
            assert(t[0] != '-' && t[0] != '+');
        },
        None => {
            if n < 0 {
                let v = (-(n as int)) as nat;
                lemma_nat_text(v);
                let t = seq!['-'] + nat_text(v);
                assert(t.drop_first() =~= nat_text(v));
                assert(t[0] == '-');
            } else {
                lemma_nat_text(n as nat);
            }
        },
    }
}

/// The one-character text of the decimal digit `d`.
fn digit_str(d: u32) -> (r: &'static str)
    requires
        d < 10,
    ensures
        r@ == seq![digit_char(d as int)],
{
    proof {
        reveal_strlit("0");
        reveal_strlit("1");
        reveal_strlit("2");
        reveal_strlit("3");
        reveal_strlit("4");
        reveal_strlit("5");
        reveal_strlit("6");
        reveal_strlit("7");
        reveal_strlit("8");
        reveal_strlit("9");
    }
    if d == 0 { "0" }
    else if d == 1 { "1" }
    else if d == 2 { "2" }
    else if d == 3 { "3" }
    else if d == 4 { "4" }
    else if d == 5 { "5" }
    else if d == 6 { "6" }
    else if d == 7 { "7" }
    else if d == 8 { "8" }
    else { "9" }
}

/// The one-letter text of a symbolic link type.
fn letter_str(n: i8) -> (r: Option<&'static str>)
    ensures
        match symbol_letter(n) {
            Some(c) => r.is_some() && r.unwrap()@ == seq![c],
            None => r.is_none(),
        },
{
    proof {
        reveal_strlit("n");
        reveal_strlit("r");
        reveal_strlit("x");
        reveal_strlit("y");
        reveal_strlit("z");
        reveal_strlit("h");
        reveal_strlit("s");
        reveal_strlit("l");
        reveal_strlit("a");
        reveal_strlit("v");
        reveal_strlit("o");
        reveal_strlit("A");
        reveal_strlit("T");
    }
    if n == -1 { Some("n") }
    else if n == -2 { Some("r") }
    else if n == -3 { Some("x") }
    else if n == -4 { Some("y") }
    else if n == -5 { Some("z") }
    else if n == -6 { Some("h") }
    else if n == -7 { Some("s") }
    else if n == -8 { Some("l") }
    else if n == -9 { Some("a") }
    else if n == -11 { Some("v") }
    else if n == -12 { Some("o") }
    else if n == -13 { Some("A") }
    else if n == -14 { Some("T") }
    else { None }
}

/// Writes a link type: its letter when it is symbolic, else its decimal.
pub fn lt_to_string(n: i8) -> (r: String)
    ensures
        r@ == lt_text(n),
{
    if let Some(l) = letter_str(n) {
        return l.to_string();
    }
    let mut out = String::new();
    let v: u32 = if n < 0 { (-(n as i32)) as u32 } else { n as u32 };
    if n < 0 {
        proof { reveal_strlit("-"); }
        out.append("-");
    }
    let ghost start = out@;
    if v >= 100 {
        out.append(digit_str(v / 100));
    }
    if v >= 10 {
        out.append(digit_str((v / 10) % 10));
    }
    out.append(digit_str(v % 10));
    proof {
        let w = v as nat;
        if v >= 100 {
            assert(nat_text(w / 100) == seq![digit_char((w / 100) as int)]);
            assert((w / 10) / 10 == w / 100);
            assert(nat_text(w / 10) == nat_text(w / 100).push(digit_char(((w / 10) % 10) as int)));
        } else if v >= 10 {
            assert(nat_text(w / 10) == seq![digit_char((w / 10) as int)]);
        }
        assert(out@ =~= start + nat_text(w));
        if n < 0 {
            assert(start =~= seq!['-']);
        } else {
            assert(start =~= Seq::<char>::empty());
        }
        assert(out@ =~= int_text(n as int));
    }
    out
}

} // verus!
