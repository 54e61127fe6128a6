//! Parameter tokens of the operator language: a decimal float literal, or
//! one of the named mathematical constants, optionally negated.
use vstd::prelude::*;

use crate::link::is_digit;
use crate::text::{chars_of, same_text};

verus! {

/// The named constants that a parameter may spell instead of a number.
#[derive(Clone, Copy, PartialEq, Eq, Structural, Debug)]
pub enum NamedConst {
    E,
    Frac1Pi,
    Frac1Sqrt2,
    Frac2Pi,
    Frac2SqrtPi,
    FracPi2,
    FracPi3,
    FracPi4,
    FracPi6,
    FracPi8,
    Ln2,
    Ln10,
    Log2Of10,
    Log2E,
    Log10Of2,
    Log10E,
    Pi,
    Sqrt2,
    Tau,
}

/// A parameter that was read successfully.
#[derive(Debug, PartialEq, Eq)]
pub enum Param {
    /// A float literal, kept as written.
    Number(Vec<char>),
    /// A named constant; the flag is set when it was written with a leading `-`.
    Constant(NamedConst, bool),
}

/// What a parameter is, as a mathematical value.
pub ghost enum ParamModel {
    Number(Seq<char>),
    Constant(NamedConst, bool),
}

impl View for Param {
    type V = ParamModel;

    open spec fn view(&self) -> ParamModel {
        match self {
            Param::Number(t) => ParamModel::Number(t@),
            Param::Constant(c, neg) => ParamModel::Constant(*c, *neg),
        }
    }
}

/// Why a token is not a parameter.
#[derive(Clone, Copy, PartialEq, Eq, Structural, Debug)]
pub enum ParamError {
    /// The token is neither a float literal nor a named constant.
    NotANumber,
}

/// The constant whose name is exactly `t`.
pub open spec fn const_named(t: Seq<char>) -> Option<NamedConst> {
    if t == "E"@ { Some(NamedConst::E) }
    else if t == "FRAC_1_PI"@ { Some(NamedConst::Frac1Pi) }
    else if t == "FRAC_1_SQRT_2"@ { Some(NamedConst::Frac1Sqrt2) }
    else if t == "FRAC_2_PI"@ { Some(NamedConst::Frac2Pi) }
    else if t == "FRAC_2_SQRT_PI"@ { Some(NamedConst::Frac2SqrtPi) }
    else if t == "FRAC_PI_2"@ { Some(NamedConst::FracPi2) }
    else if t == "FRAC_PI_3"@ { Some(NamedConst::FracPi3) }
    else if t == "FRAC_PI_4"@ { Some(NamedConst::FracPi4) }
    else if t == "FRAC_PI_6"@ { Some(NamedConst::FracPi6) }
    else if t == "FRAC_PI_8"@ { Some(NamedConst::FracPi8) }
    else if t == "LN_2"@ { Some(NamedConst::Ln2) }
    else if t == "LN_10"@ { Some(NamedConst::Ln10) }
    else if t == "LOG2_10"@ { Some(NamedConst::Log2Of10) }
    else if t == "LOG2_E"@ { Some(NamedConst::Log2E) }
    else if t == "LOG10_2"@ { Some(NamedConst::Log10Of2) }
    else if t == "LOG10_E"@ { Some(NamedConst::Log10E) }
    else if t == "PI"@ { Some(NamedConst::Pi) }
    else if t == "SQRT_2"@ { Some(NamedConst::Sqrt2) }
    else if t == "TAU"@ { Some(NamedConst::Tau) }
    else { None }
}

/// The constant that `t` names, with a flag for a leading `-`.
pub open spec fn signed_const(t: Seq<char>) -> Option<(NamedConst, bool)> {
    match const_named(t) {
        Some(c) => Some((c, false)),
        None => if t.len() > 0 && t[0] == '-' {
            match const_named(t.drop_first()) {
                Some(c) => Some((c, true)),
                None => None,
            }
        } else {
            None
        },
    }
}

/// States of the recognizer of decimal float literals.
/// 0: start; 1: after a sign; 2: integer digits; 3: a point after digits;
/// 4: a point with no digit before it; 5: fraction digits; 6: after `e`;
/// 7: after the exponent's sign; 8: exponent digits; 9: rejected.
pub open spec fn float_step(state: u8, c: char) -> u8 {
    let sign = c == '+' || c == '-';
    let exp = c == 'e' || c == 'E';
    if state == 0 {
        if sign { 1 } else if is_digit(c) { 2 } else if c == '.' { 4 } else { 9 }
    } else if state == 1 {
        if is_digit(c) { 2 } else if c == '.' { 4 } else { 9 }
    } else if state == 2 {
        if is_digit(c) { 2 } else if c == '.' { 3 } else if exp { 6 } else { 9 }
    } else if state == 3 || state == 5 {
        if is_digit(c) { 5 } else if exp { 6 } else { 9 }
    } else if state == 4 {
        if is_digit(c) { 5 } else { 9 }
    } else if state == 6 {
        if sign { 7 } else if is_digit(c) { 8 } else { 9 }
    } else if state == 7 || state == 8 {
        if is_digit(c) { 8 } else { 9 }
    } else {
        9
    }
}

/// The recognizer's state after reading `s`.
pub open spec fn float_run(s: Seq<char>) -> u8
    decreases s.len(),
{
    if s.len() == 0 {
        0
    } else {
        float_step(float_run(s.drop_last()), s.last())
    }
}

/// `c` in lower case, for ASCII letters.
pub open spec fn lower(c: char) -> char {
    if 'A' <= c && c <= 'Z' { (((c as u8) + 32) as u8) as char } else { c }
}

/// Whether `s` spells the lower-case word `w`, ignoring ASCII case.
pub open spec fn is_word(s: Seq<char>, w: Seq<char>) -> bool {
    s.len() == w.len() && forall|i: int| 0 <= i < s.len() ==> lower(#[trigger] s[i]) == w[i]
}

/// Whether `s` is a float literal as `str::parse::<f32>` accepts it: an
/// optional sign, then `inf`, `infinity` or `nan` in any case, or digits with
/// an optional point and an optional exponent, with a digit on one side of
/// the point at least.
pub open spec fn is_float_text(s: Seq<char>) -> bool {
    let body = if s.len() > 0 && (s[0] == '+' || s[0] == '-') { s.drop_first() } else { s };
    ||| float_run(s) == 2
    ||| float_run(s) == 3
    ||| float_run(s) == 5
    ||| float_run(s) == 8
    ||| is_word(body, "inf"@)
    ||| is_word(body, "infinity"@)
    ||| is_word(body, "nan"@)
}

/// What the token `t` reads as: a float literal first, else a named constant.
pub open spec fn param_of(t: Seq<char>) -> Option<ParamModel> {
    if is_float_text(t) {
        Some(ParamModel::Number(t))
    } else {
        match signed_const(t) {
            Some((c, neg)) => Some(ParamModel::Constant(c, neg)),
            None => None,
        }
    }
}

fn float_step_exec(state: u8, c: char) -> (r: u8)
    ensures
        r == float_step(state, c),
{
    let sign = c == '+' || c == '-';
    let exp = c == 'e' || c == 'E';
    let digit = '0' <= c && c <= '9';
    if state == 0 {
        if sign { 1 } else if digit { 2 } else if c == '.' { 4 } else { 9 }
    } else if state == 1 {
        if digit { 2 } else if c == '.' { 4 } else { 9 }
    } else if state == 2 {
        if digit { 2 } else if c == '.' { 3 } else if exp { 6 } else { 9 }
    } else if state == 3 || state == 5 {
        if digit { 5 } else if exp { 6 } else { 9 }
    } else if state == 4 {
        if digit { 5 } else { 9 }
    } else if state == 6 {
        if sign { 7 } else if digit { 8 } else { 9 }
    } else if state == 7 || state == 8 {
        if digit { 8 } else { 9 }
    } else {
        9
    }
}

fn lower_exec(c: char) -> (r: char)
    ensures
        r == lower(c),
{
    if 'A' <= c && c <= 'Z' {
        let b = c as u8;
        (b + 32) as char
    } else {
        c
    }
}

/// Whether the characters of `t` from `start` spell `w`, ignoring ASCII case.
fn word_from(t: &Vec<char>, start: usize, w: &str) -> (r: bool)
    requires
        start <= t@.len(),
    ensures
        r == is_word(t@.skip(start as int), w@),
{
    let n = w.unicode_len();
    if t.len() - start != n {
        return false;
    }
    let mut i: usize = 0;
    while i < n
        invariant
            n == w@.len(),
            start + n == t@.len(),
            t@.len() == t.len(),
            i <= n,
            forall|j: int| 0 <= j < i ==> lower(#[trigger] t@.skip(start as int)[j]) == w@[j],
        decreases n - i,
    {
        if lower_exec(t[start + i]) != w.get_char(i) {
            assert(t@.skip(start as int)[i as int] == t@[start + i]);
            return false;
        }
        assert(t@.skip(start as int)[i as int] == t@[start + i]);
        i += 1;
    }
    true
}

/// The recognizer's state after reading all of `t`.
pub(crate) fn float_state(t: &Vec<char>) -> (r: u8)
    ensures
        r == float_run(t@),
{
    let mut state: u8 = 0;
    let mut i: usize = 0;
    while i < t.len()
        invariant
            i <= t@.len(),
            state == float_run(t@.take(i as int)),
        decreases t@.len() - i,
    {
        assert(t@.take(i + 1 as int).drop_last() =~= t@.take(i as int));
        state = float_step_exec(state, t[i]);
        i += 1;
    }
    assert(t@.take(i as int) =~= t@);
    state
}

/// Whether `t` is a float literal in the grammar that `str::parse::<f32>` accepts.
fn float_text(t: &Vec<char>) -> (r: bool)
    ensures
        r == is_float_text(t@),
{
    let state = float_state(t);
    if state == 2 || state == 3 || state == 5 || state == 8 {
        return true;
    }
    let start: usize = if t.len() > 0 && (t[0] == '+' || t[0] == '-') { 1 } else { 0 };
    assert(start == 1 ==> t@.skip(1) =~= t@.drop_first());
    assert(start == 0 ==> t@.skip(0) =~= t@);
    word_from(t, start, "inf") || word_from(t, start, "infinity") || word_from(t, start, "nan")
}

fn const_exec(t: &Vec<char>) -> (r: Option<NamedConst>)
    ensures
        r == const_named(t@),
{
    if same_text(t, "E") { Some(NamedConst::E) }
    else if same_text(t, "FRAC_1_PI") { Some(NamedConst::Frac1Pi) }
    else if same_text(t, "FRAC_1_SQRT_2") { Some(NamedConst::Frac1Sqrt2) }
    else if same_text(t, "FRAC_2_PI") { Some(NamedConst::Frac2Pi) }
    else if same_text(t, "FRAC_2_SQRT_PI") { Some(NamedConst::Frac2SqrtPi) }
    else if same_text(t, "FRAC_PI_2") { Some(NamedConst::FracPi2) }
    else if same_text(t, "FRAC_PI_3") { Some(NamedConst::FracPi3) }
    else if same_text(t, "FRAC_PI_4") { Some(NamedConst::FracPi4) }
    else if same_text(t, "FRAC_PI_6") { Some(NamedConst::FracPi6) }
    else if same_text(t, "FRAC_PI_8") { Some(NamedConst::FracPi8) }
    else if same_text(t, "LN_2") { Some(NamedConst::Ln2) }
    else if same_text(t, "LN_10") { Some(NamedConst::Ln10) }
    else if same_text(t, "LOG2_10") { Some(NamedConst::Log2Of10) }
    else if same_text(t, "LOG2_E") { Some(NamedConst::Log2E) }
    else if same_text(t, "LOG10_2") { Some(NamedConst::Log10Of2) }
    else if same_text(t, "LOG10_E") { Some(NamedConst::Log10E) }
    else if same_text(t, "PI") { Some(NamedConst::Pi) }
    else if same_text(t, "SQRT_2") { Some(NamedConst::Sqrt2) }
    else if same_text(t, "TAU") { Some(NamedConst::Tau) }
    else { None }
}

/// Copies a run of characters.
pub(crate) fn copy_chars(t: &Vec<char>) -> (r: Vec<char>)
    ensures
        r@ == t@,
{
    let mut r: Vec<char> = Vec::new();
    let mut i: usize = 0;
    while i < t.len()
        invariant
            i <= t@.len(),
            r@ == t@.take(i as int),
        decreases t@.len() - i,
    {
        r.push(t[i]);
        i += 1;
        assert(r@ =~= t@.take(i as int));
    }
    assert(t@.take(i as int) =~= t@);
    r
}

/// Reads one parameter token, given as characters.
pub fn read_param(t: &Vec<char>) -> (r: Option<Param>)
    ensures
        match param_of(t@) {
            Some(m) => r.is_some() && r.unwrap()@ == m,
            None => r.is_none(),
        },
{
    if float_text(t) {
        return Some(Param::Number(copy_chars(t)));
    }
    if let Some(c) = const_exec(t) {
        return Some(Param::Constant(c, false));
    }
    if t.len() > 0 && t[0] == '-' {
        let mut rest: Vec<char> = Vec::new();
        let mut i: usize = 1;
        while i < t.len()
            invariant
                1 <= i <= t@.len(),
                rest@ == t@.subrange(1, i as int),
            decreases t@.len() - i,
        {
            rest.push(t[i]);
            i += 1;
            assert(rest@ =~= t@.subrange(1, i as int));
        }
        assert(rest@ =~= t@.drop_first());
        if let Some(c) = const_exec(&rest) {
            return Some(Param::Constant(c, true));
        }
    }
    None
}

/// Reads a parameter: a float literal (as `str::parse::<f32>` accepts it) or
/// one of the named constants `E`, `FRAC_1_PI`, `FRAC_1_SQRT_2`, `FRAC_2_PI`,
/// `FRAC_2_SQRT_PI`, `FRAC_PI_2`, `FRAC_PI_3`, `FRAC_PI_4`, `FRAC_PI_6`,
/// `FRAC_PI_8`, `LN_2`, `LN_10`, `LOG2_10`, `LOG2_E`, `LOG10_2`, `LOG10_E`,
/// `PI`, `SQRT_2`, `TAU`, each optionally with a leading `-`.
pub fn parse_with_constants(s: &str) -> (r: Result<Param, ParamError>)
    ensures
        match param_of(s@) {
            Some(m) => r.is_ok() && r.unwrap()@ == m,
            None => r == Err::<Param, ParamError>(ParamError::NotANumber),
        },
{
    let t = chars_of(s);
    match read_param(&t) {
        Some(p) => Ok(p),
        None => Err(ParamError::NotANumber),
    }
}

} // verus!
