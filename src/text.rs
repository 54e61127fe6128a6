use vstd::prelude::*;

verus! {

/// Collects the characters of a string slice.
pub fn chars_of(s: &str) -> (r: Vec<char>)
    ensures
        r@ == s@,
{
    let n = s.unicode_len();
    let mut r: Vec<char> = Vec::new();
    let mut i: usize = 0;
    while i < n
        invariant
            n == s@.len(),
            i <= n,
            r@ == s@.take(i as int),
        decreases n - i,
    {
        let c = s.get_char(i);
        r.push(c);
        i += 1;
        assert(r@ =~= s@.take(i as int));
    }
    assert(r@ =~= s@);
    r
}

/// Whether the characters `t` spell exactly the literal `lit`.
pub fn same_text(t: &Vec<char>, lit: &str) -> (r: bool)
    ensures
        r == (t@ == lit@),
{
    let n = lit.unicode_len();
    if t.len() != n {
        return false;
    }
    let mut i: usize = 0;
    while i < n
        invariant
            n == lit@.len(),
            n == t@.len(),
            i <= n,
            t@.take(i as int) == lit@.take(i as int),
        decreases n - i,
    {
        if t[i] != lit.get_char(i) {
            assert(t@[i as int] != lit@[i as int]);
            return false;
        }
        i += 1;
        assert(t@.take(i as int) =~= lit@.take(i as int)) by {
            assert(t@.take(i as int) =~= t@.take(i - 1 as int).push(t@[i - 1 as int]));
            assert(lit@.take(i as int) =~= lit@.take(i - 1 as int).push(lit@[i - 1 as int]));
        }
    }
    assert(t@ =~= t@.take(n as int));
    assert(lit@ =~= lit@.take(n as int));
    true
}

} // verus!
