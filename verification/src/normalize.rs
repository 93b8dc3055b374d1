//! Removal of the backslash in front of an escaped colon.

use vstd::prelude::*;

verus! {

/// Whether an escaped colon, a backslash directly followed by a colon, starts
/// at the front of `s`.
pub open spec fn starts_escaped_colon(s: Seq<char>) -> bool {
    s.len() >= 2 && s[0] == '\\' && s[1] == ':'
}

/// `s` with every escaped colon replaced by a plain colon, reading from the left.
pub open spec fn normalized(s: Seq<char>) -> Seq<char>
    decreases s.len(),
{
    if s.len() == 0 {
        Seq::empty()
    } else if starts_escaped_colon(s) {
        seq![':'] + normalized(s.skip(2))
    } else {
        seq![s[0]] + normalized(s.skip(1))
    }
}

/// Replaces every escaped colon in `text` by a plain colon.
pub fn normalize(text: &Vec<char>) -> (r: Vec<char>)
    ensures
        r@ == normalized(text@),
{
    let n = text.len();
    let mut out: Vec<char> = Vec::new();
    let mut i: usize = 0;
    assert(text@.skip(0) =~= text@);
    assert(out@ + normalized(text@) =~= normalized(text@));
    while i < n
        invariant
            n == text@.len(),
            i <= n,
            normalized(text@) == out@ + normalized(text@.skip(i as int)),
        decreases n - i,
    {
        let ghost rest = text@.skip(i as int);
        let ghost before = out@;
        if text[i] == '\\' && i + 1 < n && text[i + 1] == ':' {
            out.push(':');
            i += 2;
            assert(rest.skip(2) =~= text@.skip(i as int));
        } else {
            out.push(text[i]);
            i += 1;
            assert(rest.skip(1) =~= text@.skip(i as int));
        }
        assert(out@ + normalized(text@.skip(i as int)) =~= before + normalized(rest));
    }
    assert(text@.skip(n as int).len() == 0);
    assert(out@ + Seq::<char>::empty() =~= out@);
    out
}

} // verus!
