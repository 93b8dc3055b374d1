//! Character classes of the rule grammar, and conversions between text and
//! sequences of characters.

use vstd::prelude::*;

verus! {

/// The three sets of characters that the rule grammar is built from.
#[derive(Clone, Copy, Debug, PartialEq, Eq, Structural)]
pub enum CharClass {
    /// What a selector name is made of: ASCII letters, digits and the hyphen.
    Name,
    /// The space character alone.
    Space,
    /// What may stand between the braces: a declaration character or a space.
    Content,
}

/// Whether `c` may stand in a selector name: an ASCII letter, a digit or a hyphen.
pub open spec fn is_name_char(c: char) -> bool {
    ('a' <= c && c <= 'z') || ('A' <= c && c <= 'Z') || ('0' <= c && c <= '9') || c == '-'
}

/// Whether `c` may stand in a declaration: a name character or one of `; : ! % .`
pub open spec fn is_decl_char(c: char) -> bool {
    is_name_char(c) || c == ';' || c == ':' || c == '!' || c == '%' || c == '.'
}

/// Membership of `c` in `class`.
pub open spec fn in_class(class: CharClass, c: char) -> bool {
    match class {
        CharClass::Name => is_name_char(c),
        CharClass::Space => c == ' ',
        CharClass::Content => c == ' ' || is_decl_char(c),
    }
}

/// Decides membership of `c` in `class`.
pub fn class_has(class: CharClass, c: char) -> (r: bool)
    ensures
        r == in_class(class, c),
{
    let name = (c >= 'a' && c <= 'z') || (c >= 'A' && c <= 'Z') || (c >= '0' && c <= '9') || c
        == '-';
    match class {
        CharClass::Name => name,
        CharClass::Space => c == ' ',
        CharClass::Content => c == ' ' || name || c == ';' || c == ':' || c == '!' || c == '%'
            || c == '.',
    }
}

/// `String::push` appends the given character to the end of the string.
pub assume_specification[ String::push ](s: &mut String, ch: char)
    ensures
        final(s)@ == old(s)@.push(ch),
;

/// The characters of `text`, in order.
pub fn chars_of(text: &str) -> (r: Vec<char>)
    ensures
        r@ == text@,
{
    let mut out: Vec<char> = Vec::new();
    let it = text.chars();
    for c in iter: it
        invariant
            out@ == iter.seq().take(iter.index@),
    {
        out.push(c);
    }
    out
}

/// The string made of the characters `chars[from..to]`.
pub fn string_of(chars: &Vec<char>, from: usize, to: usize) -> (r: String)
    requires
        from <= to <= chars@.len(),
    ensures
        r@ == chars@.subrange(from as int, to as int),
{
    let mut out = String::new();
    let mut i: usize = from;
    while i < to
        invariant
            from <= i <= to <= chars@.len(),
            out@ == chars@.subrange(from as int, i as int),
        decreases to - i,
    {
        out.push(chars[i]);
        i += 1;
        assert(out@ =~= chars@.subrange(from as int, i as int));
    }
    assert(out@ =~= chars@.subrange(from as int, to as int));
    out
}

} // verus!
