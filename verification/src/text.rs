//! Text building blocks: characters, display width, padding and rules.

use unicode_width::UnicodeWidthStr;
use vstd::prelude::*;

verus! {

/// The number of terminal columns that a text occupies.
pub uninterp spec fn display_columns(s: Seq<char>) -> nat;

/// Calls `UnicodeWidthStr::width` of the crate `unicode-width`. The contract
/// only gives the result its name: the width is a function of the text alone.
#[verifier::external_body]
pub(crate) fn display_width(s: &str) -> (w: usize)
    ensures
        w == display_columns(s@),
{
    s.width()
}

/// Calls `String::push`, which appends one character to the end of the text.
#[verifier::external_body]
pub(crate) fn push_char(s: &mut String, c: char)
    ensures
        final(s)@ == old(s)@.push(c),
{
    s.push(c)
}

/// The characters of a text, in order.
pub fn chars_of(s: &str) -> (v: Vec<char>)
    ensures
        v@ == s@,
{
    let mut v: Vec<char> = Vec::new();
    for c in it: s.chars()
        invariant
            v@ == it.seq().take(it.index()),
    {
        v.push(c);
    }
    v
}

/// Whether two texts hold the same characters.
pub fn same_text(a: &str, b: &str) -> (r: bool)
    ensures
        r == (a@ == b@),
{
    let x: Vec<char> = chars_of(a);
    let y: Vec<char> = chars_of(b);
    if x.len() != y.len() {
        return false;
    }
    let mut i: usize = 0;
    while i < x.len()
        invariant
            x@ == a@,
            y@ == b@,
            x.len() == y.len(),
            i <= x.len(),
            forall|k: int| 0 <= k < i ==> x@[k] == y@[k],
        decreases x.len() - i,
    {
        if x[i] != y[i] {
            return false;
        }
        i += 1;
    }
    assert(a@ =~= b@);
    true
}

/// `n` copies of one character.
pub open spec fn repeated(c: char, n: nat) -> Seq<char> {
    Seq::new(n, |i: int| c)
}

/// A run of `width` copies of `c`, as used for the rule under a heading.
pub fn repeat_char(c: char, width: usize) -> (r: String)
    ensures
        r@ == repeated(c, width as nat),
{
    let mut r: String = String::new();
    let mut i: usize = 0;
    while i < width
        invariant
            i <= width,
            r@ == repeated(c, i as nat),
        decreases width - i,
    {
        push_char(&mut r, c);
        assert(r@ =~= repeated(c, (i + 1) as nat));
        i += 1;
    }
    r
}

/// A text moved to the right edge of a field of `width` characters. A text
/// that is already as long as the field, or longer, is left as it is.
pub open spec fn padded_left(s: Seq<char>, width: nat) -> Seq<char> {
    if s.len() < width {
        repeated(' ', (width - s.len()) as nat) + s
    } else {
        s
    }
}

/// Right-aligns `s` in a field of `width` characters, filling with spaces.
pub fn pad_left(s: &str, width: usize) -> (r: String)
    ensures
        r@ == padded_left(s@, width as nat),
{
    let len: usize = s.unicode_len();
    if len < width {
        let mut r: String = repeat_char(' ', width - len);
        r.append(s);
        r
    } else {
        String::from_str(s)
    }
}

} // verus!
