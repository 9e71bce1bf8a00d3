use vstd::prelude::*;
use vstd::string::StrSliceExecFns;
use vstd::string::StringExecFns;

verus! {

/// The byte offset of character position `i` in a text: the UTF-8 length of
/// everything before it. Diagnostics report byte offsets into the source.
pub open spec fn byte_off(s: Seq<char>, i: int) -> usize {
    vstd::utf8::encode_utf8(s.take(i)).len() as usize
}

/// The byte offset of character position `i` of `s`.
pub fn byte_pos(s: &str, i: usize) -> (r: usize)
    requires
        i <= s@.len(),
    ensures
        r == byte_off(s@, i as int),
{
    let pre = s.substring_char(0, i);
    proof {
        assert(s@.take(i as int) =~= s@.subrange(0, i as int));
    }
    pre.len()
}

/// Relies on String::push: appends exactly the given character.
#[verifier::external_body]
pub(crate) fn push_char(s: &mut String, c: char)
    ensures
        final(s)@ == old(s)@ + seq![c],
{
    s.push(c);
}

/// An owned copy of a message text.
pub fn owned_msg(text: &str) -> (r: String)
    ensures
        r@ == text@,
{
    text.to_owned()
}

/// A message of the shape `prefix c suffix`.
pub fn char_msg(prefix: &str, c: char, suffix: &str) -> (r: String)
    ensures
        r@ == prefix@ + seq![c] + suffix@,
{
    let mut m = prefix.to_owned();
    push_char(&mut m, c);
    m.append(suffix);
    m
}

} // verus!
