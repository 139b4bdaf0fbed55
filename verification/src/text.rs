use vstd::prelude::*;

verus! {

/// Bytes as characters, each byte the character with its code.
pub open spec fn as_chars(b: Seq<u8>) -> Seq<char> {
    b.map_values(|x: u8| x as char)
}

/// `String::push` of std appends one character to the string: the string afterwards is
/// the string before with `c` at its end.
pub assume_specification[ String::push ](s: &mut String, c: char)
    ensures
        final(s)@ == old(s)@.push(c),
;

/// The string whose characters have the given bytes as their codes.
pub(crate) fn string_of(bytes: &Vec<u8>) -> (s: String)
    ensures
        s@ == as_chars(bytes@),
{
    let mut s = String::new();
    let mut i: usize = 0;
    while i < bytes.len()
        invariant
            i <= bytes.len(),
            s@ == as_chars(bytes@.take(i as int)),
        decreases bytes.len() - i,
    {
        s.push(bytes[i] as char);
        proof {
            assert(as_chars(bytes@.take(i + 1)) =~= as_chars(bytes@.take(i as int)).push(
                bytes@[i as int] as char,
            ));
        }
        i += 1;
    }
    assert(bytes@.take(bytes.len() as int) =~= bytes@);
    s
}

} // verus!
