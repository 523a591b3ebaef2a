//! The built-in alphabet and the character classes it is made of.

use vstd::prelude::*;

verus! {

/// Lowercase letters, uppercase letters and digits, in that order.
pub const ALPHANUMERIC: &'static str = "abcdefghijklmnopqrstuvwxyzABCDEFGHIJKLMNOPQRSTUVWXYZ0123456789";

/// The symbols that the default alphabet gains when special characters are on.
pub const SPECIAL_CHARS: &'static str = "!#$%&()*+,-./:;<=>?@[]^_{|}~";

/// An ASCII letter of either case or an ASCII digit.
pub open spec fn is_alphanumeric(c: char) -> bool {
    ||| ('a' as u32 <= c as u32 && c as u32 <= 'z' as u32)
    ||| ('A' as u32 <= c as u32 && c as u32 <= 'Z' as u32)
    ||| ('0' as u32 <= c as u32 && c as u32 <= '9' as u32)
}

/// One of the fixed symbols.
pub open spec fn is_special(c: char) -> bool {
    SPECIAL_CHARS@.contains(c)
}

/// The characters a default-alphabet password may hold.
pub open spec fn in_default_set(c: char, with_special_chars: bool) -> bool {
    is_alphanumeric(c) || (with_special_chars && is_special(c))
}

/// The default alphabet: letters and digits, followed by the symbols when
/// `with_special_chars` holds.
pub open spec fn default_alphabet_of(with_special_chars: bool) -> Seq<char> {
    if with_special_chars {
        ALPHANUMERIC@ + SPECIAL_CHARS@
    } else {
        ALPHANUMERIC@
    }
}

/// Builds the default alphabet as a string.
pub fn default_alphabet(with_special_chars: bool) -> (r: String)
    ensures
        r@ == default_alphabet_of(with_special_chars),
{
    let mut chars = String::from_str(ALPHANUMERIC);
    if with_special_chars {
        chars.append(SPECIAL_CHARS);
    }
    chars
}

/// Every character of the default alphabet is a letter or a digit, or one of
/// the symbols when they are asked for; a symbol is never a letter or a digit.
pub proof fn lemma_default_alphabet_members(with_special_chars: bool)
    ensures
        ALPHANUMERIC@.len() == 62,
        default_alphabet_of(with_special_chars).len() > 0,
        forall|c: char| #[trigger] is_special(c) ==> !is_alphanumeric(c),
        forall|c: char|
            #[trigger] default_alphabet_of(with_special_chars).contains(c) ==> in_default_set(
                c,
                with_special_chars,
            ),
{
    reveal_strlit("abcdefghijklmnopqrstuvwxyzABCDEFGHIJKLMNOPQRSTUVWXYZ0123456789");
    reveal_strlit("!#$%&()*+,-./:;<=>?@[]^_{|}~");
    let alnum = ALPHANUMERIC@;
    let special = SPECIAL_CHARS@;
    assert forall|i: int| 0 <= i < alnum.len() implies is_alphanumeric(#[trigger] alnum[i]) by {}
    assert forall|i: int| 0 <= i < special.len() implies !is_alphanumeric(#[trigger] special[i]) by {}
    let all = default_alphabet_of(with_special_chars);
    assert forall|c: char| #[trigger] all.contains(c) implies in_default_set(c, with_special_chars) by {
        let i = choose|i: int| 0 <= i < all.len() && all[i] == c;
        if i < alnum.len() {
            assert(all[i] == alnum[i]);
        } else {
            assert(all[i] == special[i - alnum.len()]);
        }
    }
}

} // verus!
