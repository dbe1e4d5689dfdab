//! The symbol alphabets: the 26 capital Latin letters, and the 24 that are
//! left without the two that read like the digits zero and one.

use vstd::prelude::*;
use crate::numeral::digit_value;
use crate::text::symbols_of;

verus! {

/// The capital Latin letters in their usual order.
pub open spec fn latin_alphabet() -> Seq<char> {
    "ABCDEFGHIJKLMNOPQRSTUVWXYZ"@
}

/// The capital Latin letters without `I` and `O`.
pub open spec fn readable_alphabet() -> Seq<char> {
    "ABCDEFGHJKLMNPQRSTUVWXYZ"@
}

/// The alphabet that a formatter is built with.
pub open spec fn alphabet_for(human_readable: bool) -> Seq<char> {
    if human_readable {
        readable_alphabet()
    } else {
        latin_alphabet()
    }
}

/// The two letters that are easily taken for the digits one and zero.
pub open spec fn is_ambiguous(symbol: char) -> bool {
    symbol == 'I' || symbol == 'O'
}

/// No symbol occurs twice in `alphabet`.
pub open spec fn distinct_symbols(alphabet: Seq<char>) -> bool {
    forall|i: int, j: int|
        0 <= i < alphabet.len() && 0 <= j < alphabet.len() && i != j ==> alphabet[i]
            != alphabet[j]
}

/// No symbol of `alphabet` is a digit of base `radix`.
pub open spec fn no_digit_symbols(alphabet: Seq<char>, radix: nat) -> bool {
    forall|i: int| 0 <= i < alphabet.len() ==> digit_value(#[trigger] alphabet[i]) >= radix
}

/// The readable alphabet is the Latin one without its ambiguous letters.
pub proof fn lemma_readable_alphabet_is_filtered()
    ensures
        readable_alphabet() == latin_alphabet().filter(|symbol: char| !is_ambiguous(symbol)),
{
    reveal_strlit("ABCDEFGHIJKLMNOPQRSTUVWXYZ");
    reveal_strlit("ABCDEFGHJKLMNPQRSTUVWXYZ");
    reveal_with_fuel(Seq::filter, 27);
    assert(readable_alphabet() =~= latin_alphabet().filter(
        |symbol: char| !is_ambiguous(symbol),
    ));
}

/// Both alphabets are strictly ascending runs of capital letters.
proof fn lemma_alphabet_ascending(human_readable: bool)
    ensures
        alphabet_for(human_readable).len() == if human_readable {
            24nat
        } else {
            26nat
        },
        forall|i: int|
            0 <= i < alphabet_for(human_readable).len() ==> 0x41 <= (#[trigger] alphabet_for(
                human_readable,
            )[i]) as nat <= 0x5a,
        forall|i: int, j: int|
            0 <= i < j < alphabet_for(human_readable).len() ==> (alphabet_for(
                human_readable,
            )[i] as nat) < (alphabet_for(human_readable)[j] as nat),
{
    reveal_strlit("ABCDEFGHIJKLMNOPQRSTUVWXYZ");
    reveal_strlit("ABCDEFGHJKLMNPQRSTUVWXYZ");
}

/// The size of each alphabet, and that its symbols are distinct and none of
/// them is a digit, whatever the radix.
pub proof fn lemma_alphabet_properties(human_readable: bool, radix: nat)
    requires
        radix <= 36,
    ensures
        latin_alphabet().len() == 26,
        readable_alphabet().len() == 24,
        distinct_symbols(alphabet_for(human_readable)),
        no_digit_symbols(alphabet_for(human_readable), radix),
{
    lemma_alphabet_ascending(true);
    lemma_alphabet_ascending(false);
    let alphabet = alphabet_for(human_readable);
    assert forall|i: int, j: int|
        0 <= i < alphabet.len() && 0 <= j < alphabet.len() && i != j implies alphabet[i]
        != alphabet[j] by {
        if i < j {
            assert((alphabet[i] as nat) < (alphabet[j] as nat));
        } else {
            assert((alphabet[j] as nat) < (alphabet[i] as nat));
        }
    }
}

/// The alphabet as a vector of symbols.
pub fn alphabet_symbols(human_readable: bool) -> (symbols: Vec<char>)
    ensures
        symbols@ == alphabet_for(human_readable),
{
    if human_readable {
        symbols_of("ABCDEFGHJKLMNPQRSTUVWXYZ")
    } else {
        symbols_of("ABCDEFGHIJKLMNOPQRSTUVWXYZ")
    }
}

} // verus!
