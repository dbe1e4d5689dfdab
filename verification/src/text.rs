//! Building the text of a code: the calls that produce characters, and what
//! is taken on trust about them.

use vstd::prelude::*;
use crate::numeral::{radix_digits, repeated};

verus! {

/// `String::push` appends the one character to the end of the string.
pub assume_specification[ String::push ](text: &mut String, symbol: char)
    ensures
        final(text)@ == old(text)@.push(symbol),
;

/// Renders `value` in base `base` with `radix_fmt::radix` and the `Display`
/// impl of what it returns. The contract states that the text is the
/// positional numeral of `value`: digits `0`-`9` then lower-case `a`-`z`,
/// most significant first, no leading zeros, `"0"` for zero. `radix_fmt`
/// panics on a base outside `2..=36`, which the precondition leaves out.
#[verifier::external_body]
pub(crate) fn radix_string(value: usize, base: u8) -> (text: String)
    requires
        2 <= base <= 36,
    ensures
        text@ == radix_digits(value as nat, base as nat),
{
    radix_fmt::radix(value, base).to_string()
}

/// Appends `count` copies of `symbol` to `text`.
pub(crate) fn push_repeated(text: &mut String, symbol: char, count: usize)
    ensures
        final(text)@ == old(text)@ + repeated(symbol, count as nat),
{
    let mut done: usize = 0;
    assert(text@ =~= old(text)@ + repeated(symbol, 0));
    while done < count
        invariant
            done <= count,
            text@ == old(text)@ + repeated(symbol, done as nat),
        decreases count - done,
    {
        text.push(symbol);
        done += 1;
        assert(text@ =~= old(text)@ + repeated(symbol, done as nat));
    }
}

/// The characters of `text`, one by one.
pub(crate) fn symbols_of(text: &str) -> (symbols: Vec<char>)
    ensures
        symbols@ == text@,
{
    let mut symbols: Vec<char> = Vec::new();
    for symbol in it: text.chars()
        invariant
            it.seq() == text@,
            symbols@ == it.seq().take(it.index()),
    {
        symbols.push(symbol);
        assert(it.seq().take(it.index() + 1) =~= it.seq().take(it.index()).push(symbol));
    }
    assert(text@.take(text@.len() as int) =~= text@);
    symbols
}

} // verus!
