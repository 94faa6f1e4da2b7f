//! The base-62 positional number system used for short codes.
//!
//! An identifier is rendered with the 62-symbol alphabet of lowercase
//! letters, uppercase letters and decimal digits, in that order, as its
//! digits, least-significant digit first.

use vstd::prelude::*;

verus! {

/// The ordered 62-symbol alphabet.  The symbol at index `d` is the digit
/// of value `d`.
pub open spec fn alphabet() -> Seq<char> {
    "abcdefghijklmnopqrstuvwxyzABCDEFGHIJKLMNOPQRSTUVWXYZ0123456789"@
}

/// The value of a symbol as a base-62 digit: its index in [`alphabet`],
/// or `-1` for a character outside the alphabet.
pub open spec fn sym_val(c: char) -> int {
    if 'a' as u32 <= c as u32 && c as u32 <= 'z' as u32 {
        c as u32 - 'a' as u32
    } else if 'A' as u32 <= c as u32 && c as u32 <= 'Z' as u32 {
        26 + (c as u32 - 'A' as u32)
    } else if '0' as u32 <= c as u32 && c as u32 <= '9' as u32 {
        52 + (c as u32 - '0' as u32)
    } else {
        -1
    }
}

/// The alphabet has 62 symbols, and [`sym_val`] is the exact inverse of
/// indexing into it: the symbol at index `d` has value `d`.
pub proof fn lemma_alphabet()
    ensures
        alphabet().len() == 62,
        forall|d: int| 0 <= d < 62 ==> sym_val(#[trigger] alphabet()[d]) == d,
{
    reveal_strlit("abcdefghijklmnopqrstuvwxyzABCDEFGHIJKLMNOPQRSTUVWXYZ0123456789");
}

/// The base-62 digits of `n`, least-significant digit first; empty for 0.
pub open spec fn digits_of(n: nat) -> Seq<int>
    decreases n,
{
    if n == 0 {
        Seq::empty()
    } else {
        seq![(n % 62) as int] + digits_of(n / 62)
    }
}

/// The numeric value of a least-significant-first digit sequence: digit
/// `i` has weight `62^i`.
pub open spec fn value_of(ds: Seq<int>) -> int
    decreases ds.len(),
{
    if ds.len() == 0 {
        0
    } else {
        ds[0] + 62 * value_of(ds.drop_first())
    }
}

/// The short code that renders identifier `n`: its base-62 digits, each
/// replaced by its alphabet symbol.
pub open spec fn code_of(n: nat) -> Seq<char> {
    digits_of(n).map_values(|d: int| alphabet()[d])
}

/// The digit values of a code's symbols, in code order.
pub open spec fn vals_of(code: Seq<char>) -> Seq<int> {
    code.map_values(|c: char| sym_val(c))
}

/// Whether a code is syntactically well-formed: nonempty, and every
/// symbol is a member of the alphabet.
pub open spec fn code_wf(code: Seq<char>) -> bool {
    &&& code.len() >= 1
    &&& forall|j: int| 0 <= j < code.len() ==> #[trigger] sym_val(code[j]) >= 0
}

/// The identifier a well-formed code denotes, reading its symbols as
/// base-62 digits, least significant first.
pub open spec fn code_value(code: Seq<char>) -> int {
    value_of(vals_of(code))
}

/// Every digit produced by [`digits_of`] is in `0..62`, and a positive
/// number has at least one digit.
pub proof fn lemma_digits_bounds(n: nat)
    ensures
        forall|j: int| 0 <= j < digits_of(n).len() ==> 0 <= #[trigger] digits_of(n)[j] < 62,
        n >= 1 ==> digits_of(n).len() >= 1,
    decreases n,
{
    if n != 0 {
        lemma_digits_bounds(n / 62);
        assert forall|j: int| 0 <= j < digits_of(n).len() implies 0 <= #[trigger] digits_of(n)[j]
            < 62 by {
            if j > 0 {
                assert(digits_of(n)[j] == digits_of(n / 62)[j - 1]);
            }
        }
    }
}

/// Rendering and reading back are inverse: the digit sequence of `n`
/// has value `n`.
pub proof fn lemma_digits_value(n: nat)
    ensures
        value_of(digits_of(n)) == n,
    decreases n,
{
    if n != 0 {
        lemma_digits_value(n / 62);
        assert(digits_of(n).drop_first() =~= digits_of(n / 62));
        assert(n == 62 * (n / 62) + n % 62) by {
            vstd::arithmetic::div_mod::lemma_fundamental_div_mod(n as int, 62);
        }
    }
}

/// The base-62 digit value of one character, or `None` for a character
/// outside the alphabet.
pub fn symbol_value(c: char) -> (r: Option<usize>)
    ensures
        match r {
            Option::Some(v) => v < 62 && sym_val(c) == v,
            Option::None => sym_val(c) == -1,
        },
{
    let u = c as u32;
    if 'a' as u32 <= u && u <= 'z' as u32 {
        Option::Some((u - 'a' as u32) as usize)
    } else if 'A' as u32 <= u && u <= 'Z' as u32 {
        Option::Some((26 + (u - 'A' as u32)) as usize)
    } else if '0' as u32 <= u && u <= '9' as u32 {
        Option::Some((52 + (u - '0' as u32)) as usize)
    } else {
        Option::None
    }
}

/// A digit sequence with no negative digit has a nonnegative value.
pub proof fn lemma_value_nonneg(ds: Seq<int>)
    requires
        forall|j: int| 0 <= j < ds.len() ==> #[trigger] ds[j] >= 0,
    ensures
        value_of(ds) >= 0,
    decreases ds.len(),
{
    if ds.len() != 0 {
        lemma_value_nonneg(ds.drop_first());
    }
}

/// Dropping low-order digits never increases the value: the whole
/// sequence is worth at least as much as any of its suffixes.
pub proof fn lemma_value_skip(ds: Seq<int>, i: int)
    requires
        0 <= i <= ds.len(),
        forall|j: int| 0 <= j < ds.len() ==> #[trigger] ds[j] >= 0,
    ensures
        value_of(ds) >= value_of(ds.skip(i)),
    decreases i,
{
    if i == 0 {
        assert(ds.skip(0) =~= ds);
    } else {
        lemma_value_skip(ds, i - 1);
        let tail = ds.skip(i - 1);
        assert(tail.drop_first() =~= ds.skip(i));
        lemma_value_nonneg(ds.skip(i));
        if tail.len() != 0 {
            assert(value_of(tail) == tail[0] + 62 * value_of(ds.skip(i)));
        } else {
            assert(ds.skip(i) =~= tail);
        }
    }
}

/// The code of a positive identifier is well-formed, denotes exactly
/// that identifier, and uses alphabet symbols only.
pub proof fn lemma_code_of(n: nat)
    requires
        n >= 1,
    ensures
        code_wf(code_of(n)),
        code_value(code_of(n)) == n,
        forall|j: int| 0 <= j < code_of(n).len() ==> alphabet().contains(#[trigger] code_of(n)[j]),
{
    lemma_alphabet();
    lemma_digits_bounds(n);
    lemma_digits_value(n);
    assert(vals_of(code_of(n)) =~= digits_of(n));
    assert forall|j: int| 0 <= j < code_of(n).len() implies alphabet().contains(
        #[trigger] code_of(n)[j],
    ) by {
        assert(code_of(n)[j] == alphabet()[digits_of(n)[j]]);
    }
}

/// Distinct identifiers have distinct codes.
pub proof fn lemma_code_of_injective(n1: nat, n2: nat)
    requires
        n1 >= 1,
        n2 >= 1,
        n1 != n2,
    ensures
        code_of(n1) != code_of(n2),
{
    lemma_code_of(n1);
    lemma_code_of(n2);
}

} // verus!
