//! Decimal rendering of unsigned values, shared by the list containers.

use vstd::prelude::*;

verus! {

/// The decimal digit character for a value below ten.
pub open spec fn dec_digit(d: nat) -> char {
    if d == 0 {
        '0'
    } else if d == 1 {
        '1'
    } else if d == 2 {
        '2'
    } else if d == 3 {
        '3'
    } else if d == 4 {
        '4'
    } else if d == 5 {
        '5'
    } else if d == 6 {
        '6'
    } else if d == 7 {
        '7'
    } else if d == 8 {
        '8'
    } else {
        '9'
    }
}

/// The decimal digits of `n`, most significant first, with no sign and
/// no padding.
pub open spec fn spec_decimal(n: nat) -> Seq<char>
    decreases n,
{
    if n < 10 {
        seq![dec_digit(n)]
    } else {
        spec_decimal((n / 10) as nat).push(dec_digit((n % 10) as nat))
    }
}

/// One line per value: its decimal digits followed by a newline.
pub open spec fn spec_lines(s: Seq<u64>) -> Seq<char>
    decreases s.len(),
{
    if s.len() == 0 {
        Seq::empty()
    } else {
        spec_decimal(s[0] as nat) + seq!['\n'] + spec_lines(s.drop_first())
    }
}

/// Appending one value extends the rendering by that value's line.
pub proof fn lemma_spec_lines_snoc(s: Seq<u64>, k: int)
    requires
        0 <= k < s.len(),
    ensures
        spec_lines(s.take(k + 1)) == spec_lines(s.take(k)) + spec_decimal(s[k] as nat) + seq![
            '\n',
        ],
    decreases k,
{
    let a = s.take(k + 1);
    let b = s.take(k);
    if k == 0 {
        assert(a =~= seq![s[0]]);
        assert(b =~= Seq::empty());
        assert(a.drop_first() =~= Seq::<u64>::empty());
        assert(spec_lines(a) =~= spec_lines(b) + spec_decimal(s[0] as nat) + seq!['\n']);
    } else {
        lemma_spec_lines_snoc(s.drop_first(), k - 1);
        assert(a.drop_first() =~= s.drop_first().take(k));
        assert(b.drop_first() =~= s.drop_first().take(k - 1));
        assert(s.drop_first()[k - 1] == s[k]);
        assert(spec_lines(a) == spec_decimal(a[0] as nat) + seq!['\n'] + spec_lines(
            a.drop_first(),
        ));
        assert(spec_lines(b) == spec_decimal(b[0] as nat) + seq!['\n'] + spec_lines(
            b.drop_first(),
        ));
        assert(spec_lines(a) =~= spec_lines(b) + spec_decimal(s[k] as nat) + seq!['\n']);
    }
}

/// Relies on u64's Display implementation: the decimal digits of the
/// value, most significant first, with no sign and no padding.
#[verifier::external_body]
pub(crate) fn decimal_string(x: u64) -> (s: String)
    ensures
        s@ == spec_decimal(x as nat),
{
    x.to_string()
}

} // verus!
