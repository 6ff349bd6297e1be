use vstd::prelude::*;

verus! {

/// A JSON numeric literal in exact decimal form.
///
/// The literal `-123.45` is held as `negative == true`, `mantissa == 12345`,
/// `scale == 2`: the denoted value is `(-1)^negative * mantissa / 10^scale`.
/// Every literal the tokenizer accepts (digits with at most one decimal
/// point) is held exactly; a literal whose digits exceed the mantissa's
/// range is rejected by the tokenizer rather than rounded.
#[derive(Clone, Copy, PartialEq, Eq, Structural, Debug)]
pub struct Number {
    pub negative: bool,
    pub mantissa: u64,
    pub scale: usize,
}

/// An ASCII decimal digit.
pub open spec fn is_digit(c: char) -> bool {
    48 <= c as u32 && c as u32 <= 57
}

/// The numeric value of one ASCII decimal digit.
pub open spec fn digit_val(c: char) -> nat {
    (c as u32 - 48) as nat
}

/// The value of a sequence of decimal digits, most significant first.
pub open spec fn digits_val(ds: Seq<char>) -> nat
    decreases ds.len(),
{
    if ds.len() == 0 {
        0
    } else {
        digits_val(ds.drop_last()) * 10 + digit_val(ds.last())
    }
}

/// The digits of a numeric run (the run's characters with the decimal
/// point, if any, removed).
pub open spec fn run_digits(rs: Seq<char>) -> Seq<char>
    decreases rs.len(),
{
    if rs.len() == 0 {
        Seq::empty()
    } else if rs.last() == '.' {
        run_digits(rs.drop_last())
    } else {
        run_digits(rs.drop_last()).push(rs.last())
    }
}

/// Whether a numeric run contains a decimal point.
pub open spec fn run_has_dot(rs: Seq<char>) -> bool
    decreases rs.len(),
{
    if rs.len() == 0 {
        false
    } else {
        rs.last() == '.' || run_has_dot(rs.drop_last())
    }
}

/// The number of digits after the decimal point of a numeric run
/// (zero when there is no decimal point).
pub open spec fn run_scale(rs: Seq<char>) -> nat
    decreases rs.len(),
{
    if rs.len() == 0 {
        0
    } else if rs.last() == '.' {
        0
    } else if run_has_dot(rs.drop_last()) {
        run_scale(rs.drop_last()) + 1
    } else {
        0
    }
}

/// The number denoted by a scanned numeric run, or `None` when the run
/// holds no digit at all or its digits overflow the mantissa.
pub open spec fn number_of_run(negative: bool, rs: Seq<char>) -> Option<Number> {
    if run_digits(rs).len() == 0 || digits_val(run_digits(rs)) > u64::MAX
        || run_scale(rs) > usize::MAX {
        None
    } else {
        Some(
            Number {
                negative,
                mantissa: digits_val(run_digits(rs)) as u64,
                scale: run_scale(rs) as usize,
            },
        )
    }
}

/// Appending a digit multiplies the value by ten and adds the digit, so
/// the value of a digit sequence never drops when the sequence grows.
pub proof fn lemma_digits_val_push_ge(ds: Seq<char>, c: char)
    ensures
        digits_val(ds.push(c)) == digits_val(ds) * 10 + digit_val(c),
        digits_val(ds.push(c)) >= digits_val(ds),
{
    assert(ds.push(c).drop_last() =~= ds);
    assert(ds.push(c).last() == c);
}

} // verus!
