//! Why padded digit runs sort by value: the laws that tie the order of sort
//! keys to the numbers written in the names.

use vstd::prelude::*;
use crate::key_order::{char_less, path_less, segment_less, text_less};
use crate::lex::{decides_at, first_difference};
use crate::sort_key::{
    all_stored, is_digit, lemma_last_run, pad, runs, sort_key, zeros, PAD_WIDTH,
};

verus! {

/// Every character of `d` is a decimal digit.
pub open spec fn all_digits(d: Seq<char>) -> bool {
    forall|i: int| 0 <= i < d.len() ==> is_digit(#[trigger] d[i])
}

/// The number that the digit `c` stands for.
pub open spec fn digit_value(c: char) -> nat {
    (c as nat - '0' as nat) as nat
}

/// The number that the decimal digits `d` write.
pub open spec fn digits_value(d: Seq<char>) -> nat
    decreases d.len(),
{
    if d.len() == 0 {
        0
    } else {
        10 * digits_value(d.drop_last()) + digit_value(d.last())
    }
}

/// A run of digits is its own single run.
pub proof fn lemma_runs_of_digits(d: Seq<char>)
    requires
        d.len() > 0,
        all_digits(d),
    ensures
        runs(d) == seq![d],
    decreases d.len(),
{
    if d.len() == 1 {
        assert(runs(d.drop_last()) =~= Seq::<Seq<char>>::empty());
        assert(d =~= seq![d.last()]);
        assert(runs(d) =~= seq![d]);
    } else {
        let init = d.drop_last();
        assert(all_digits(init)) by {
            assert forall|i: int| 0 <= i < init.len() implies is_digit(#[trigger] init[i]) by {
                assert(init[i] == d[i]);
            }
        }
        lemma_runs_of_digits(init);
        assert(is_digit(d[d.len() - 2]) && is_digit(d.last()));
        assert(init.push(d.last()) =~= d);
        assert(runs(d) =~= seq![d]);
    }
}

/// Where a digit meets a character that is no digit, the runs of the whole
/// are the runs of the two sides, one after the other.
pub proof fn lemma_runs_split(x: Seq<char>, y: Seq<char>)
    requires
        x.len() > 0 && y.len() > 0 ==> is_digit(x.last()) != is_digit(y[0]),
    ensures
        runs(x + y) == runs(x) + runs(y),
    decreases y.len(),
{
    if y.len() == 0 {
        assert(x + y =~= x);
        assert(runs(x) + runs(y) =~= runs(x));
    } else if x.len() == 0 {
        assert(x + y =~= y);
        assert(runs(x) + runs(y) =~= runs(y));
    } else {
        let whole = x + y;
        let init = y.drop_last();
        assert(whole.drop_last() =~= x + init);
        assert(whole.last() == y.last());
        lemma_runs_split(x, init);
        if init.len() == 0 {
            assert(x + init =~= x);
            assert(whole[whole.len() - 2] == x.last());
            assert(y[0] == y.last());
            assert(runs(y) =~= seq![seq![y.last()]]);
            assert(runs(whole) =~= runs(x) + runs(y));
        } else {
            assert(whole[whole.len() - 2] == y[y.len() - 2]);
            lemma_last_run(init);
            assert(runs(whole) =~= runs(x) + runs(y));
        }
    }
}

/// Zeros in front do not change the number that digits write.
pub proof fn lemma_leading_zeros(n: nat, d: Seq<char>)
    ensures
        digits_value(zeros(n) + d) == digits_value(d),
    decreases d.len(),
{
    if d.len() == 0 {
        assert(zeros(n) + d =~= zeros(n));
        lemma_zeros_value(n);
    } else {
        assert((zeros(n) + d).drop_last() =~= zeros(n) + d.drop_last());
        lemma_leading_zeros(n, d.drop_last());
    }
}

proof fn lemma_zeros_value(n: nat)
    ensures
        digits_value(zeros(n)) == 0,
    decreases n,
{
    if n > 0 {
        assert(zeros(n).drop_last() =~= zeros((n - 1) as nat));
        lemma_zeros_value((n - 1) as nat);
    }
}

/// Of two digit strings of one length that agree before position `k`, the
/// one with the greater digit at `k` writes the greater number.
proof fn lemma_greater_digit_greater_value(x: Seq<char>, y: Seq<char>, k: int)
    requires
        x.len() == y.len(),
        all_digits(x),
        all_digits(y),
        0 <= k < x.len(),
        forall|i: int| 0 <= i < k ==> x[i] == y[i],
        x[k] > y[k],
    ensures
        digits_value(x) > digits_value(y),
    decreases x.len(),
{
    let xi = x.drop_last();
    let yi = y.drop_last();
    assert(is_digit(x[x.len() - 1]) && is_digit(y[y.len() - 1]));
    if k == x.len() - 1 {
        assert(xi =~= yi);
    } else {
        assert(all_digits(xi)) by {
            assert forall|i: int| 0 <= i < xi.len() implies is_digit(#[trigger] xi[i]) by {
                assert(xi[i] == x[i]);
            }
        }
        assert(all_digits(yi)) by {
            assert forall|i: int| 0 <= i < yi.len() implies is_digit(#[trigger] yi[i]) by {
                assert(yi[i] == y[i]);
            }
        }
        lemma_greater_digit_greater_value(xi, yi, k);
    }
}

/// Digit strings of one length come in the order of the numbers they write.
pub proof fn lemma_equal_length_digits(x: Seq<char>, y: Seq<char>)
    requires
        x.len() == y.len(),
        all_digits(x),
        all_digits(y),
        digits_value(x) < digits_value(y),
    ensures
        text_less(x, y),
{
    let k = first_difference(x, y);
    if k == x.len() {
        assert(x =~= y);
    } else {
        if x[k] > y[k] {
            lemma_greater_digit_greater_value(x, y, k);
        }
        assert(decides_at(x, y, char_less(), k));
    }
}

/// Digit runs of at most `PAD_WIDTH` digits, once padded, come in the order
/// of the numbers they write.
pub proof fn lemma_padded_runs_by_value(a: Seq<char>, b: Seq<char>)
    requires
        all_digits(a),
        all_digits(b),
        a.len() <= PAD_WIDTH,
        b.len() <= PAD_WIDTH,
        digits_value(a) < digits_value(b),
    ensures
        text_less(pad(a), pad(b)),
{
    lemma_padding_keeps_digits(a);
    lemma_padding_keeps_digits(b);
    lemma_equal_length_digits(pad(a), pad(b));
}

proof fn lemma_padding_keeps_digits(a: Seq<char>)
    requires
        all_digits(a),
        a.len() <= PAD_WIDTH,
    ensures
        all_digits(pad(a)),
        pad(a).len() == PAD_WIDTH,
        digits_value(pad(a)) == digits_value(a),
{
    if a.len() < PAD_WIDTH {
        let n = (PAD_WIDTH - a.len()) as nat;
        lemma_leading_zeros(n, a);
        assert forall|i: int| 0 <= i < pad(a).len() implies is_digit(#[trigger] pad(a)[i]) by {
            if i >= n {
                assert(pad(a)[i] == a[i - n]);
            }
        }
    }
}

/// Two names that differ only in one digit run, which is at most
/// `PAD_WIDTH` digits long in both, sort in the order of the numbers that the
/// two runs write. The run may stand anywhere in the name, at its end too.
pub proof fn lemma_numeric_order(
    prefix: Seq<char>,
    a: Seq<char>,
    b: Seq<char>,
    suffix: Seq<char>,
)
    requires
        prefix.len() > 0 ==> !is_digit(prefix.last()),
        suffix.len() > 0 ==> !is_digit(suffix[0]),
        a.len() > 0,
        b.len() > 0,
        all_digits(a),
        all_digits(b),
        a.len() <= PAD_WIDTH,
        b.len() <= PAD_WIDTH,
        digits_value(a) < digits_value(b),
    ensures
        path_less(prefix + a + suffix, prefix + b + suffix),
{
    lemma_embedded_run_key(prefix, a, suffix);
    lemma_embedded_run_key(prefix, b, suffix);
    lemma_padded_runs_by_value(a, b);
    let head = sort_key(prefix);
    let key_a = sort_key(prefix + a + suffix);
    let key_b = sort_key(prefix + b + suffix);
    assert(decides_at(key_a, key_b, segment_less(), head.len() as int));
}

/// The key of two texts, where a digit of one does not meet a digit of the
/// other, is the key of the first and then the key of the second.
pub proof fn lemma_key_split(x: Seq<char>, y: Seq<char>)
    requires
        x.len() > 0 && y.len() > 0 ==> is_digit(x.last()) != is_digit(y[0]),
    ensures
        sort_key(x + y) == sort_key(x) + sort_key(y),
{
    lemma_runs_split(x, y);
    assert(all_stored(runs(x) + runs(y)) =~= all_stored(runs(x)) + all_stored(runs(y)));
}

/// The key of a name with a digit run in it: the key of what stands before
/// the run, the padded run, and the key of what follows.
pub proof fn lemma_embedded_run_key(prefix: Seq<char>, d: Seq<char>, suffix: Seq<char>)
    requires
        prefix.len() > 0 ==> !is_digit(prefix.last()),
        suffix.len() > 0 ==> !is_digit(suffix[0]),
        d.len() > 0,
        all_digits(d),
    ensures
        sort_key(prefix + d + suffix) == sort_key(prefix) + seq![pad(d)] + sort_key(suffix),
{
    assert(is_digit(d[0]) && is_digit(d.last()));
    lemma_runs_of_digits(d);
    assert(sort_key(d) =~= seq![pad(d)]);
    lemma_key_split(prefix, d);
    assert((prefix + d).last() == d.last());
    lemma_key_split(prefix + d, suffix);
}

} // verus!
