//! Names of table files: `L<level>-<20-digit stamp>.sst`.
//!
//! The stamp is zero-padded to twenty digits so that, within a level, the
//! order of the names is the order of the stamps.

use crate::types::{bytes_cmp, bytes_lt, lemma_cmp_equal};
use vstd::prelude::*;

verus! {

/// The ASCII digit for `d < 10`.
pub open spec fn digit(d: nat) -> u8 {
    (48 + d) as u8
}

/// `b` is an ASCII digit.
pub open spec fn is_digit(b: u8) -> bool {
    48 <= b <= 57
}

/// The decimal digits of `n`, without leading zeros.
pub open spec fn decimal(n: nat) -> Seq<u8>
    decreases n,
{
    if n < 10 {
        seq![digit(n)]
    } else {
        decimal(n / 10).push(digit(n % 10))
    }
}

/// The last `width` decimal digits of `n`, padded with zeros.
pub open spec fn padded_decimal(n: nat, width: nat) -> Seq<u8>
    decreases width,
{
    if width == 0 {
        Seq::empty()
    } else {
        padded_decimal(n / 10, (width - 1) as nat).push(digit(n % 10))
    }
}

/// The extension of table files.
pub open spec fn table_suffix() -> Seq<u8> {
    seq![46u8, 115u8, 115u8, 116u8]
}

/// The name of the table file of `level` made at `stamp`.
pub open spec fn table_name(level: nat, stamp: nat) -> Seq<u8> {
    seq![76u8] + decimal(level) + seq![45u8] + padded_decimal(stamp, 20) + table_suffix()
}

/// The value of a run of decimal digits.
pub open spec fn digits_value(s: Seq<u8>) -> nat
    decreases s.len(),
{
    if s.len() == 0 {
        0
    } else {
        digits_value(s.drop_last()) * 10 + (s.last() - 48) as nat
    }
}

/// In the name `s`, the level digits run from position 1 up to the dash at
/// `j`, which comes before the extension.
pub open spec fn level_field_ends_at(s: Seq<u8>, j: int) -> bool {
    &&& 1 < j < s.len() - 4
    &&& s[j] == 45
    &&& forall|k: int| 1 <= k < j ==> is_digit(#[trigger] s[k])
}

/// `s` has the shape `L<digits>-<anything>.sst`.
pub open spec fn is_table_file_name(s: Seq<u8>) -> bool {
    &&& s.len() > 4
    &&& s[0] == 76
    &&& s.subrange(s.len() - 4, s.len() as int) == table_suffix()
    &&& exists|j: int| level_field_ends_at(s, j)
}

/// The level that a table file name gives.
pub open spec fn name_level(s: Seq<u8>) -> nat {
    digits_value(s.subrange(1, choose|j: int| level_field_ends_at(s, j)))
}

fn push_decimal(out: &mut Vec<u8>, n: u64)
    ensures
        final(out)@ == old(out)@ + decimal(n as nat),
    decreases n,
{
    if n >= 10 {
        push_decimal(out, n / 10);
    }
    out.push((48 + n % 10) as u8);
    assert(final(out)@ =~= old(out)@ + decimal(n as nat));
}

fn push_padded_decimal(out: &mut Vec<u8>, n: u64, width: usize)
    ensures
        final(out)@ == old(out)@ + padded_decimal(n as nat, width as nat),
    decreases width,
{
    if width > 0 {
        push_padded_decimal(out, n / 10, width - 1);
        out.push((48 + n % 10) as u8);
    }
    assert(final(out)@ =~= old(out)@ + padded_decimal(n as nat, width as nat));
}

/// The name, as UTF-8 bytes, of the table file of `level` made at `stamp`.
pub fn table_file_name(level: u64, stamp: u64) -> (r: Vec<u8>)
    ensures
        r@ == table_name(level as nat, stamp as nat),
{
    let mut out: Vec<u8> = Vec::new();
    out.push(76u8);
    push_decimal(&mut out, level);
    out.push(45u8);
    push_padded_decimal(&mut out, stamp, 20);
    out.push(46u8);
    out.push(115u8);
    out.push(115u8);
    out.push(116u8);
    assert(out@ =~= table_name(level as nat, stamp as nat));
    out
}

/// The level of the table file called `name`; nothing for a name of another
/// shape, or whose level does not fit in a `usize`.
pub fn level_of_file_name(name: &[u8]) -> (r: Option<usize>)
    ensures
        r == (if is_table_file_name(name@) && name_level(name@) <= usize::MAX {
            Some(name_level(name@) as usize)
        } else {
            None::<usize>
        }),
{
    let ghost s = name@;
    let n = name.len();
    if n <= 4 || name[0] != 76u8 || name[n - 4] != 46u8 || name[n - 3] != 115u8 || name[n - 2]
        != 115u8 || name[n - 1] != 116u8 {
        proof {
            if n > 4 && s.subrange(n - 4, n as int) == table_suffix() {
                assert(s.subrange(n - 4, n as int)[0] == s[n - 4]);
                assert(s.subrange(n - 4, n as int)[1] == s[n - 3]);
                assert(s.subrange(n - 4, n as int)[2] == s[n - 2]);
                assert(s.subrange(n - 4, n as int)[3] == s[n - 1]);
            }
        }
        return None;
    }
    assert(s.subrange(n - 4, n as int) =~= table_suffix());
    let mut j: usize = 1;
    let mut value: usize = 0;
    let mut overflow = false;
    while j < n && 48u8 <= name[j] && name[j] <= 57u8
        invariant
            s == name@,
            n == s.len(),
            1 <= j <= n,
            forall|k: int| 1 <= k < j ==> is_digit(#[trigger] s[k]),
            overflow ==> digits_value(s.subrange(1, j as int)) > usize::MAX,
            !overflow ==> value == digits_value(s.subrange(1, j as int)),
        decreases n - j,
    {
        let d = (name[j] - 48u8) as usize;
        assert(s.subrange(1, j + 1).drop_last() =~= s.subrange(1, j as int));
        if !overflow {
            if value > (usize::MAX - d) / 10 {
                overflow = true;
                assert(value * 10 + d > usize::MAX) by (nonlinear_arith)
                    requires
                        value > (usize::MAX - d) / 10,
                        d <= 9,
                ;
            } else {
                assert(value * 10 + d <= usize::MAX) by (nonlinear_arith)
                    requires
                        value <= (usize::MAX - d) / 10,
                        d <= 9,
                ;
                value = value * 10 + d;
            }
        } else {
            let ghost prev = digits_value(s.subrange(1, j as int));
            assert(prev * 10 + d >= prev) by (nonlinear_arith);
        }
        j = j + 1;
    }
    proof {
        assert forall|j2: int| level_field_ends_at(s, j2) implies j2 == j by {
            if j2 < j {
                assert(is_digit(s[j2]));
            } else if j2 > j {
                assert(is_digit(s[j as int]));
            }
        }
    }
    if j == 1 || j >= n - 4 || name[j] != 45u8 {
        proof {
            if is_table_file_name(s) {
                let j2 = choose|j2: int| level_field_ends_at(s, j2);
                assert(j2 == j);
            }
        }
        return None;
    }
    assert(level_field_ends_at(s, j as int));
    if overflow {
        None
    } else {
        Some(value)
    }
}

/// `10` to the power `w`.
pub open spec fn pow10(w: nat) -> nat
    decreases w,
{
    if w == 0 {
        1
    } else {
        10 * pow10((w - 1) as nat)
    }
}

/// A padded number has exactly its width in digits.
proof fn lemma_padded_len(n: nat, w: nat)
    ensures
        padded_decimal(n, w).len() == w,
    decreases w,
{
    if w > 0 {
        lemma_padded_len(n / 10, (w - 1) as nat);
    }
}

/// Past two prefixes of one length, the first difference decides the order.
proof fn lemma_cmp_append(x: Seq<u8>, y: Seq<u8>, p: Seq<u8>, q: Seq<u8>)
    requires
        x.len() == y.len(),
    ensures
        bytes_cmp(x + p, y + q) == if x == y {
            bytes_cmp(p, q)
        } else {
            bytes_cmp(x, y)
        },
    decreases x.len(),
{
    if x.len() == 0 {
        assert(x + p =~= p);
        assert(y + q =~= q);
        assert(x =~= y);
    } else {
        assert((x + p).drop_first() =~= x.drop_first() + p);
        assert((y + q).drop_first() =~= y.drop_first() + q);
        assert((x + p)[0] == x[0]);
        assert((y + q)[0] == y[0]);
        lemma_cmp_append(x.drop_first(), y.drop_first(), p, q);
        if x[0] == y[0] && x.drop_first() == y.drop_first() {
            assert(x =~= seq![x[0]] + x.drop_first());
            assert(y =~= seq![y[0]] + y.drop_first());
        }
        if x == y {
            assert(x.drop_first() =~= y.drop_first());
        }
    }
}

/// Below `10^w`, padded numbers sort as the numbers do.
proof fn lemma_padded_order(a: nat, b: nat, w: nat)
    requires
        a < b,
        b < pow10(w),
    ensures
        bytes_lt(padded_decimal(a, w), padded_decimal(b, w)),
    decreases w,
{
    if w > 0 {
        let w1 = (w - 1) as nat;
        let pa = padded_decimal(a / 10, w1);
        let pb = padded_decimal(b / 10, w1);
        lemma_padded_len(a / 10, w1);
        lemma_padded_len(b / 10, w1);
        assert(a / 10 <= b / 10) by (nonlinear_arith)
            requires
                a < b,
        ;
        let da = digit(a % 10);
        let db = digit(b % 10);
        assert(padded_decimal(a, w) =~= pa + seq![da]);
        assert(padded_decimal(b, w) =~= pb + seq![db]);
        lemma_cmp_append(pa, pb, seq![da], seq![db]);
        if a / 10 < b / 10 {
            assert(b / 10 < pow10(w1)) by (nonlinear_arith)
                requires
                    b < 10 * pow10(w1),
            ;
            lemma_padded_order(a / 10, b / 10, w1);
            lemma_cmp_equal(pa, pb);
        } else {
            assert(a % 10 < b % 10) by (nonlinear_arith)
                requires
                    a < b,
                    a / 10 == b / 10,
            ;
            assert(seq![da].drop_first() =~= Seq::<u8>::empty());
            assert(seq![db].drop_first() =~= Seq::<u8>::empty());
        }
    }
}

/// Within a level, table names sort in the order of their stamps, so the
/// order of names is the order of creation.
pub proof fn lemma_table_name_order(level: nat, earlier: u64, later: u64)
    requires
        earlier < later,
    ensures
        bytes_lt(table_name(level, earlier as nat), table_name(level, later as nat)),
{
    let head = seq![76u8] + decimal(level) + seq![45u8];
    let pa = padded_decimal(earlier as nat, 20);
    let pb = padded_decimal(later as nat, 20);
    reveal_with_fuel(pow10, 21);
    assert(pow10(20) == 100000000000000000000nat);
    lemma_padded_order(earlier as nat, later as nat, 20);
    lemma_padded_len(earlier as nat, 20);
    lemma_padded_len(later as nat, 20);
    assert(table_name(level, earlier as nat) =~= head + (pa + table_suffix()));
    assert(table_name(level, later as nat) =~= head + (pb + table_suffix()));
    lemma_cmp_append(head, head, pa + table_suffix(), pb + table_suffix());
    lemma_cmp_append(pa, pb, table_suffix(), table_suffix());
    lemma_cmp_equal(pa, pb);
}

/// The stamp to try after a table file named with `failed` already existed:
/// the clock's `now` when it has moved past `failed`, else the next stamp;
/// nothing when no later stamp exists.
pub fn retry_stamp(failed: u64, now: u64) -> (r: Option<u64>)
    ensures
        r == (if now > failed {
            Some(now)
        } else if failed < u64::MAX {
            Some((failed + 1) as u64)
        } else {
            None::<u64>
        }),
{
    if now > failed {
        Some(now)
    } else if failed < u64::MAX {
        Some(failed + 1)
    } else {
        None
    }
}

} // verus!
