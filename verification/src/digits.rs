//! Decimal rendering and reading of unsigned integers.
//!
//! `dec_rep` is the mathematical decimal form of a number; `seg_val` reads a
//! digit sequence back. Identifier text and task display lines are specified
//! with these.

use vstd::prelude::*;

verus! {

/// Is `c` a decimal digit?
pub open spec fn is_digit(c: char) -> bool {
    48 <= c as u32 <= 57
}

/// The numeric value of a digit character.
pub open spec fn digit_val(c: char) -> int {
    c as u32 - 48
}

/// The digit character for a value below ten.
pub open spec fn digit_char(d: int) -> char {
    if d == 0 {
        '0'
    } else if d == 1 {
        '1'
    } else if d == 2 {
        '2'
    } else if d == 3 {
        '3'
    } else if d == 4 {
        '4'
    } else if d == 5 {
        '5'
    } else if d == 6 {
        '6'
    } else if d == 7 {
        '7'
    } else if d == 8 {
        '8'
    } else {
        '9'
    }
}

/// The decimal representation of `n`, most significant digit first.
pub open spec fn dec_rep(n: nat) -> Seq<char>
    decreases n,
{
    if n < 10 {
        seq![digit_char(n as int)]
    } else {
        dec_rep(n / 10) + seq![digit_char((n % 10) as int)]
    }
}

/// Does `s` consist of digit characters only?
pub open spec fn all_digits(s: Seq<char>) -> bool {
    forall|i: int| 0 <= i < s.len() ==> is_digit(#[trigger] s[i])
}

/// The number read from a digit sequence, most significant digit first.
pub open spec fn seg_val(s: Seq<char>) -> int
    decreases s.len(),
{
    if s.len() == 0 {
        0
    } else {
        seg_val(s.drop_last()) * 10 + digit_val(s.last())
    }
}

/// The decimal representation consists of digits and reads back as `n`.
pub proof fn lemma_dec_rep_val(n: nat)
    ensures
        dec_rep(n).len() >= 1,
        all_digits(dec_rep(n)),
        seg_val(dec_rep(n)) == n,
    decreases n,
{
    if n < 10 {
        let s = dec_rep(n);
        assert(s.drop_last() =~= Seq::<char>::empty());
        assert(seg_val(s) == seg_val(s.drop_last()) * 10 + digit_val(s.last()));
        assert(s.last() == digit_char(n as int));
        assert(digit_val(digit_char(n as int)) == n);
    } else {
        lemma_dec_rep_val(n / 10);
        let a = dec_rep(n / 10);
        let s = dec_rep(n);
        assert(s.drop_last() =~= a);
        assert(seg_val(s) == seg_val(a) * 10 + digit_val(digit_char((n % 10) as int)));
        assert(forall|i: int| 0 <= i < s.len() ==> is_digit(#[trigger] s[i]));
    }
}

/// Reading a digit sequence never goes below zero.
pub proof fn lemma_seg_val_nonneg(s: Seq<char>)
    requires
        all_digits(s),
    ensures
        seg_val(s) >= 0,
    decreases s.len(),
{
    if s.len() > 0 {
        assert(all_digits(s.drop_last()));
        lemma_seg_val_nonneg(s.drop_last());
    }
}

/// A digit sequence reads at least as large as any of its prefixes.
pub proof fn lemma_seg_val_prefix(s: Seq<char>, i: int)
    requires
        all_digits(s),
        0 <= i <= s.len(),
    ensures
        seg_val(s.take(i)) <= seg_val(s),
    decreases s.len() - i,
{
    if i < s.len() {
        lemma_seg_val_prefix(s, i + 1);
        let t = s.take(i + 1);
        assert(t.drop_last() =~= s.take(i));
        assert(all_digits(s.take(i)));
        lemma_seg_val_nonneg(s.take(i));
        assert(seg_val(t) == seg_val(s.take(i)) * 10 + digit_val(t.last()));
    } else {
        assert(s.take(i) =~= s);
    }
}

/// Appends one digit character to a string.
fn push_digit(s: &mut String, d: u64)
    requires
        d < 10,
    ensures
        final(s)@ == old(s)@ + seq![digit_char(d as int)],
{
    if d == 0 {
        proof {
            reveal_strlit("0");
        }
        s.append("0");
        proof {
            assert(s@ =~= old(s)@ + seq![digit_char(d as int)]);
        }
    } else if d == 1 {
        proof {
            reveal_strlit("1");
        }
        s.append("1");
        proof {
            assert(s@ =~= old(s)@ + seq![digit_char(d as int)]);
        }
    } else if d == 2 {
        proof {
            reveal_strlit("2");
        }
        s.append("2");
        proof {
            assert(s@ =~= old(s)@ + seq![digit_char(d as int)]);
        }
    } else if d == 3 {
        proof {
            reveal_strlit("3");
        }
        s.append("3");
        proof {
            assert(s@ =~= old(s)@ + seq![digit_char(d as int)]);
        }
    } else if d == 4 {
        proof {
            reveal_strlit("4");
        }
        s.append("4");
        proof {
            assert(s@ =~= old(s)@ + seq![digit_char(d as int)]);
        }
    } else if d == 5 {
        proof {
            reveal_strlit("5");
        }
        s.append("5");
        proof {
            assert(s@ =~= old(s)@ + seq![digit_char(d as int)]);
        }
    } else if d == 6 {
        proof {
            reveal_strlit("6");
        }
        s.append("6");
        proof {
            assert(s@ =~= old(s)@ + seq![digit_char(d as int)]);
        }
    } else if d == 7 {
        proof {
            reveal_strlit("7");
        }
        s.append("7");
        proof {
            assert(s@ =~= old(s)@ + seq![digit_char(d as int)]);
        }
    } else if d == 8 {
        proof {
            reveal_strlit("8");
        }
        s.append("8");
        proof {
            assert(s@ =~= old(s)@ + seq![digit_char(d as int)]);
        }
    } else {
        proof {
            reveal_strlit("9");
        }
        s.append("9");
        proof {
            assert(s@ =~= old(s)@ + seq![digit_char(d as int)]);
        }
    }
}

/// The digit characters of `ds` in reverse order.
spec fn rev_chars(ds: Seq<u64>) -> Seq<char> {
    Seq::new(ds.len(), |i: int| digit_char(ds[ds.len() - 1 - i] as int))
}

/// Appends the decimal rendering of `n`.
pub fn push_u64(s: &mut String, n: u64)
    ensures
        final(s)@ == old(s)@ + dec_rep(n as nat),
{
    let mut ds: Vec<u64> = Vec::new();
    ds.push(n % 10);
    let mut m: u64 = n / 10;
    proof {
        if m == 0 {
            assert(dec_rep(n as nat) =~= rev_chars(ds@));
        } else {
            assert(dec_rep(n as nat) =~= dec_rep(m as nat) + rev_chars(ds@));
        }
    }
    while m > 0
        invariant
            m == 0 ==> dec_rep(n as nat) == rev_chars(ds@),
            m > 0 ==> dec_rep(n as nat) == dec_rep(m as nat) + rev_chars(ds@),
            forall|i: int| 0 <= i < ds@.len() ==> #[trigger] ds@[i] < 10,
            ds@.len() >= 1,
        decreases m,
    {
        let ghost ds_old = ds@;
        let ghost m_old = m as nat;
        ds.push(m % 10);
        m = m / 10;
        proof {
            assert(rev_chars(ds@) =~= seq![digit_char((m_old % 10) as int)] + rev_chars(ds_old));
            if m == 0 {
                assert(dec_rep(m_old) =~= seq![digit_char(m_old as int)]);
                assert(dec_rep(n as nat) =~= rev_chars(ds@));
            } else {
                assert(dec_rep(m_old) == dec_rep(m_old / 10) + seq![
                    digit_char((m_old % 10) as int),
                ]);
                assert(dec_rep(n as nat) =~= dec_rep(m as nat) + rev_chars(ds@));
            }
        }
    }
    let len = ds.len();
    let mut j: usize = 0;
    while j < len
        invariant
            len == ds@.len(),
            j <= len,
            forall|i: int| 0 <= i < ds@.len() ==> #[trigger] ds@[i] < 10,
            dec_rep(n as nat) == rev_chars(ds@),
            s@ == old(s)@ + rev_chars(ds@).take(j as int),
        decreases len - j,
    {
        push_digit(s, ds[len - 1 - j]);
        j = j + 1;
        proof {
            assert(s@ =~= old(s)@ + rev_chars(ds@).take(j as int));
        }
    }
    proof {
        assert(rev_chars(ds@).take(len as int) =~= rev_chars(ds@));
    }
}

/// Appends the decimal rendering of `n`, for the wide values that exact
/// rationals carry.
pub fn push_u128(s: &mut String, n: u128)
    ensures
        final(s)@ == old(s)@ + dec_rep(n as nat),
{
    let mut ds: Vec<u64> = Vec::new();
    ds.push((n % 10) as u64);
    let mut m: u128 = n / 10;
    proof {
        if m == 0 {
            assert(dec_rep(n as nat) =~= rev_chars(ds@));
        } else {
            assert(dec_rep(n as nat) =~= dec_rep(m as nat) + rev_chars(ds@));
        }
    }
    while m > 0
        invariant
            m == 0 ==> dec_rep(n as nat) == rev_chars(ds@),
            m > 0 ==> dec_rep(n as nat) == dec_rep(m as nat) + rev_chars(ds@),
            forall|i: int| 0 <= i < ds@.len() ==> #[trigger] ds@[i] < 10,
            ds@.len() >= 1,
        decreases m,
    {
        let ghost ds_old = ds@;
        let ghost m_old = m as nat;
        ds.push((m % 10) as u64);
        m = m / 10;
        proof {
            assert(rev_chars(ds@) =~= seq![digit_char((m_old % 10) as int)] + rev_chars(ds_old));
            if m == 0 {
                assert(dec_rep(m_old) =~= seq![digit_char(m_old as int)]);
                assert(dec_rep(n as nat) =~= rev_chars(ds@));
            } else {
                assert(dec_rep(m_old) == dec_rep(m_old / 10) + seq![
                    digit_char((m_old % 10) as int),
                ]);
                assert(dec_rep(n as nat) =~= dec_rep(m as nat) + rev_chars(ds@));
            }
        }
    }
    let len = ds.len();
    let mut j: usize = 0;
    while j < len
        invariant
            len == ds@.len(),
            j <= len,
            forall|i: int| 0 <= i < ds@.len() ==> #[trigger] ds@[i] < 10,
            dec_rep(n as nat) == rev_chars(ds@),
            s@ == old(s)@ + rev_chars(ds@).take(j as int),
        decreases len - j,
    {
        push_digit(s, ds[len - 1 - j]);
        j = j + 1;
        proof {
            assert(s@ =~= old(s)@ + rev_chars(ds@).take(j as int));
        }
    }
    proof {
        assert(rev_chars(ds@).take(len as int) =~= rev_chars(ds@));
    }
}

} // verus!
