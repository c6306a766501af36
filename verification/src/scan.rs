//! The directory scanner: recognizing segment file names of the form
//! `<decimal-u64>.log`, and producing the name for a generation.

use vstd::prelude::*;
use vstd::string::*;

use crate::codec::{chars_to_string, str_to_chars};

verus! {

/// The numeric value of a decimal digit character; 10 for any other
/// character.
pub open spec fn digit_val(c: char) -> nat {
    if c == '0' {
        0
    } else if c == '1' {
        1
    } else if c == '2' {
        2
    } else if c == '3' {
        3
    } else if c == '4' {
        4
    } else if c == '5' {
        5
    } else if c == '6' {
        6
    } else if c == '7' {
        7
    } else if c == '8' {
        8
    } else if c == '9' {
        9
    } else {
        10
    }
}

/// Whether `c` is a decimal digit.
pub open spec fn is_digit(c: char) -> bool {
    digit_val(c) < 10
}

/// The number a digit string denotes.
pub open spec fn digits_val(s: Seq<char>) -> nat
    decreases s.len(),
{
    if s.len() == 0 {
        0
    } else {
        digits_val(s.drop_last()) * 10 + digit_val(s.last())
    }
}

/// Whether every character of `s` is a decimal digit.
pub open spec fn all_digits(s: Seq<char>) -> bool {
    forall|i: int| 0 <= i < s.len() ==> is_digit(#[trigger] s[i])
}

/// The generation a file name denotes, for names of the form
/// `<decimal-u64>.log`; `None` for any other name.
pub open spec fn gen_of_name(s: Seq<char>) -> Option<u64> {
    if s.len() >= 5 && s.subrange(s.len() - 4, s.len() as int) == ".log"@ {
        let stem = s.subrange(0, s.len() - 4);
        if all_digits(stem) && digits_val(stem) <= u64::MAX {
            Some(digits_val(stem) as u64)
        } else {
            None
        }
    } else {
        None
    }
}

/// The generations named by a list of file names, in list order.
pub open spec fn gens_of(names: Seq<String>) -> Seq<u64>
    decreases names.len(),
{
    if names.len() == 0 {
        Seq::empty()
    } else {
        gens_of(names.drop_last()) + (match gen_of_name(names.last()@) {
            Some(g) => seq![g],
            None => Seq::empty(),
        })
    }
}

/// Ascending order on a generation list.
pub open spec fn sorted_u64(s: Seq<u64>) -> bool {
    forall|i: int, j: int| 0 <= i <= j < s.len() ==> s[i] <= s[j]
}

/// The digit character for one digit value.
pub open spec fn digit_char(d: nat) -> char {
    if d == 0 {
        '0'
    } else if d == 1 {
        '1'
    } else if d == 2 {
        '2'
    } else if d == 3 {
        '3'
    } else if d == 4 {
        '4'
    } else if d == 5 {
        '5'
    } else if d == 6 {
        '6'
    } else if d == 7 {
        '7'
    } else if d == 8 {
        '8'
    } else {
        '9'
    }
}

/// The decimal digits of `n`, most significant first, without leading
/// zeros (`0` itself is one digit).
pub open spec fn dec_digits(n: nat) -> Seq<char>
    decreases n,
{
    if n < 10 {
        seq![digit_char(n)]
    } else {
        dec_digits(n / 10).push(digit_char(n % 10))
    }
}

/// The file name of a segment generation.
pub open spec fn spec_log_name(gen: u64) -> Seq<char> {
    dec_digits(gen as nat) + ".log"@
}

/// Leading digits never lower the denoted number.
proof fn lemma_digits_val_mono(s: Seq<char>, i: int, j: int)
    requires
        0 <= i <= j <= s.len(),
    ensures
        digits_val(s.take(i)) <= digits_val(s.take(j)),
    decreases j - i,
{
    if i < j {
        lemma_digits_val_mono(s, i, j - 1);
        assert(s.take(j).drop_last() =~= s.take(j - 1));
        assert(digits_val(s.take(j)) == digits_val(s.take(j - 1)) * 10 + digit_val(
            s.take(j).last(),
        ));
    }
}

/// The digits of `n` denote `n`, and are all digits.
proof fn lemma_dec_digits_val(n: nat)
    ensures
        digits_val(dec_digits(n)) == n,
        all_digits(dec_digits(n)),
        dec_digits(n).len() >= 1,
    decreases n,
{
    if n < 10 {
        assert(dec_digits(n) =~= seq![digit_char(n)]);
        assert(dec_digits(n).drop_last() =~= Seq::<char>::empty());
        assert(digits_val(Seq::<char>::empty()) == 0);
        assert(digits_val(dec_digits(n)) == digits_val(dec_digits(n).drop_last()) * 10
            + digit_val(dec_digits(n).last()));
        assert(dec_digits(n).last() == digit_char(n));
        assert(digit_val(digit_char(n)) == n);
    } else {
        lemma_dec_digits_val(n / 10);
        let d = n % 10;
        assert(digit_val(digit_char(d)) == d);
        assert(dec_digits(n).drop_last() =~= dec_digits(n / 10));
        assert(dec_digits(n).last() == digit_char(d));
        assert((n / 10) * 10 + n % 10 == n);
        assert(forall|i: int|
            0 <= i < dec_digits(n).len() - 1 ==> #[trigger] dec_digits(n)[i] == dec_digits(
                n / 10,
            )[i]);
    }
}

/// The name written for a generation is recognized with that generation:
/// the scanner and the namer agree.
pub proof fn lemma_log_name_round_trip(gen: u64)
    ensures
        gen_of_name(spec_log_name(gen)) == Some(gen),
{
    let s = spec_log_name(gen);
    lemma_dec_digits_val(gen as nat);
    reveal_strlit(".log");
    assert(s.len() >= 5);
    assert(s.subrange(s.len() - 4, s.len() as int) =~= ".log"@);
    assert(s.subrange(0, s.len() - 4) =~= dec_digits(gen as nat));
}

/// The digit value of a character.
fn digit_of(c: char) -> (d: u64)
    ensures
        d == digit_val(c),
{
    if c == '0' {
        0
    } else if c == '1' {
        1
    } else if c == '2' {
        2
    } else if c == '3' {
        3
    } else if c == '4' {
        4
    } else if c == '5' {
        5
    } else if c == '6' {
        6
    } else if c == '7' {
        7
    } else if c == '8' {
        8
    } else if c == '9' {
        9
    } else {
        10
    }
}

/// Parses a file name of the form `<decimal-u64>.log`; mirrors
/// `gen_of_name`.
pub fn parse_gen_name(name: &str) -> (r: Option<u64>)
    ensures
        r == gen_of_name(name@),
{
    let cs = str_to_chars(name);
    let n = cs.len();
    if n < 5 {
        return None;
    }
    proof {
        reveal_strlit(".log");
    }
    if !(cs[n - 4] == '.' && cs[n - 3] == 'l' && cs[n - 2] == 'o' && cs[n - 1] == 'g') {
        proof {
            let sfx = cs@.subrange(n - 4, n as int);
            if sfx == ".log"@ {
                assert(cs@[n - 4] == sfx[0]);
                assert(cs@[n - 3] == sfx[1]);
                assert(cs@[n - 2] == sfx[2]);
                assert(cs@[n - 1] == sfx[3]);
            }
        }
        return None;
    }
    proof {
        assert(cs@.subrange(n - 4, n as int) =~= ".log"@);
    }
    let ghost stem = cs@.subrange(0, n - 4);
    let stem_len = n - 4;
    let mut val: u64 = 0;
    let mut i: usize = 0;
    while i < stem_len
        invariant
            stem_len == n - 4,
            n == cs@.len(),
            cs@ == name@,
            cs@.subrange(n - 4, n as int) == ".log"@,
            5 <= n,
            stem == cs@.subrange(0, n - 4),
            i <= stem_len,
            all_digits(stem.take(i as int)),
            val == digits_val(stem.take(i as int)),
        decreases stem_len - i,
    {
        let c = cs[i];
        proof {
            assert(stem[i as int] == cs@[i as int]);
            assert(stem.take(i + 1).drop_last() =~= stem.take(i as int));
            assert(stem.take(i + 1).last() == stem[i as int]);
        }
        let d = digit_of(c);
        if d >= 10 {
            proof {
                assert(!is_digit(stem[i as int]));
                assert(name@ == cs@);
                assert(name@.subrange(0, name@.len() - 4) == stem);
                assert(!all_digits(stem));
                assert(gen_of_name(name@) is None);
            }
            return None;
        }
        if val > (u64::MAX - d) / 10 {
            proof {
                assert(val * 10 + d > u64::MAX) by (nonlinear_arith)
                    requires
                        val > (u64::MAX - d) / 10,
                        d < 10,
                ;
                assert(digits_val(stem.take(i + 1)) > u64::MAX);
                lemma_digits_val_mono(stem, i + 1, stem.len() as int);
                assert(stem.take(stem.len() as int) =~= stem);
                assert(digits_val(stem) > u64::MAX);
                assert(name@ == cs@);
                assert(name@.subrange(0, name@.len() - 4) == stem);
                assert(gen_of_name(name@) is None);
            }
            return None;
        }
        proof {
            assert(val * 10 + d <= u64::MAX) by (nonlinear_arith)
                requires
                    val <= (u64::MAX - d) / 10,
                    d < 10,
            ;
        }
        val = val * 10 + d;
        i = i + 1;
    }
    proof {
        assert(stem.take(stem_len as int) =~= stem);
        assert(name@ == cs@);
        assert(name@.subrange(0, name@.len() - 4) == stem);
        assert(gen_of_name(name@) == Some(digits_val(stem) as u64));
    }
    Some(val)
}

/// Inserts `g` into a sorted list, keeping it sorted.
fn insert_sorted(out: &mut Vec<u64>, g: u64)
    requires
        sorted_u64(old(out)@),
    ensures
        sorted_u64(final(out)@),
        final(out)@.to_multiset() == old(out)@.to_multiset().insert(g),
        final(out)@.len() == old(out)@.len() + 1,
{
    let mut p: usize = 0;
    while p < out.len() && out[p] <= g
        invariant
            p <= out@.len(),
            forall|j: int| 0 <= j < p ==> out@[j] <= g,
        decreases out@.len() - p,
    {
        p = p + 1;
    }
    let ghost s0 = out@;
    out.insert(p, g);
    proof {
        broadcast use vstd::seq_lib::group_to_multiset_ensures;

        assert(out@.remove(p as int) =~= s0);
        assert(out@[p as int] == g);
        assert(out@.remove(p as int).to_multiset() =~= out@.to_multiset().remove(g));
        assert(out@.contains(g));
        assert(out@.to_multiset().count(g) > 0);
        assert(out@.to_multiset() =~= s0.to_multiset().insert(g));
        assert forall|a: int, b: int| 0 <= a <= b < out@.len() implies out@[a] <= out@[b] by {
            if a < p {
                assert(out@[a] == s0[a]);
            }
            if a > p {
                assert(out@[a] == s0[a - 1]);
            }
            if b < p {
                assert(out@[b] == s0[b]);
            }
            if b > p {
                assert(out@[b] == s0[b - 1]);
                if a <= p {
                    assert(p < s0.len());
                    assert(s0[p as int] > g);
                    assert(s0[p as int] <= s0[b - 1]);
                }
            }
        };
    }
}

/// The generations named by segment files, ascending: retains file names
/// of the form `<decimal-u64>.log` and returns their numbers sorted.
pub fn sorted_gen_list(names: &Vec<String>) -> (r: Vec<u64>)
    ensures
        sorted_u64(r@),
        r@.to_multiset() == gens_of(names@).to_multiset(),
{
    let n = names.len();
    let mut out: Vec<u64> = Vec::new();
    let mut i: usize = 0;
    while i < n
        invariant
            n == names@.len(),
            i <= n,
            sorted_u64(out@),
            out@.to_multiset() == gens_of(names@.take(i as int)).to_multiset(),
        decreases n - i,
    {
        let ghost pre = gens_of(names@.take(i as int));
        proof {
            broadcast use vstd::seq_lib::group_to_multiset_ensures;

            assert(names@.take(i + 1).drop_last() =~= names@.take(i as int));
            assert(names@.take(i + 1).last() == names@[i as int]);
            match gen_of_name(names@[i as int]@) {
                Some(g) => {
                    assert(gens_of(names@.take(i + 1)) =~= pre.push(g));
                },
                None => {
                    assert(gens_of(names@.take(i + 1)) =~= pre);
                },
            }
        }
        let parsed = parse_gen_name(names[i].as_str());
        match parsed {
            Some(g) => {
                insert_sorted(&mut out, g);
            },
            None => {},
        }
        i = i + 1;
    }
    proof {
        assert(names@.take(n as int) =~= names@);
    }
    out
}

/// The file name of a segment generation: `<gen>.log`.
pub fn log_path(gen: u64) -> (s: String)
    ensures
        s@ == spec_log_name(gen),
{
    let mut rev: Vec<char> = Vec::new();
    let mut n = gen;
    loop
        invariant_except_break
            rev@.len() == 0 ==> n == gen,
            rev@.len() > 0 ==> n > 0 && dec_digits(gen as nat) == dec_digits(n as nat)
                + rev@.reverse(),
        ensures
            rev@.len() > 0,
            dec_digits(gen as nat) == rev@.reverse(),
        decreases n,
    {
        let ghost rev0 = rev@;
        let ghost n0 = n as nat;
        let dd = n % 10;
        let c: char = if dd == 0 {
            '0'
        } else if dd == 1 {
            '1'
        } else if dd == 2 {
            '2'
        } else if dd == 3 {
            '3'
        } else if dd == 4 {
            '4'
        } else if dd == 5 {
            '5'
        } else if dd == 6 {
            '6'
        } else if dd == 7 {
            '7'
        } else if dd == 8 {
            '8'
        } else {
            '9'
        };
        proof {
            assert(c == digit_char(n0 % 10));
        }
        rev.push(c);
        n = n / 10;
        proof {
            assert(rev@ == rev0.push(c));
            assert(rev@.reverse() =~= seq![c] + rev0.reverse());
            if n0 >= 10 {
                assert(dec_digits(n0) == dec_digits(n0 / 10).push(digit_char(n0 % 10)));
                assert(dec_digits(n0) =~= dec_digits(n0 / 10) + seq![c]);
            } else {
                assert(dec_digits(n0) =~= seq![c]);
            }
            if rev0.len() == 0 {
                assert(rev0.reverse() =~= Seq::<char>::empty());
                assert(n0 == gen as nat);
                if n0 >= 10 {
                    assert(dec_digits(gen as nat) =~= dec_digits(n as nat) + rev@.reverse());
                } else {
                    assert(dec_digits(gen as nat) =~= rev@.reverse());
                }
            } else {
                if n0 >= 10 {
                    assert((dec_digits(n as nat) + seq![c]) + rev0.reverse() =~= dec_digits(
                        n as nat,
                    ) + rev@.reverse());
                } else {
                    assert(seq![c] + rev0.reverse() =~= rev@.reverse());
                }
            }
        }
        if n == 0 {
            break;
        }
    }
    let mut buf: Vec<char> = Vec::new();
    let rn = rev.len();
    let mut k: usize = 0;
    while k < rn
        invariant
            rn == rev@.len(),
            k <= rn,
            buf@ == rev@.reverse().take(k as int),
        decreases rn - k,
    {
        let c = rev[rn - 1 - k];
        proof {
            assert(rev@.reverse()[k as int] == rev@[rn - 1 - k]);
            assert(rev@.reverse().take(k as int).push(rev@.reverse()[k as int])
                =~= rev@.reverse().take(k + 1));
        }
        buf.push(c);
        k = k + 1;
    }
    proof {
        assert(rev@.reverse().take(rn as int) =~= rev@.reverse());
        assert(buf@ == dec_digits(gen as nat));
    }
    buf.push('.');
    buf.push('l');
    buf.push('o');
    buf.push('g');
    proof {
        reveal_strlit(".log");
        assert(buf@ =~= dec_digits(gen as nat) + ".log"@);
    }
    chars_to_string(&buf)
}

} // verus!
