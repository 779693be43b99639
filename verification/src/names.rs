//! The naming scheme of the file set.
//!
//! A slot of the rotation set is a file named `{base}.{index}.log`, where
//! `index` is a non-negative decimal integer; a file retired under
//! compression carries one more suffix after the `.log` part (for instance
//! `{base}.{index}.log.zstd`) and still occupies its index slot. Filenames
//! that do not match the pattern are not part of the set and are never
//! touched.

use vstd::arithmetic::div_mod::lemma_fundamental_div_mod;
use vstd::prelude::*;

verus! {

/// The decimal digit character for a value below ten.
pub open spec fn digit_char(d: nat) -> char {
    if d == 0 {
        '0'
    } else if d == 1 {
        '1'
    } else if d == 2 {
        '2'
    } else if d == 3 {
        '3'
    } else if d == 4 {
        '4'
    } else if d == 5 {
        '5'
    } else if d == 6 {
        '6'
    } else if d == 7 {
        '7'
    } else if d == 8 {
        '8'
    } else {
        '9'
    }
}

/// The value of a decimal digit character; ten for anything else.
pub open spec fn digit_val(c: char) -> nat {
    if c == '0' {
        0
    } else if c == '1' {
        1
    } else if c == '2' {
        2
    } else if c == '3' {
        3
    } else if c == '4' {
        4
    } else if c == '5' {
        5
    } else if c == '6' {
        6
    } else if c == '7' {
        7
    } else if c == '8' {
        8
    } else if c == '9' {
        9
    } else {
        10
    }
}

/// Whether `c` is a decimal digit.
pub open spec fn is_digit(c: char) -> bool {
    digit_val(c) < 10
}

/// The decimal representation of `n`, most significant digit first, with no
/// leading zero except for `n == 0` itself.
pub open spec fn decimal_digits(n: nat) -> Seq<char>
    decreases n,
{
    if n < 10 {
        seq![digit_char(n)]
    } else {
        decimal_digits(n / 10).push(digit_char(n % 10))
    }
}

/// The value of a digit string, read most significant digit first; digits
/// with leading zeros read as the same value.
pub open spec fn parse_digits(s: Seq<char>) -> nat
    decreases s.len(),
{
    if s.len() == 0 {
        0
    } else {
        parse_digits(s.drop_last()) * 10 + digit_val(s.last())
    }
}

/// Whether every character of `s` is a decimal digit.
pub open spec fn all_digits(s: Seq<char>) -> bool {
    forall|i: int| 0 <= i < s.len() ==> is_digit(#[trigger] s[i])
}

/// The length of the run of decimal digits that `s` starts with.
pub open spec fn leading_digit_count(s: Seq<char>) -> nat
    decreases s.len(),
{
    if s.len() > 0 && is_digit(s[0]) {
        1 + leading_digit_count(s.drop_first())
    } else {
        0
    }
}

/// The `.log` extension part of every name of the scheme.
pub open spec fn log_tail() -> Seq<char> {
    seq!['.', 'l', 'o', 'g']
}

/// The filename of index slot `index`: `{base}.{index}.log`.
pub open spec fn spec_logfile_name(base: Seq<char>, index: nat) -> Seq<char> {
    base + seq!['.'] + decimal_digits(index) + log_tail()
}

/// Whether what follows the index digits completes a name of the scheme:
/// either exactly `.log`, or `.log.` followed by a retire suffix.
pub open spec fn log_tail_ok(t: Seq<char>) -> bool {
    t == log_tail() || (t.len() >= 5 && t.take(5) == log_tail().push('.'))
}

/// The index a filename occupies, if it matches the naming scheme for the
/// given base name; `None` for every other filename.
pub open spec fn spec_logfile_index(base: Seq<char>, f: Seq<char>) -> Option<int> {
    if f.len() > base.len() && f.take(base.len() as int) == base && f[base.len() as int] == '.' {
        let rest = f.skip(base.len() as int + 1);
        let k = leading_digit_count(rest) as int;
        if k >= 1 && parse_digits(rest.take(k)) <= usize::MAX && log_tail_ok(rest.skip(k)) {
            Some(parse_digits(rest.take(k)) as int)
        } else {
            None
        }
    } else {
        None
    }
}

/// What follows the index digits in a filename of the scheme (`.log`, or
/// `.log` plus a retire suffix).
pub open spec fn spec_index_suffix(base: Seq<char>, f: Seq<char>) -> Seq<char> {
    let rest = f.skip(base.len() as int + 1);
    rest.skip(leading_digit_count(rest) as int)
}

/// The filename `f` with its index digits replaced by `j`, keeping the base
/// name and whatever followed the digits.
pub open spec fn spec_renamed(base: Seq<char>, f: Seq<char>, j: nat) -> Seq<char> {
    base + seq!['.'] + decimal_digits(j) + spec_index_suffix(base, f)
}

pub proof fn lemma_decimal_digits_wf(n: nat)
    ensures
        decimal_digits(n).len() >= 1,
        all_digits(decimal_digits(n)),
    decreases n,
{
    if n >= 10 {
        lemma_decimal_digits_wf(n / 10);
        assert forall|i: int| 0 <= i < decimal_digits(n).len() implies is_digit(
            #[trigger] decimal_digits(n)[i],
        ) by {
            if i < decimal_digits(n / 10).len() {
                assert(decimal_digits(n)[i] == decimal_digits(n / 10)[i]);
            }
        }
    }
}

/// Reading the decimal representation of `n` back gives `n`.
pub proof fn lemma_parse_decimal_roundtrip(n: nat)
    ensures
        parse_digits(decimal_digits(n)) == n,
    decreases n,
{
    if n < 10 {
        assert(decimal_digits(n) == seq![digit_char(n)]);
        assert(decimal_digits(n).len() == 1);
        assert(parse_digits(decimal_digits(n)) == parse_digits(decimal_digits(n).drop_last()) * 10
            + digit_val(decimal_digits(n).last()));
        assert(decimal_digits(n).drop_last() =~= Seq::<char>::empty());
        assert(decimal_digits(n).last() == digit_char(n));
        assert(digit_val(digit_char(n)) == n);
    } else {
        lemma_parse_decimal_roundtrip(n / 10);
        assert(decimal_digits(n).drop_last() =~= decimal_digits(n / 10));
        assert(decimal_digits(n).last() == digit_char(n % 10));
        assert(digit_val(digit_char(n % 10)) == n % 10);
        lemma_fundamental_div_mod(n as int, 10);
    }
}

/// The digit run at the front of `d + t` is exactly `d`, when `d` is all
/// digits and `t` does not start with one.
pub proof fn lemma_leading_digit_count_concat(d: Seq<char>, t: Seq<char>)
    requires
        all_digits(d),
        t.len() == 0 || !is_digit(t[0]),
    ensures
        leading_digit_count(d + t) == d.len(),
    decreases d.len(),
{
    if d.len() == 0 {
        assert(d + t =~= t);
    } else {
        assert((d + t)[0] == d[0]);
        assert((d + t).drop_first() =~= d.drop_first() + t);
        assert(all_digits(d.drop_first())) by {
            assert(forall|i: int|
                0 <= i < d.drop_first().len() ==> #[trigger] d.drop_first()[i] == d[i + 1]);
        }
        lemma_leading_digit_count_concat(d.drop_first(), t);
    }
}

/// The digit run of `s` is `k` exactly when the first `k` characters are
/// digits and the run stops there.
pub proof fn lemma_leading_digit_count_is(s: Seq<char>, k: int)
    requires
        0 <= k <= s.len(),
        forall|i: int| 0 <= i < k ==> is_digit(#[trigger] s[i]),
        k == s.len() || !is_digit(s[k]),
    ensures
        leading_digit_count(s) == k,
    decreases k,
{
    if k == 0 {
    } else {
        assert(is_digit(s[0]));
        assert(forall|i: int|
            0 <= i < k - 1 ==> #[trigger] s.drop_first()[i] == s[i + 1]);
        if k - 1 < s.drop_first().len() {
            assert(s.drop_first()[k - 1] == s[k]);
        }
        lemma_leading_digit_count_is(s.drop_first(), k - 1);
    }
}

/// A longer digit prefix never reads as a smaller value.
pub proof fn lemma_parse_digits_prefix_monotone(s: Seq<char>, i: int, j: int)
    requires
        0 <= i <= j <= s.len(),
    ensures
        parse_digits(s.take(i)) <= parse_digits(s.take(j)),
    decreases j - i,
{
    if i < j {
        lemma_parse_digits_prefix_monotone(s, i, j - 1);
        assert(s.take(j).drop_last() =~= s.take(j - 1));
        assert(parse_digits(s.take(j - 1)) * 10 >= parse_digits(s.take(j - 1)));
    }
}

/// A filename produced by the naming scheme always parses back to the index
/// that was used to create it.
pub proof fn lemma_logfile_name_roundtrip(base: Seq<char>, index: nat)
    requires
        index <= usize::MAX,
    ensures
        spec_logfile_index(base, spec_logfile_name(base, index)) == Some(index as int),
        spec_index_suffix(base, spec_logfile_name(base, index)) == log_tail(),
{
    let f = spec_logfile_name(base, index);
    let d = decimal_digits(index);
    lemma_decimal_digits_wf(index);
    assert(f.take(base.len() as int) =~= base);
    assert(f[base.len() as int] == '.');
    let rest = f.skip(base.len() as int + 1);
    assert(rest =~= d + log_tail());
    lemma_leading_digit_count_concat(d, log_tail());
    let k = leading_digit_count(rest) as int;
    assert(k == d.len());
    assert(rest.take(k) =~= d);
    lemma_parse_decimal_roundtrip(index);
    assert(rest.skip(k) =~= log_tail());
}

/// Any filename of the shape `{base}.{digits of j}{tail}` parses to `j`,
/// for every tail that completes the scheme.
pub proof fn lemma_pattern_parses(base: Seq<char>, j: nat, t: Seq<char>)
    requires
        j <= usize::MAX,
        log_tail_ok(t),
    ensures
        spec_logfile_index(base, base + seq!['.'] + decimal_digits(j) + t) == Some(j as int),
        spec_index_suffix(base, base + seq!['.'] + decimal_digits(j) + t) == t,
{
    let d = decimal_digits(j);
    lemma_decimal_digits_wf(j);
    let f = base + seq!['.'] + d + t;
    assert(f.take(base.len() as int) =~= base);
    assert(f[base.len() as int] == '.');
    let rest = f.skip(base.len() as int + 1);
    assert(rest =~= d + t);
    assert(t.len() == 0 || !is_digit(t[0])) by {
        if t == log_tail() {
            assert(t[0] == '.');
        } else {
            assert(t.take(5)[0] == t[0]);
            assert(log_tail().push('.')[0] == '.');
        }
    }
    lemma_leading_digit_count_concat(d, t);
    let k = leading_digit_count(rest) as int;
    assert(k == d.len());
    assert(rest.take(k) =~= d);
    lemma_parse_decimal_roundtrip(j);
    assert(rest.skip(k) =~= t);
}

/// Replacing the index digits of a matching filename gives a filename that
/// parses to the new index, with the same part after the digits.
pub proof fn lemma_renamed_parses(base: Seq<char>, f: Seq<char>, j: nat)
    requires
        spec_logfile_index(base, f) is Some,
        j <= usize::MAX,
    ensures
        spec_logfile_index(base, spec_renamed(base, f, j)) == Some(j as int),
        spec_index_suffix(base, spec_renamed(base, f, j)) == spec_index_suffix(base, f),
{
    let rest = f.skip(base.len() as int + 1);
    let k = leading_digit_count(rest) as int;
    let suffix = rest.skip(k);
    let d = decimal_digits(j);
    lemma_decimal_digits_wf(j);
    let g = spec_renamed(base, f, j);
    assert(g.take(base.len() as int) =~= base);
    assert(g[base.len() as int] == '.');
    let grest = g.skip(base.len() as int + 1);
    assert(grest =~= d + suffix);
    assert(log_tail_ok(suffix));
    assert(suffix.len() == 0 || !is_digit(suffix[0])) by {
        if suffix == log_tail() {
            assert(suffix[0] == '.');
        } else {
            assert(suffix.take(5)[0] == suffix[0]);
            assert(log_tail().push('.')[0] == '.');
        }
    }
    lemma_leading_digit_count_concat(d, suffix);
    let gk = leading_digit_count(grest) as int;
    assert(gk == d.len());
    assert(grest.take(gk) =~= d);
    lemma_parse_decimal_roundtrip(j);
    assert(grest.skip(gk) =~= suffix);
}

/// The value of a decimal digit character; ten for anything else.
pub fn digit_value(c: char) -> (d: u8)
    ensures
        d as nat == digit_val(c),
{
    match c {
        '0' => 0,
        '1' => 1,
        '2' => 2,
        '3' => 3,
        '4' => 4,
        '5' => 5,
        '6' => 6,
        '7' => 7,
        '8' => 8,
        '9' => 9,
        _ => 10,
    }
}

fn push_digit(s: &mut String, d: u8)
    requires
        d < 10,
    ensures
        final(s)@ == old(s)@ + seq![digit_char(d as nat)],
{
    match d {
        0 => {
            proof {
                reveal_strlit("0");
            }
            s.append("0");
            proof {
                assert("0"@ =~= seq![digit_char(0)]);
            }
        }
        1 => {
            proof {
                reveal_strlit("1");
            }
            s.append("1");
            proof {
                assert("1"@ =~= seq![digit_char(1)]);
            }
        }
        2 => {
            proof {
                reveal_strlit("2");
            }
            s.append("2");
            proof {
                assert("2"@ =~= seq![digit_char(2)]);
            }
        }
        3 => {
            proof {
                reveal_strlit("3");
            }
            s.append("3");
            proof {
                assert("3"@ =~= seq![digit_char(3)]);
            }
        }
        4 => {
            proof {
                reveal_strlit("4");
            }
            s.append("4");
            proof {
                assert("4"@ =~= seq![digit_char(4)]);
            }
        }
        5 => {
            proof {
                reveal_strlit("5");
            }
            s.append("5");
            proof {
                assert("5"@ =~= seq![digit_char(5)]);
            }
        }
        6 => {
            proof {
                reveal_strlit("6");
            }
            s.append("6");
            proof {
                assert("6"@ =~= seq![digit_char(6)]);
            }
        }
        7 => {
            proof {
                reveal_strlit("7");
            }
            s.append("7");
            proof {
                assert("7"@ =~= seq![digit_char(7)]);
            }
        }
        8 => {
            proof {
                reveal_strlit("8");
            }
            s.append("8");
            proof {
                assert("8"@ =~= seq![digit_char(8)]);
            }
        }
        _ => {
            proof {
                reveal_strlit("9");
            }
            s.append("9");
            proof {
                assert("9"@ =~= seq![digit_char(9)]);
            }
        }
    }
}

pub(crate) fn push_decimal_digits(s: &mut String, n: usize)
    ensures
        final(s)@ == old(s)@ + decimal_digits(n as nat),
    decreases n,
{
    if n >= 10 {
        push_decimal_digits(s, n / 10);
        push_digit(s, (n % 10) as u8);
        proof {
            assert(old(s)@ + decimal_digits((n / 10) as nat) + seq![
                digit_char((n % 10) as nat),
            ] =~= old(s)@ + decimal_digits(n as nat));
        }
    } else {
        push_digit(s, n as u8);
    }
}

/// Build the filename of index slot `index`: `{base}.{index}.log`.
pub fn make_logfile_name(base: &str, index: usize) -> (r: String)
    ensures
        r@ == spec_logfile_name(base@, index as nat),
{
    let mut s = base.to_owned();
    proof {
        reveal_strlit(".");
    }
    s.append(".");
    push_decimal_digits(&mut s, index);
    proof {
        reveal_strlit(".log");
    }
    s.append(".log");
    proof {
        assert("."@ =~= seq!['.']);
        assert(".log"@ =~= log_tail());
        assert(base@ + "."@ + decimal_digits(index as nat) + ".log"@ =~= spec_logfile_name(
            base@,
            index as nat,
        ));
    }
    s
}

/// Parse a directory entry's filename against the scheme `{base}.{N}.log`,
/// with or without one more retire suffix, and return the index slot `N` that
/// it occupies; `None` for a filename outside the scheme.
pub fn parse_logfile_index(base: &str, f: &str) -> (r: Option<usize>)
    ensures
        r matches Some(i) ==> spec_logfile_index(base@, f@) == Some(i as int),
        r is None ==> spec_logfile_index(base@, f@) is None,
{
    let bl = base.unicode_len();
    let fl = f.unicode_len();
    if fl <= bl {
        return None;
    }
    // The base name must stand at the front, letter for letter.
    let mut i: usize = 0;
    while i < bl
        invariant
            i <= bl,
            bl == base@.len(),
            fl == f@.len(),
            fl > bl,
            f@.take(i as int) == base@.take(i as int),
        decreases bl - i,
    {
        if f.get_char(i) != base.get_char(i) {
            proof {
                assert(f@.take(bl as int)[i as int] == f@[i as int]);
            }
            return None;
        }
        proof {
            assert(f@.take(i + 1) =~= f@.take(i as int).push(f@[i as int]));
            assert(base@.take(i + 1) =~= base@.take(i as int).push(base@[i as int]));
        }
        i = i + 1;
    }
    proof {
        assert(base@.take(bl as int) =~= base@);
    }
    if f.get_char(bl) != '.' {
        return None;
    }
    let ghost rest = f@.skip(bl as int + 1);
    proof {
        assert(forall|t: int| 0 <= t < rest.len() ==> #[trigger] rest[t] == f@[t + bl + 1]);
    }
    // Measure the digit run after the first dot.
    let mut k: usize = 0;
    loop
        invariant
            bl + 1 + k <= fl,
            bl == base@.len(),
            fl == f@.len(),
            fl > bl,
            rest == f@.skip(bl as int + 1),
            forall|t: int| 0 <= t < k ==> is_digit(#[trigger] rest[t]),
        ensures
            bl + 1 + k <= fl,
            forall|t: int| 0 <= t < k ==> is_digit(#[trigger] rest[t]),
            k as int == rest.len() || !is_digit(rest[k as int]),
        decreases fl - bl - 1 - k,
    {
        if bl + 1 + k >= fl {
            break;
        }
        let c = f.get_char(bl + 1 + k);
        if digit_value(c) >= 10 {
            proof {
                assert(rest[k as int] == f@[k + bl + 1]);
            }
            break;
        }
        proof {
            assert(rest[k as int] == f@[k + bl + 1]);
        }
        k = k + 1;
    }
    proof {
        lemma_leading_digit_count_is(rest, k as int);
    }
    if k == 0 {
        return None;
    }
    // Read the digits, refusing a value that does not fit an index.
    let mut val: usize = 0;
    let mut t: usize = 0;
    while t < k
        invariant
            t <= k,
            1 <= k,
            bl + 1 + k <= fl,
            bl == base@.len(),
            fl == f@.len(),
            fl > bl,
            rest == f@.skip(bl as int + 1),
            f@.take(bl as int) == base@,
            f@[bl as int] == '.',
            leading_digit_count(rest) == k,
            forall|u: int| 0 <= u < k ==> is_digit(#[trigger] rest[u]),
            val == parse_digits(rest.take(t as int)),
        decreases k - t,
    {
        let d = digit_value(f.get_char(bl + 1 + t));
        proof {
            assert(rest[t as int] == f@[t + bl + 1]);
            assert(rest.take(t + 1).drop_last() =~= rest.take(t as int));
            assert(rest.take(t + 1).last() == rest[t as int]);
        }
        let v10 = match val.checked_mul(10) {
            Some(v) => v,
            None => {
                proof {
                    assert(parse_digits(rest.take(t + 1)) == val * 10 + digit_val(
                        rest[t as int],
                    ));
                    assert(parse_digits(rest.take(t + 1)) > usize::MAX);
                    lemma_parse_digits_prefix_monotone(rest, t + 1, k as int);
                    assert(parse_digits(rest.take(k as int)) > usize::MAX);
                }
                return None;
            }
        };
        let v = match v10.checked_add(d as usize) {
            Some(v) => v,
            None => {
                proof {
                    assert(parse_digits(rest.take(t + 1)) == val * 10 + digit_val(
                        rest[t as int],
                    ));
                    assert(parse_digits(rest.take(t + 1)) > usize::MAX);
                    lemma_parse_digits_prefix_monotone(rest, t + 1, k as int);
                    assert(parse_digits(rest.take(k as int)) > usize::MAX);
                }
                return None;
            }
        };
        val = v;
        t = t + 1;
    }
    // What follows the digits must be `.log`, alone or with one more suffix.
    let tail_start = bl + 1 + k;
    let ghost tail = rest.skip(k as int);
    proof {
        assert(forall|u: int| 0 <= u < tail.len() ==> #[trigger] tail[u] == f@[u + tail_start]);
    }
    let rem = fl - tail_start;
    if rem < 4 {
        return None;
    }
    if f.get_char(tail_start) != '.' || f.get_char(tail_start + 1) != 'l' || f.get_char(
        tail_start + 2,
    ) != 'o' || f.get_char(tail_start + 3) != 'g' {
        proof {
            if tail == log_tail() {
                assert(tail[0] == '.' && tail[1] == 'l' && tail[2] == 'o' && tail[3] == 'g');
            }
            if tail.len() >= 5 && tail.take(5) == log_tail().push('.') {
                assert(tail.take(5)[0] == tail[0] && tail.take(5)[1] == tail[1] && tail.take(5)[2]
                    == tail[2] && tail.take(5)[3] == tail[3]);
                assert(tail[0] == '.' && tail[1] == 'l' && tail[2] == 'o' && tail[3] == 'g');
            }
        }
        return None;
    }
    if rem == 4 {
        proof {
            assert(tail =~= log_tail());
        }
        Some(val)
    } else if f.get_char(tail_start + 4) == '.' {
        proof {
            assert(tail.take(5) =~= log_tail().push('.'));
        }
        Some(val)
    } else {
        proof {
            assert(tail.len() != 4);
            if tail.len() >= 5 && tail.take(5) == log_tail().push('.') {
                assert(tail.take(5)[4] == tail[4]);
                assert(log_tail().push('.')[4] == '.');
            }
        }
        None
    }
}

} // verus!
