use vstd::prelude::*;

verus! {

/// Relies on `String::from_iter` over `char`: collecting characters yields
/// the string of exactly those characters, in order.
#[verifier::external_body]
pub fn chars_to_string(v: &Vec<char>) -> (r: String)
    ensures
        r@ == v@,
{
    v.iter().collect()
}

/// The characters of `s`, as a vector.
pub fn string_to_chars(s: &str) -> (r: Vec<char>)
    ensures
        r@ == s@,
{
    let n = s.unicode_len();
    let mut r: Vec<char> = Vec::new();
    let mut i: usize = 0;
    while i < n
        invariant
            i <= n,
            n == s@.len(),
            r@ == s@.subrange(0, i as int),
        decreases n - i,
    {
        r.push(s.get_char(i));
        proof {
            assert(r@ =~= s@.subrange(0, i + 1 as int));
        }
        i = i + 1;
    }
    proof {
        assert(r@ =~= s@);
    }
    r
}

/// Appends the characters of `s` to `out`.
pub fn push_str_chars(out: &mut Vec<char>, s: &str)
    ensures
        final(out)@ == old(out)@ + s@,
{
    let n = s.unicode_len();
    let mut i: usize = 0;
    while i < n
        invariant
            i <= n,
            n == s@.len(),
            out@ == old(out)@ + s@.subrange(0, i as int),
        decreases n - i,
    {
        out.push(s.get_char(i));
        proof {
            assert(out@ =~= old(out)@ + s@.subrange(0, i + 1 as int));
        }
        i = i + 1;
    }
    proof {
        assert(out@ =~= old(out)@ + s@);
    }
}

/// Whether `c` is a decimal digit.
pub open spec fn is_digit(c: char) -> bool {
    48 <= c as u32 <= 57
}

/// The numeric value of a digit character.
pub open spec fn digit_val(c: char) -> nat
    recommends
        is_digit(c),
{
    (c as u32 - 48) as nat
}

/// The character for the digit `d`.
pub open spec fn digit_char(d: nat) -> char
    recommends
        d < 10,
{
    if d == 0 {
        '0'
    } else if d == 1 {
        '1'
    } else if d == 2 {
        '2'
    } else if d == 3 {
        '3'
    } else if d == 4 {
        '4'
    } else if d == 5 {
        '5'
    } else if d == 6 {
        '6'
    } else if d == 7 {
        '7'
    } else if d == 8 {
        '8'
    } else {
        '9'
    }
}

proof fn lemma_digit_char_val(d: nat)
    requires
        d < 10,
    ensures
        is_digit(digit_char(d)),
        digit_val(digit_char(d)) == d,
{
}

/// The decimal rendering of `n`, without leading zeros (except for zero
/// itself).
pub open spec fn render_nat(n: nat) -> Seq<char>
    decreases n,
{
    if n < 10 {
        seq![digit_char(n)]
    } else {
        render_nat(n / 10).push(digit_char(n % 10))
    }
}

/// Whether every character of `s` is a decimal digit.
pub open spec fn all_digits(s: Seq<char>) -> bool {
    forall|i: int| 0 <= i < s.len() ==> is_digit(#[trigger] s[i])
}

/// The numeric value of a digit string.
pub open spec fn digits_val(s: Seq<char>) -> nat
    decreases s.len(),
{
    if s.len() == 0 {
        0
    } else {
        digits_val(s.drop_last()) * 10 + digit_val(s.last())
    }
}

pub proof fn lemma_render_nat_digits(n: nat)
    ensures
        render_nat(n).len() >= 1,
        all_digits(render_nat(n)),
        digits_val(render_nat(n)) == n,
    decreases n,
{
    if n < 10 {
        lemma_digit_char_val(n);
        let r = render_nat(n);
        assert(r == seq![digit_char(n)]);
        assert(r.drop_last() =~= Seq::<char>::empty());
        assert(r.last() == digit_char(n));
        assert(digits_val(r.drop_last()) == 0);
        assert(digits_val(r) == digits_val(r.drop_last()) * 10 + digit_val(r.last()));
        assert(digits_val(r) == n);
    } else {
        lemma_render_nat_digits(n / 10);
        lemma_digit_char_val(n % 10);
        let r = render_nat(n);
        assert(r.drop_last() =~= render_nat(n / 10));
        assert(r.last() == digit_char(n % 10));
        assert(digits_val(r) == digits_val(r.drop_last()) * 10 + digit_val(r.last()));
        assert(digits_val(r.drop_last()) == n / 10);
        assert(digit_val(r.last()) == n % 10);
        assert((n / 10) * 10 + n % 10 == n) by (nonlinear_arith);
        assert(digits_val(r) == n);
        assert forall|i: int| 0 <= i < r.len() implies is_digit(#[trigger] r[i]) by {
            if i < r.len() - 1 {
                assert(r[i] == render_nat(n / 10)[i]);
            } else {
                assert(r[i] == digit_char(n % 10));
            }
        }
    }
}

/// The position of the first non-digit at or after `pos`.
pub open spec fn scan_digits(t: Seq<char>, pos: int) -> int
    recommends
        0 <= pos <= t.len(),
    decreases t.len() - pos when pos <= t.len()
{
    if pos < t.len() && is_digit(t[pos]) {
        scan_digits(t, pos + 1)
    } else {
        pos
    }
}

pub proof fn lemma_scan_digits(t: Seq<char>, pos: int)
    requires
        0 <= pos <= t.len(),
    ensures
        pos <= scan_digits(t, pos) <= t.len(),
        forall|k: int| pos <= k < scan_digits(t, pos) ==> is_digit(#[trigger] t[k]),
        scan_digits(t, pos) < t.len() ==> !is_digit(t[scan_digits(t, pos)]),
    decreases t.len() - pos,
{
    if pos < t.len() && is_digit(t[pos]) {
        lemma_scan_digits(t, pos + 1);
    }
}

pub proof fn lemma_scan_digits_fixpoint(t: Seq<char>, pos: int, e: int)
    requires
        0 <= pos <= e <= t.len(),
        forall|k: int| pos <= k < e ==> is_digit(#[trigger] t[k]),
        e < t.len() ==> !is_digit(t[e]),
    ensures
        scan_digits(t, pos) == e,
    decreases e - pos,
{
    if pos < e {
        lemma_scan_digits_fixpoint(t, pos + 1, e);
    }
}

/// Parses a decimal number at `pos`: the value of the longest digit run
/// starting there. Fails when no digit stands at `pos`, or the value would
/// not fit a `u64`.
pub open spec fn spec_parse_nat(t: Seq<char>, pos: int) -> Option<(nat, int)>
    recommends
        0 <= pos <= t.len(),
{
    let end = scan_digits(t, pos);
    if end > pos {
        let v = digits_val(t.subrange(pos, end));
        if v <= u64::MAX as nat {
            Some((v, end))
        } else {
            None
        }
    } else {
        None
    }
}

/// Executable form of [`digit_val`], also deciding [`is_digit`].
pub fn digit_of(c: char) -> (r: Option<u8>)
    ensures
        match r {
            Some(d) => is_digit(c) && d as nat == digit_val(c),
            None => !is_digit(c),
        },
{
    let u = c as u32;
    if 48 <= u && u <= 57 {
        Some((u - 48) as u8)
    } else {
        None
    }
}

/// Executable form of [`digit_char`].
pub fn digit_char_of(d: u8) -> (c: char)
    requires
        d < 10,
    ensures
        c == digit_char(d as nat),
{
    match d {
        0 => '0',
        1 => '1',
        2 => '2',
        3 => '3',
        4 => '4',
        5 => '5',
        6 => '6',
        7 => '7',
        8 => '8',
        _ => '9',
    }
}

/// Appends the decimal rendering of `n` to `out`.
pub fn render_nat_chars(n: u64, out: &mut Vec<char>)
    ensures
        final(out)@ == old(out)@ + render_nat(n as nat),
    decreases n,
{
    if n < 10 {
        out.push(digit_char_of(n as u8));
        proof {
            assert(out@ =~= old(out)@ + render_nat(n as nat));
        }
    } else {
        render_nat_chars(n / 10, out);
        out.push(digit_char_of((n % 10) as u8));
        proof {
            assert(out@ =~= old(out)@ + render_nat(n as nat));
        }
    }
}

/// Parses a decimal number, as [`spec_parse_nat`] says.
pub fn parse_nat(t: &Vec<char>, pos: usize) -> (r: Option<(u64, usize)>)
    requires
        pos <= t@.len(),
    ensures
        match r {
            Some(v) => spec_parse_nat(t@, pos as int) == Some((v.0 as nat, v.1 as int)) && v.1
                <= t@.len(),
            None => spec_parse_nat(t@, pos as int) is None,
        },
{
    let n = t.len();
    let mut end: usize = pos;
    let mut val: u64 = 0;
    let mut over: bool = false;
    loop
        invariant_except_break
            pos <= end <= n,
            n == t@.len(),
            forall|k: int| pos <= k < end ==> is_digit(#[trigger] t@[k]),
            !over ==> val as nat == digits_val(t@.subrange(pos as int, end as int)),
            over ==> digits_val(t@.subrange(pos as int, end as int)) > u64::MAX as nat,
        ensures
            pos <= end <= n,
            n == t@.len(),
            forall|k: int| pos <= k < end ==> is_digit(#[trigger] t@[k]),
            end < n ==> !is_digit(t@[end as int]),
            !over ==> val as nat == digits_val(t@.subrange(pos as int, end as int)),
            over ==> digits_val(t@.subrange(pos as int, end as int)) > u64::MAX as nat,
        decreases n - end,
    {
        if end == n {
            break;
        }
        let d_opt = digit_of(t[end]);
        match d_opt {
            None => {
                break;
            },
            Some(d) => {
                let ghost prevsub = t@.subrange(pos as int, end as int);
                let ghost prev = digits_val(prevsub);
                proof {
                    assert(t@.subrange(pos as int, end + 1 as int).drop_last() =~= prevsub);
                    assert(t@.subrange(pos as int, end + 1 as int).last() == t@[end as int]);
                    assert(digits_val(t@.subrange(pos as int, end + 1 as int)) == prev * 10
                        + digit_val(t@[end as int]));
                }
                if over || val > (u64::MAX - d as u64) / 10 {
                    proof {
                        if !over {
                            assert(val * 10 + d as u64 > u64::MAX) by {
                                assert(val >= (u64::MAX - d as u64) / 10 + 1);
                            };
                        } else {
                            assert(prev * 10 + digit_val(t@[end as int]) > u64::MAX as nat);
                        }
                    }
                    over = true;
                } else {
                    val = val * 10 + d as u64;
                }
                end = end + 1;
            },
        }
    }
    proof {
        lemma_scan_digits_fixpoint(t@, pos as int, end as int);
    }
    if end == pos {
        return None;
    }
    if over {
        return None;
    }
    Some((val, end))
}

/// A parsed rendering gives back the value: at a position where the text
/// holds exactly the rendering of `n`, followed by a non-digit or the end,
/// parsing finds `n`.
pub proof fn lemma_parse_render_nat(t: Seq<char>, pos: int, n: nat)
    requires
        0 <= pos,
        n <= u64::MAX as nat,
        pos + render_nat(n).len() <= t.len(),
        t.subrange(pos, pos + render_nat(n).len() as int) == render_nat(n),
        pos + render_nat(n).len() < t.len() ==> !is_digit(t[pos + render_nat(n).len()]),
    ensures
        spec_parse_nat(t, pos) == Some((n, pos + render_nat(n).len() as int)),
{
    lemma_render_nat_digits(n);
    let l = render_nat(n).len() as int;
    assert forall|k: int| pos <= k < pos + l implies is_digit(#[trigger] t[k]) by {
        assert(t[k] == t.subrange(pos, pos + l)[k - pos]);
        assert(is_digit(render_nat(n)[k - pos]));
    }
    lemma_scan_digits_fixpoint(t, pos, pos + l);
}

} // verus!
