//! Decimal numbers as text, and splitting text at dashes.
use vstd::prelude::*;
use vstd::string::*;

verus! {

pub open spec fn is_digit(c: char) -> bool {
    c == '0' || c == '1' || c == '2' || c == '3' || c == '4' || c == '5' || c == '6' || c == '7'
        || c == '8' || c == '9'
}

pub open spec fn digit_value(c: char) -> nat {
    if c == '1' {
        1
    } else if c == '2' {
        2
    } else if c == '3' {
        3
    } else if c == '4' {
        4
    } else if c == '5' {
        5
    } else if c == '6' {
        6
    } else if c == '7' {
        7
    } else if c == '8' {
        8
    } else if c == '9' {
        9
    } else {
        0
    }
}

pub open spec fn digit_char(d: nat) -> char {
    if d == 0 {
        '0'
    } else if d == 1 {
        '1'
    } else if d == 2 {
        '2'
    } else if d == 3 {
        '3'
    } else if d == 4 {
        '4'
    } else if d == 5 {
        '5'
    } else if d == 6 {
        '6'
    } else if d == 7 {
        '7'
    } else if d == 8 {
        '8'
    } else {
        '9'
    }
}

/// `n` in decimal, without leading zeros.
pub open spec fn decimal(n: nat) -> Seq<char>
    decreases n,
{
    if n < 10 {
        seq![digit_char(n)]
    } else {
        decimal(n / 10).push(digit_char(n % 10))
    }
}

pub open spec fn all_digits(s: Seq<char>) -> bool {
    forall|i: int| 0 <= i < s.len() ==> is_digit(#[trigger] s[i])
}

/// The number that a string of decimal digits denotes.
pub open spec fn digits_value(s: Seq<char>) -> nat
    decreases s.len(),
{
    if s.len() == 0 {
        0
    } else {
        digits_value(s.drop_last()) * 10 + digit_value(s.last())
    }
}

/// What parsing `s` as a `u16` yields: one or more decimal digits, optionally
/// after a single `+`, denoting at most `u16::MAX`.
pub open spec fn u16_of(s: Seq<char>) -> Option<u16> {
    let body = if s.len() > 0 && s[0] == '+' {
        s.drop_first()
    } else {
        s
    };
    if body.len() > 0 && all_digits(body) && digits_value(body) <= u16::MAX {
        Some(digits_value(body) as u16)
    } else {
        None
    }
}

/// The indices of the dashes in `s`, in increasing order.
pub open spec fn dash_positions(s: Seq<char>) -> Seq<int>
    decreases s.len(),
{
    if s.len() == 0 {
        Seq::empty()
    } else if s.last() == '-' {
        dash_positions(s.drop_last()).push(s.len() - 1)
    } else {
        dash_positions(s.drop_last())
    }
}

/// The pieces of `s` between its dashes: one more than there are dashes.
pub open spec fn split_on_dash(s: Seq<char>) -> Seq<Seq<char>> {
    let p = dash_positions(s);
    Seq::new(
        p.len() + 1,
        |k: int|
            s.subrange(
                if k == 0 {
                    0
                } else {
                    p[k - 1] + 1
                },
                if k == p.len() {
                    s.len() as int
                } else {
                    p[k]
                },
            ),
    )
}

pub proof fn lemma_digit_char(d: nat)
    requires
        d < 10,
    ensures
        is_digit(digit_char(d)),
        digit_value(digit_char(d)) == d,
        digit_char(d) != '+',
        digit_char(d) != '-',
{
}

pub proof fn lemma_decimal(n: nat)
    ensures
        decimal(n).len() >= 1,
        all_digits(decimal(n)),
        digits_value(decimal(n)) == n,
        decimal(n)[0] != '+',
        dash_positions(decimal(n)).len() == 0,
    decreases n,
{
    if n < 10 {
        lemma_digit_char(n);
        let s = decimal(n);
        assert(s.drop_last() =~= Seq::<char>::empty());
        assert(dash_positions(s.drop_last()).len() == 0);
        assert(digits_value(s.drop_last()) == 0);
    } else {
        lemma_decimal(n / 10);
        lemma_digit_char(n % 10);
        vstd::arithmetic::div_mod::lemma_fundamental_div_mod(n as int, 10);
        let s = decimal(n);
        assert(s.drop_last() =~= decimal(n / 10));
        assert(digits_value(s) == digits_value(decimal(n / 10)) * 10 + n % 10);
        assert(all_digits(s)) by {
            assert forall|i: int| 0 <= i < s.len() implies is_digit(#[trigger] s[i]) by {
                if i < s.len() - 1 {
                    assert(s[i] == decimal(n / 10)[i]);
                }
            }
        }
    }
}

/// Appending text without dashes adds no dash positions.
pub proof fn lemma_dashes_append_plain(a: Seq<char>, b: Seq<char>)
    requires
        dash_positions(b).len() == 0,
    ensures
        dash_positions(a + b) == dash_positions(a),
    decreases b.len(),
{
    if b.len() > 0 {
        assert((a + b).drop_last() =~= a + b.drop_last());
        assert((a + b).last() == b.last());
        if b.last() == '-' {
            assert(dash_positions(b).len() > 0);
        }
        assert(dash_positions(b.drop_last()).len() == 0);
        lemma_dashes_append_plain(a, b.drop_last());
    } else {
        assert(a + b =~= a);
    }
}

/// A prefix of a digit string denotes no more than the whole string.
proof fn lemma_digits_prefix(s: Seq<char>, k: int)
    requires
        0 <= k <= s.len(),
    ensures
        digits_value(s.subrange(0, k)) <= digits_value(s),
    decreases s.len(),
{
    if k < s.len() {
        assert(s.drop_last().subrange(0, k) =~= s.subrange(0, k));
        lemma_digits_prefix(s.drop_last(), k);
    } else {
        assert(s.subrange(0, k) =~= s);
    }
}

fn digit_text(d: u64) -> (r: &'static str)
    requires
        d < 10,
    ensures
        r@ == seq![digit_char(d as nat)],
{
    if d == 0 {
        proof { reveal_strlit("0"); }
        "0"
    } else if d == 1 {
        proof { reveal_strlit("1"); }
        "1"
    } else if d == 2 {
        proof { reveal_strlit("2"); }
        "2"
    } else if d == 3 {
        proof { reveal_strlit("3"); }
        "3"
    } else if d == 4 {
        proof { reveal_strlit("4"); }
        "4"
    } else if d == 5 {
        proof { reveal_strlit("5"); }
        "5"
    } else if d == 6 {
        proof { reveal_strlit("6"); }
        "6"
    } else if d == 7 {
        proof { reveal_strlit("7"); }
        "7"
    } else if d == 8 {
        proof { reveal_strlit("8"); }
        "8"
    } else {
        proof { reveal_strlit("9"); }
        "9"
    }
}

/// Appends `n` in decimal to `out`.
pub fn push_decimal(out: &mut String, n: u64)
    ensures
        final(out)@ == old(out)@ + decimal(n as nat),
    decreases n,
{
    if n < 10 {
        out.append(digit_text(n));
    } else {
        push_decimal(out, n / 10);
        out.append(digit_text(n % 10));
        proof {
            assert(old(out)@ + decimal((n / 10) as nat) + seq![digit_char((n % 10) as nat)]
                =~= old(out)@ + decimal(n as nat));
        }
    }
}

/// `n` in decimal.
pub fn decimal_string(n: u64) -> (r: String)
    ensures
        r@ == decimal(n as nat),
{
    let mut out = String::new();
    push_decimal(&mut out, n);
    proof {
        assert(Seq::<char>::empty() + decimal(n as nat) =~= decimal(n as nat));
    }
    out
}

fn digit_of(c: char) -> (r: Option<u32>)
    ensures
        r == (if is_digit(c) {
            Some(digit_value(c) as u32)
        } else {
            None
        }),
{
    match c {
        '0' => Some(0),
        '1' => Some(1),
        '2' => Some(2),
        '3' => Some(3),
        '4' => Some(4),
        '5' => Some(5),
        '6' => Some(6),
        '7' => Some(7),
        '8' => Some(8),
        '9' => Some(9),
        _ => None,
    }
}

/// Parses `s` as an unsigned 16-bit decimal number.
pub fn parse_u16(s: &str) -> (r: Option<u16>)
    ensures
        r == u16_of(s@),
{
    let n = s.unicode_len();
    let mut start: usize = 0;
    if n > 0 && s.get_char(0) == '+' {
        start = 1;
    }
    let ghost body = if s@.len() > 0 && s@[0] == '+' {
        s@.drop_first()
    } else {
        s@
    };
    proof {
        assert(body =~= s@.subrange(start as int, n as int));
    }
    if start >= n {
        return None;
    }
    let mut i: usize = start;
    let mut v: u32 = 0;
    while i < n
        invariant
            start <= i <= n,
            n == s@.len(),
            body == s@.subrange(start as int, n as int),
            body == (if s@.len() > 0 && s@[0] == '+' {
                s@.drop_first()
            } else {
                s@
            }),
            all_digits(s@.subrange(start as int, i as int)),
            v as nat == digits_value(s@.subrange(start as int, i as int)),
            v <= u16::MAX,
        decreases n - i,
    {
        let c = s.get_char(i);
        let ghost pre = s@.subrange(start as int, i as int);
        let ghost next_pre = s@.subrange(start as int, i + 1);
        proof {
            assert(next_pre.drop_last() =~= pre);
            assert(next_pre.last() == c);
        }
        match digit_of(c) {
            None => {
                proof {
                    assert(body[i - start] == c);
                    assert(!is_digit(body[i - start]));
                }
                return None;
            },
            Some(d) => {
                let w = v * 10 + d;
                assert(digits_value(next_pre) == w as nat);
                assert(all_digits(next_pre)) by {
                    assert forall|j: int| 0 <= j < next_pre.len() implies is_digit(
                        #[trigger] next_pre[j],
                    ) by {
                        if j < pre.len() {
                            assert(next_pre[j] == pre[j]);
                        }
                    }
                }
                if w > 65535 {
                    proof {
                        if all_digits(body) {
                            lemma_digits_prefix(body, i + 1 - start);
                            assert(body.subrange(0, i + 1 - start) =~= next_pre);
                        }
                    }
                    return None;
                }
                v = w;
            },
        }
        i = i + 1;
    }
    proof {
        assert(s@.subrange(start as int, i as int) =~= body);
    }
    Some(v as u16)
}

/// The indices of the dashes in `s`.
pub fn find_dashes(s: &str) -> (r: Vec<usize>)
    ensures
        r@.len() == dash_positions(s@).len(),
        forall|k: int| 0 <= k < r@.len() ==> r@[k] as int == dash_positions(s@)[k],
        forall|k: int| 0 <= k < r@.len() ==> r@[k] < s@.len(),
        forall|j: int, k: int| 0 <= j < k < r@.len() ==> r@[j] < r@[k],
{
    let n = s.unicode_len();
    let mut r: Vec<usize> = Vec::new();
    let mut i: usize = 0;
    while i < n
        invariant
            i <= n,
            n == s@.len(),
            r@.len() == dash_positions(s@.subrange(0, i as int)).len(),
            forall|k: int|
                0 <= k < r@.len() ==> r@[k] as int == dash_positions(s@.subrange(0, i as int))[k],
            forall|k: int| 0 <= k < r@.len() ==> r@[k] < i,
            forall|j: int, k: int| 0 <= j < k < r@.len() ==> r@[j] < r@[k],
        decreases n - i,
    {
        let c = s.get_char(i);
        proof {
            let next = s@.subrange(0, i + 1);
            assert(next.drop_last() =~= s@.subrange(0, i as int));
            assert(next.last() == c);
        }
        if c == '-' {
            r.push(i);
        }
        i = i + 1;
    }
    proof {
        assert(s@.subrange(0, n as int) =~= s@);
    }
    r
}

} // verus!
