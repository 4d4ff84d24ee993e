//! Fixed-point decimal quantities.
//!
//! Prices and sizes arrive on the wire as decimal text.  The book stores
//! them as exact fixed-point integers with [`FRAC_DIGITS`] fractional
//! digits, so that keying, ordering and notional arithmetic are exact.
//! Text that is not a non-negative decimal number within range denotes 0:
//! an unparsable price or size degrades to zero rather than rejecting the
//! whole message.

use vstd::prelude::*;

verus! {

/// Number of decimal fraction digits carried by a fixed-point quantity.
pub const FRAC_DIGITS: u32 = 8;

/// One whole unit expressed in fixed-point ticks (10 to the FRAC_DIGITS).
pub const FRAC_SCALE: u64 = 100_000_000;

/// Largest quantity the book accepts, in ticks: ten billion whole units.
pub const FIXED_MAX: u64 = 1_000_000_000_000_000_000;

pub open spec fn pow10(e: nat) -> nat
    decreases e,
{
    if e == 0 {
        1
    } else {
        10 * pow10((e - 1) as nat)
    }
}

/// The characters '0' through '9'.
pub open spec fn is_dec_digit(c: char) -> bool {
    48 <= c as u32 && c as u32 <= 57
}

pub open spec fn digit_val(c: char) -> nat {
    ((c as u32) - 48) as nat
}

pub open spec fn all_digits(s: Seq<char>) -> bool {
    forall|i: int| 0 <= i < s.len() ==> is_dec_digit(#[trigger] s[i])
}

/// Numeric value of a digit string, most significant digit first.
pub open spec fn dec_val(s: Seq<char>) -> nat
    decreases s.len(),
{
    if s.len() == 0 {
        0
    } else {
        dec_val(s.drop_last()) * 10 + digit_val(s.last())
    }
}

/// Index of the first '.' in `s`, or `s.len()` when there is none.
pub open spec fn dot_pos(s: Seq<char>) -> int
    decreases s.len(),
{
    if s.len() == 0 {
        0
    } else if s[0] == '.' {
        0
    } else {
        1 + dot_pos(s.drop_first())
    }
}

pub open spec fn int_part(s: Seq<char>) -> Seq<char> {
    s.take(dot_pos(s))
}

pub open spec fn frac_part(s: Seq<char>) -> Seq<char> {
    if dot_pos(s) < s.len() {
        s.skip(dot_pos(s) + 1)
    } else {
        Seq::empty()
    }
}

/// The texts accepted as non-negative decimal numbers: digits around at
/// most one '.', with at least one digit overall.
pub open spec fn is_decimal_text(s: Seq<char>) -> bool {
    &&& all_digits(int_part(s))
    &&& all_digits(frac_part(s))
    &&& int_part(s).len() + frac_part(s).len() >= 1
}

/// Value of a decimal text in ticks; the fraction is truncated to
/// FRAC_DIGITS digits.
pub open spec fn dec_units(s: Seq<char>) -> nat {
    let fp = frac_part(s);
    let f8 = fp.take(if fp.len() <= FRAC_DIGITS { fp.len() as int } else { FRAC_DIGITS as int });
    dec_val(int_part(s)) * (FRAC_SCALE as nat) + dec_val(f8) * pow10((FRAC_DIGITS - f8.len()) as nat)
}

/// What a price or size text denotes: its value in ticks when it is a
/// decimal number within range, and 0 otherwise.
pub open spec fn fixed_of(s: Seq<char>) -> u64 {
    if is_decimal_text(s) && dec_units(s) <= FIXED_MAX {
        dec_units(s) as u64
    } else {
        0
    }
}

proof fn lemma_pow10_bound(e: nat)
    requires
        e <= 8,
    ensures
        pow10(e) <= 100_000_000,
    decreases 8 - e,
{
    reveal_with_fuel(pow10, 9);
    if e < 8 {
        lemma_pow10_bound(e + 1);
    }
}

proof fn lemma_dec_val_take_succ(s: Seq<char>, i: int)
    requires
        0 <= i < s.len(),
    ensures
        dec_val(s.take(i + 1)) == dec_val(s.take(i)) * 10 + digit_val(s[i]),
{
    assert(s.take(i + 1).drop_last() =~= s.take(i));
    assert(s.take(i + 1).last() == s[i]);
}

proof fn lemma_dec_val_take_mono(s: Seq<char>, i: int, j: int)
    requires
        0 <= i <= j <= s.len(),
    ensures
        dec_val(s.take(i)) <= dec_val(s.take(j)),
    decreases j - i,
{
    if i < j {
        lemma_dec_val_take_succ(s, j - 1);
        lemma_dec_val_take_mono(s, i, j - 1);
    }
}

proof fn lemma_dot_pos(s: Seq<char>)
    ensures
        0 <= dot_pos(s) <= s.len(),
        dot_pos(s) < s.len() ==> s[dot_pos(s)] == '.',
        forall|j: int| 0 <= j < dot_pos(s) ==> s[j] != '.',
    decreases s.len(),
{
    if s.len() > 0 && s[0] != '.' {
        lemma_dot_pos(s.drop_first());
        assert forall|j: int| 0 <= j < dot_pos(s) implies s[j] != '.' by {
            if j > 0 {
                assert(s.drop_first()[j - 1] == s[j]);
            }
        }
    }
}

/// The first '.' is where no earlier character is a '.'.
proof fn lemma_dot_pos_at(s: Seq<char>, d: int)
    requires
        0 <= d <= s.len(),
        d < s.len() ==> s[d] == '.',
        forall|j: int| 0 <= j < d ==> s[j] != '.',
    ensures
        dot_pos(s) == d,
    decreases s.len(),
{
    if s.len() > 0 && s[0] != '.' {
        assert forall|j: int| 0 <= j < d - 1 implies s.drop_first()[j] != '.' by {
            assert(s.drop_first()[j] == s[j + 1]);
        }
        lemma_dot_pos_at(s.drop_first(), d - 1);
    }
}

proof fn lemma_pow10_add(a: nat, b: nat)
    ensures
        pow10(a + b) == pow10(a) * pow10(b),
    decreases a,
{
    if a > 0 {
        lemma_pow10_add((a - 1) as nat, b);
        assert(pow10(a + b) == 10 * pow10((a - 1) as nat + b));
        assert(pow10(a) == 10 * pow10((a - 1) as nat));
        let x = pow10((a - 1) as nat);
        let y = pow10(b);
        assert(10 * (x * y) == (10 * x) * y) by (nonlinear_arith);
        assert(pow10(a + b) == 10 * (x * y));
        assert(pow10(a) * pow10(b) == (10 * x) * y);
    } else {
        assert(pow10(a + b) == pow10(b));
        assert(pow10(a) == 1);
    }
}

fn pow10_u64(e: u32) -> (r: u64)
    requires
        e <= 8,
    ensures
        r as nat == pow10(e as nat),
{
    let mut r: u64 = 1;
    let mut i: u32 = 0;
    while i < e
        invariant
            i <= e <= 8,
            r as nat == pow10(i as nat),
        decreases e - i,
    {
        proof {
            lemma_pow10_bound(i as nat);
        }
        r = r * 10;
        i = i + 1;
    }
    r
}

/// Parse a decimal text into fixed-point ticks; any other text denotes 0.
pub fn parse_fixed(s: &str) -> (r: u64)
    ensures
        r == fixed_of(s@),
        r <= FIXED_MAX,
{
    let n = s.unicode_len();
    let mut dot: usize = n;  // position of the '.', n while none is seen
    let mut i: usize = 0;
    while i < n
        invariant
            i <= n,
            n == s@.len(),
            dot == n || (dot < i && s@[dot as int] == '.'),
            forall|j: int|
                0 <= j < i && j != dot ==> is_dec_digit(#[trigger] s@[j]) && s@[j] != '.',
        decreases n - i,
    {
        let c = s.get_char(i);
        let u = c as u32;
        if 48 <= u && u <= 57 {
            // a digit, fine wherever it stands
        } else if c == '.' {
            if dot < n {
                proof {
                    lemma_dot_pos_at(s@, dot as int);
                    let fp = frac_part(s@);
                    assert(fp[i - dot - 1] == s@[i as int]);
                    assert(!is_dec_digit(fp[i - dot - 1]));
                }
                return 0;
            }
            dot = i;
        } else {
            proof {
                lemma_not_decimal_at(s@, dot as int, i as int);
            }
            return 0;
        }
        i += 1;
    }
    proof {
        if dot < n {
            lemma_dot_pos_at(s@, dot as int);
        } else {
            lemma_dot_pos_at(s@, n as int);
        }
        assert(all_digits(int_part(s@)));
        assert forall|j: int| 0 <= j < frac_part(s@).len() implies is_dec_digit(
            #[trigger] frac_part(s@)[j],
        ) by {
            assert(frac_part(s@)[j] == s@[dot + 1 + j]);
        }
    }
    let int_len = dot;  // dot == n means the whole text is the integer part
    let frac_len = if dot < n {
        n - dot - 1
    } else {
        0
    };
    if int_len == 0 && frac_len == 0 {
        return 0;  // no digit at all: empty text or a lone '.'
    }
    // value of the integer part
    let mut acc: u64 = 0;
    let mut j: usize = 0;
    while j < int_len
        invariant
            j <= int_len <= n == s@.len(),
            int_len as int == dot_pos(s@),
            all_digits(int_part(s@)),
            acc as nat == dec_val(s@.take(j as int)),
            acc <= FIXED_MAX,
        decreases int_len - j,
    {
        assert(is_dec_digit(s@[j as int])) by {
            assert(int_part(s@)[j as int] == s@[j as int]);
        }
        let c = s.get_char(j);
        let d = ((c as u32) - 48) as u64;
        proof {
            lemma_dec_val_take_succ(s@, j as int);
        }
        if (acc as u128) * 10 + (d as u128) > FIXED_MAX as u128 {
            proof {
                lemma_dec_val_take_mono(s@, j as int + 1, int_len as int);
                assert(s@.take(int_len as int) == int_part(s@));
                let ip = dec_val(int_part(s@));
                assert(dec_units(s@) >= ip * (FRAC_SCALE as nat));
                assert(ip * (FRAC_SCALE as nat) >= ip * 1) by (nonlinear_arith);
            }
            return 0;
        }
        acc = acc * 10 + d;
        j += 1;
    }
    assert(s@.take(int_len as int) == int_part(s@));
    // value of the first FRAC_DIGITS fraction digits
    let mut facc: u64 = 0;
    let mut fd: u32 = 0;
    if dot < n {
        let mut k = dot + 1;
        while k < n && fd < 8
            invariant
                dot_pos(s@) == dot < n == s@.len(),
                dot + 1 <= k <= n,
                k == dot + 1 + fd,
                fd <= 8,
                all_digits(frac_part(s@)),
                facc as nat == dec_val(frac_part(s@).take(fd as int)),
                (facc as nat) < pow10(fd as nat),
            decreases n - k,
        {
            let ghost fp = frac_part(s@);
            assert(fp[fd as int] == s@[k as int]);
            let c = s.get_char(k);
            let d = ((c as u32) - 48) as u64;
            proof {
                lemma_pow10_bound(fd as nat);
                lemma_dec_val_take_succ(fp, fd as int);
            }
            facc = facc * 10 + d;
            fd += 1;
            k += 1;
        }
    }
    proof {
        let fp = frac_part(s@);
        let f8 = fp.take(
            if fp.len() <= FRAC_DIGITS { fp.len() as int } else { FRAC_DIGITS as int },
        );
        assert(f8 == fp.take(fd as int));
    }
    let scale = pow10_u64(8 - fd);
    proof {
        lemma_pow10_add(fd as nat, (8 - fd) as nat);
        reveal_with_fuel(pow10, 9);
        assert((facc as nat) * (scale as nat) < pow10(fd as nat) * pow10((8 - fd) as nat))
            by (nonlinear_arith)
            requires
                (facc as nat) < pow10(fd as nat),
                scale as nat == pow10((8 - fd) as nat),
                pow10((8 - fd) as nat) >= 1,
        ;
    }
    let fscaled = facc * scale;
    // range check: at most FIXED_MAX ticks
    if acc > FIXED_MAX / FRAC_SCALE {
        proof {
            let ip = dec_val(int_part(s@));
            assert(dec_units(s@) >= ip * (FRAC_SCALE as nat));
        }
        return 0;
    }
    let hi = acc * FRAC_SCALE;
    if hi > FIXED_MAX - fscaled {
        return 0;
    }
    assert(is_decimal_text(s@)) by {
        assert(int_part(s@).len() + frac_part(s@).len() >= 1);
    };
    hi + fscaled
}

/// A character that is neither a digit nor a '.' makes the text invalid.
proof fn lemma_not_decimal_at(s: Seq<char>, dot: int, i: int)
    requires
        0 <= i < s.len(),
        dot <= s.len(),
        !is_dec_digit(s[i]),
        s[i] != '.',
        dot == s.len() ==> forall|j: int| 0 <= j < i ==> s[j] != '.',
        dot < s.len() ==> 0 <= dot < i && s[dot] == '.' && forall|j: int|
            0 <= j < i && j != dot ==> s[j] != '.',
    ensures
        !is_decimal_text(s),
{
    if dot < s.len() {
        lemma_dot_pos_at(s, dot);
        assert(frac_part(s)[i - dot - 1] == s[i]);
    } else {
        lemma_dot_pos(s);
        if dot_pos(s) <= i {
            assert(s[dot_pos(s)] == '.');
            assert(false);
        }
        assert(int_part(s)[i] == s[i]);
    }
}

} // verus!
