use vstd::prelude::*;

verus! {

/// Whether a character is a decimal digit.
pub open spec fn is_digit(c: char) -> bool {
    48 <= c as u32 && c as u32 <= 57
}

/// Numeric value of a decimal digit character.
pub open spec fn digit_val(c: char) -> int {
    c as u32 - 48
}

pub open spec fn all_digits(s: Seq<char>) -> bool {
    forall|i: int| 0 <= i < s.len() ==> is_digit(s[i])
}

/// Value of a digit string read in base ten.
pub open spec fn digits_val(s: Seq<char>) -> int
    decreases s.len(),
{
    if s.len() == 0 {
        0
    } else {
        digits_val(s.drop_last()) * 10 + digit_val(s.last())
    }
}

pub proof fn lemma_digits_val_nonneg(s: Seq<char>)
    requires
        all_digits(s),
    ensures
        digits_val(s) >= 0,
    decreases s.len(),
{
    if s.len() > 0 {
        assert(all_digits(s.drop_last()));
        lemma_digits_val_nonneg(s.drop_last());
    }
}

/// The value of a digit string is at least the value of any of its prefixes.
pub proof fn lemma_digits_val_prefix(s: Seq<char>, k: int)
    requires
        all_digits(s),
        0 <= k <= s.len(),
    ensures
        digits_val(s.take(k)) <= digits_val(s),
    decreases s.len(),
{
    if k < s.len() {
        assert(all_digits(s.drop_last()));
        assert(s.take(k) =~= s.drop_last().take(k));
        lemma_digits_val_prefix(s.drop_last(), k);
        lemma_digits_val_nonneg(s.drop_last());
    } else {
        assert(s.take(k) =~= s);
    }
}

/// The digits of an integer literal: the text after an optional sign.
pub open spec fn literal_digits(s: Seq<char>) -> Seq<char> {
    if s.len() > 0 && (s[0] == '-' || s[0] == '+') {
        s.drop_first()
    } else {
        s
    }
}

pub open spec fn literal_neg(s: Seq<char>) -> bool {
    s.len() > 0 && s[0] == '-'
}

/// Signed value of an integer literal, before any range check; meaningful
/// only when the literal is well-formed.
pub open spec fn literal_val(s: Seq<char>) -> int {
    if literal_neg(s) {
        -digits_val(literal_digits(s))
    } else {
        digits_val(literal_digits(s))
    }
}

/// What parsing the text as a signed 64-bit integer yields: the grammar is
/// an optional sign followed by one or more decimal digits, and the value
/// must lie within the type's range.
pub open spec fn parse_i64_spec(s: Seq<char>) -> Option<i64> {
    let ds = literal_digits(s);
    if ds.len() == 0 || !all_digits(ds) {
        None
    } else if i64::MIN <= literal_val(s) <= i64::MAX {
        Some(literal_val(s) as i64)
    } else {
        None
    }
}

/// Parse the text as a signed 64-bit integer, exactly as `parse_i64_spec`
/// describes.
pub fn parse_i64_str(s: &str) -> (r: Option<i64>)
    ensures
        r == parse_i64_spec(s@),
{
    let n = s.unicode_len();
    if n == 0 {
        return None;
    }
    let c0 = s.get_char(0);
    let neg = c0 == '-';
    let start: usize = if c0 == '-' || c0 == '+' {
        1
    } else {
        0
    };
    let ghost ds = literal_digits(s@);
    proof {
        assert(ds =~= s@.skip(start as int));
    }
    if start == n {
        return None;
    }
    let bound: u64 = if neg {
        9223372036854775808u64
    } else {
        9223372036854775807u64
    };
    let mut acc: u64 = 0;
    let mut j: usize = start;
    while j < n
        invariant
            start <= j <= n,
            n == s@.len(),
            start <= 1,
            ds == s@.skip(start as int),
            ds == literal_digits(s@),
            ds.len() == n - start,
            forall|k: int| 0 <= k < j - start ==> is_digit(ds[k]),
            acc == digits_val(ds.take(j - start)),
            acc <= bound,
            neg == literal_neg(s@),
            bound == (if neg {
                9223372036854775808u64
            } else {
                9223372036854775807u64
            }),
        decreases n - j,
    {
        let ghost k = j - start;
        let c = s.get_char(j);
        proof {
            assert(ds[k] == s@[j as int]);
        }
        let cv = c as u32;
        if cv < 48 || cv > 57 {
            proof {
                assert(!is_digit(ds[k]));
            }
            return None;
        }
        let d = (cv - 48) as u64;
        proof {
            assert(all_digits(ds.take(k)));
            assert(ds.take(k + 1).drop_last() =~= ds.take(k));
            assert(ds.take(k + 1).last() == ds[k]);
            assert(digits_val(ds.take(k + 1)) == acc * 10 + d);
            assert(all_digits(ds.take(k + 1)));
        }
        let over = if acc > bound / 10 {
            true
        } else {
            acc * 10 > bound - d
        };
        if over {
            proof {
                assert(acc * 10 + d > bound);
                if all_digits(ds) {
                    lemma_digits_val_prefix(ds, k + 1);
                    assert(digits_val(ds) > bound);
                }
            }
            return None;
        }
        acc = acc * 10 + d;
        j = j + 1;
    }
    proof {
        assert(ds.take(n - start) =~= ds);
        assert(all_digits(ds));
        lemma_digits_val_nonneg(ds);
    }
    if neg {
        let v = -(acc as i128);
        Some(v as i64)
    } else {
        Some(acc as i64)
    }
}

/// Digit character of a value below ten.
pub open spec fn digit_char(d: int) -> char {
    if d == 0 {
        '0'
    } else if d == 1 {
        '1'
    } else if d == 2 {
        '2'
    } else if d == 3 {
        '3'
    } else if d == 4 {
        '4'
    } else if d == 5 {
        '5'
    } else if d == 6 {
        '6'
    } else if d == 7 {
        '7'
    } else if d == 8 {
        '8'
    } else {
        '9'
    }
}

fn digit_char_ex(d: u64) -> (c: char)
    requires
        d < 10,
    ensures
        c == digit_char(d as int),
{
    if d == 0 {
        '0'
    } else if d == 1 {
        '1'
    } else if d == 2 {
        '2'
    } else if d == 3 {
        '3'
    } else if d == 4 {
        '4'
    } else if d == 5 {
        '5'
    } else if d == 6 {
        '6'
    } else if d == 7 {
        '7'
    } else if d == 8 {
        '8'
    } else {
        '9'
    }
}

/// Decimal digits of a non-negative integer, most significant first.
pub open spec fn dec_digits(n: int) -> Seq<char>
    decreases n,
{
    if n < 10 {
        seq![digit_char(n)]
    } else {
        dec_digits(n / 10).push(digit_char(n % 10))
    }
}

/// Decimal text of a signed integer: a minus sign for negative values,
/// then the digits of the magnitude.
pub open spec fn dec_str_i64(v: int) -> Seq<char> {
    if v < 0 {
        seq!['-'] + dec_digits(-v)
    } else {
        dec_digits(v)
    }
}

/// Decimal text of a signed 64-bit integer, as `dec_str_i64` describes.
pub fn i64_to_string(v: i64) -> (r: String)
    ensures
        r@ == dec_str_i64(v as int),
{
    let neg = v < 0;
    let m: u64 = if v >= 0 {
        v as u64
    } else {
        (-(v as i128)) as u64
    };
    let mut digs: Vec<char> = Vec::new();
    if m == 0 {
        digs.push('0');
        proof {
            assert(digs@.reverse() =~= dec_digits(m as int));
        }
    } else {
        let mut x = m;
        while x > 0
            invariant
                0 <= x <= m,
            x > 0 ==> dec_digits(m as int) == dec_digits(x as int) + digs@.reverse(),
            x == 0 ==> dec_digits(m as int) == digs@.reverse(),
            decreases x,
        {
            let ghost digs0 = digs@;
            let ghost x0 = x as int;
            let d = x % 10;
            let c = digit_char_ex(d);
            digs.push(c);
            x = x / 10;
            proof {
                assert(digs@.reverse() =~= seq![c] + digs0.reverse());
                if x > 0 {
                    assert(x0 >= 10);
                    assert(dec_digits(x0) == dec_digits(x0 / 10).push(digit_char(x0 % 10)));
                    assert(dec_digits(x0 / 10).push(c) + digs0.reverse() =~= dec_digits(x0 / 10)
                        + (seq![c] + digs0.reverse()));
                } else {
                    assert(x0 < 10);
                    assert(dec_digits(x0) =~= seq![c]);
                }
            }
        }
    }
    let mut out: Vec<char> = Vec::new();
    if neg {
        out.push('-');
    }
    let ghost sign: Seq<char> = if neg {
        seq!['-']
    } else {
        Seq::empty()
    };
    let nd = digs.len();
    let mut i: usize = 0;
    while i < nd
        invariant
            0 <= i <= nd,
            nd == digs@.len(),
            out@ == sign + digs@.reverse().take(i as int),
        decreases nd - i,
    {
        out.push(digs[nd - 1 - i]);
        proof {
            assert(digs@.reverse()[i as int] == digs@[nd - 1 - i]);
            assert(out@ =~= sign + digs@.reverse().take(i + 1));
        }
        i = i + 1;
    }
    proof {
        assert(digs@.reverse().take(nd as int) =~= digs@.reverse());
        assert(out@ =~= dec_str_i64(v as int));
    }
    crate::text::string_from_chars(&out)
}

/// Sum of two 64-bit values with wrap-around on overflow.
pub open spec fn wrap_add(a: i64, b: i64) -> i64 {
    vstd::wrapping::i64_specs::wrapping_add(a, b)
}

/// Sum of the values, folded left with wrap-around on overflow.
pub open spec fn sum_wrapped(vals: Seq<i64>) -> i64
    decreases vals.len(),
{
    if vals.len() == 0 {
        0i64
    } else {
        wrap_add(sum_wrapped(vals.drop_last()), vals.last())
    }
}

/// Mathematical sum of the values.
pub open spec fn math_sum(vals: Seq<i64>) -> int
    decreases vals.len(),
{
    if vals.len() == 0 {
        0
    } else {
        math_sum(vals.drop_last()) + vals.last()
    }
}

/// Whether `a` and `b` differ by exactly `k` times two to the sixty-fourth.
pub open spec fn off_by_wraps(a: int, b: int, k: int) -> bool {
    a == b + k * 0x1_0000_0000_0000_0000
}

/// The wrapped sum differs from the mathematical sum by a multiple of
/// two to the sixty-fourth.
pub proof fn lemma_sum_congruent(vals: Seq<i64>)
    ensures
        exists|k: int| off_by_wraps(sum_wrapped(vals) as int, math_sum(vals), k),
    decreases vals.len(),
{
    if vals.len() == 0 {
        assert(off_by_wraps(sum_wrapped(vals) as int, math_sum(vals), 0));
    } else {
        lemma_sum_congruent(vals.drop_last());
        let k0 = choose|k: int|
            off_by_wraps(sum_wrapped(vals.drop_last()) as int, math_sum(vals.drop_last()), k);
        let w = sum_wrapped(vals.drop_last());
        let b = vals.last();
        if w + b > i64::MAX {
            assert(sum_wrapped(vals) == math_sum(vals) + (k0 - 1) * 0x1_0000_0000_0000_0000)
                by (nonlinear_arith)
                requires
                    sum_wrapped(vals) == w + b - 0x1_0000_0000_0000_0000,
                    w == math_sum(vals.drop_last()) + k0 * 0x1_0000_0000_0000_0000,
                    math_sum(vals) == math_sum(vals.drop_last()) + b,
            ;
            assert(off_by_wraps(sum_wrapped(vals) as int, math_sum(vals), k0 - 1));
        } else if w + b < i64::MIN {
            assert(sum_wrapped(vals) == math_sum(vals) + (k0 + 1) * 0x1_0000_0000_0000_0000)
                by (nonlinear_arith)
                requires
                    sum_wrapped(vals) == w + b + 0x1_0000_0000_0000_0000,
                    w == math_sum(vals.drop_last()) + k0 * 0x1_0000_0000_0000_0000,
                    math_sum(vals) == math_sum(vals.drop_last()) + b,
            ;
            assert(off_by_wraps(sum_wrapped(vals) as int, math_sum(vals), k0 + 1));
        } else {
            assert(off_by_wraps(sum_wrapped(vals) as int, math_sum(vals), k0));
        }
    }
}

/// When the mathematical sum lies in the 64-bit range, the wrapped sum
/// equals it.
pub proof fn lemma_sum_exact(vals: Seq<i64>)
    requires
        i64::MIN <= math_sum(vals) <= i64::MAX,
    ensures
        sum_wrapped(vals) == math_sum(vals),
{
    lemma_sum_congruent(vals);
    let k = choose|k: int| off_by_wraps(sum_wrapped(vals) as int, math_sum(vals), k);
    if k > 0 {
        assert(k * 0x1_0000_0000_0000_0000 >= 0x1_0000_0000_0000_0000) by (nonlinear_arith)
            requires
                k >= 1,
        ;
    } else if k < 0 {
        assert(k * 0x1_0000_0000_0000_0000 <= -0x1_0000_0000_0000_0000) by (nonlinear_arith)
            requires
                k <= -1,
        ;
    }
}

pub open spec fn all_parse(lines: Seq<Seq<char>>) -> bool {
    forall|i: int| 0 <= i < lines.len() ==> parse_i64_spec(lines[i]) is Some
}

/// The 64-bit values the lines parse to; meaningful only when every line
/// parses.
pub open spec fn parsed_vals(lines: Seq<Seq<char>>) -> Seq<i64> {
    Seq::new(lines.len(), |i: int| parse_i64_spec(lines[i]).unwrap())
}

/// Parse every line as a signed 64-bit integer and sum the values with
/// wrap-around; on the first line that does not parse, report its index.
pub fn sum_lines(lines: &Vec<String>) -> (r: Result<i64, usize>)
    ensures
        match r {
            Ok(v) => all_parse(lines.deep_view()) && v == sum_wrapped(parsed_vals(lines.deep_view())),
            Err(i) => {
                &&& i < lines.deep_view().len()
                &&& parse_i64_spec(lines.deep_view()[i as int]) is None
                &&& forall|k: int|
                    0 <= k < i ==> parse_i64_spec(lines.deep_view()[k]) is Some
            },
        },
{
    let ghost dv = lines.deep_view();
    let mut acc: i64 = 0;
    let mut j: usize = 0;
    while j < lines.len()
        invariant
            0 <= j <= lines@.len(),
            dv == lines.deep_view(),
            dv.len() == lines@.len(),
            forall|k: int| 0 <= k < j ==> parse_i64_spec(dv[k]) is Some,
            acc == sum_wrapped(Seq::new(j as nat, |i: int| parse_i64_spec(dv[i]).unwrap())),
        decreases lines@.len() - j,
    {
        proof {
            assert(lines@[j as int]@ == dv[j as int]);
        }
        match parse_i64_str(lines[j].as_str()) {
            Some(x) => {
                let ghost pv = Seq::new(j as nat, |i: int| parse_i64_spec(dv[i]).unwrap());
                acc = acc.wrapping_add(x);
                proof {
                    let pv1 = Seq::new((j + 1) as nat, |i: int| parse_i64_spec(dv[i]).unwrap());
                    assert(pv1.drop_last() =~= pv);
                    assert(pv1.last() == x);
                }
                j = j + 1;
            },
            None => {
                return Err(j);
            },
        }
    }
    proof {
        assert(Seq::new(j as nat, |i: int| parse_i64_spec(dv[i]).unwrap()) =~= parsed_vals(dv));
    }
    Ok(acc)
}

} // verus!
