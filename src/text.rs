use vstd::prelude::*;
use vstd::std_specs::iter::IteratorSpec;

verus! {

pub open spec fn is_digit(c: char) -> bool {
    '0' <= c <= '9'
}

pub open spec fn is_alnum(c: char) -> bool {
    is_digit(c) || ('a' <= c <= 'z') || ('A' <= c <= 'Z')
}

pub open spec fn all_digits(s: Seq<char>) -> bool {
    forall|i: int| 0 <= i < s.len() ==> is_digit(#[trigger] s[i])
}

pub open spec fn all_alnum(s: Seq<char>) -> bool {
    forall|i: int| 0 <= i < s.len() ==> is_alnum(#[trigger] s[i])
}

/// Value of a string of decimal digits.
pub open spec fn nat_value(s: Seq<char>) -> nat
    decreases s.len(),
{
    if s.len() == 0 {
        0
    } else {
        nat_value(s.drop_last()) * 10 + (s.last() as nat - '0' as nat) as nat
    }
}

/// Index of the first `c` in `s`, or the length of `s` when there is none.
pub open spec fn first_of(s: Seq<char>, c: char) -> int
    decreases s.len(),
{
    if s.len() == 0 {
        0
    } else {
        let f = first_of(s.drop_last(), c);
        if f < s.len() - 1 {
            f
        } else if s.last() == c {
            s.len() - 1
        } else {
            s.len() as int
        }
    }
}

/// Pieces of `s` between the occurrences of `sep`; one piece when there is
/// none.
pub open spec fn split_on(s: Seq<char>, sep: char) -> Seq<Seq<char>>
    decreases s.len(),
{
    let k = first_of(s, sep);
    if k >= s.len() || k < 0 {
        seq![s]
    } else {
        seq![s.take(k)] + split_on(s.skip(k + 1), sep)
    }
}

/// `s` with its carriage returns and line feeds removed.
pub open spec fn without_line_breaks(s: Seq<char>) -> Seq<char>
    decreases s.len(),
{
    if s.len() == 0 {
        s
    } else if s.last() == '\r' || s.last() == '\n' {
        without_line_breaks(s.drop_last())
    } else {
        without_line_breaks(s.drop_last()).push(s.last())
    }
}

pub proof fn lemma_first_of(s: Seq<char>, c: char, i: int)
    requires
        0 <= i <= s.len(),
        forall|j: int| 0 <= j < i ==> s[j] != c,
        i < s.len() ==> s[i] == c,
    ensures
        first_of(s, c) == i,
    decreases s.len(),
{
    if s.len() > 0 {
        if i < s.len() {
            if i < s.len() - 1 {
                lemma_first_of(s.drop_last(), c, i);
            } else {
                lemma_first_of(s.drop_last(), c, s.len() - 1);
            }
        } else {
            lemma_first_of(s.drop_last(), c, s.len() - 1);
        }
    }
}

pub proof fn lemma_first_of_bounds(s: Seq<char>, c: char)
    ensures
        0 <= first_of(s, c) <= s.len(),
        first_of(s, c) < s.len() ==> s[first_of(s, c)] == c,
        forall|j: int| 0 <= j < first_of(s, c) ==> s[j] != c,
    decreases s.len(),
{
    if s.len() > 0 {
        lemma_first_of_bounds(s.drop_last(), c);
        assert forall|j: int| 0 <= j < first_of(s, c) implies s[j] != c by {
            if j < s.len() - 1 {
                assert(s.drop_last()[j] == s[j]);
            }
        }
    }
}

/// Position of the first `c` in `s[from..to]`, or `to`.
pub fn find_char(s: &Vec<char>, from: usize, to: usize, c: char) -> (r: usize)
    requires
        from <= to <= s@.len(),
    ensures
        from <= r <= to,
        r - from == first_of(s@.subrange(from as int, to as int), c),
{
    let mut i = from;
    while i < to && s[i] != c
        invariant
            from <= i <= to <= s@.len(),
            forall|j: int| from <= j < i ==> s@[j] != c,
        decreases to - i,
    {
        i = i + 1;
    }
    proof {
        lemma_first_of(s@.subrange(from as int, to as int), c, i - from);
    }
    i
}

/// Whether `s[from..to]` is the text `lit`.
pub fn is_text(s: &Vec<char>, from: usize, to: usize, lit: &[char]) -> (r: bool)
    requires
        from <= to <= s@.len(),
    ensures
        r == (s@.subrange(from as int, to as int) == lit@),
{
    if to - from != lit.len() {
        return false;
    }
    let mut i: usize = 0;
    while i < lit.len()
        invariant
            to - from == lit@.len(),
            from <= to <= s@.len(),
            i <= lit@.len(),
            forall|j: int| 0 <= j < i ==> s@[from + j] == lit@[j],
        decreases lit@.len() - i,
    {
        if s[from + i] != lit[i] {
            assert(s@.subrange(from as int, to as int)[i as int] != lit@[i as int]);
            return false;
        }
        i = i + 1;
    }
    assert(s@.subrange(from as int, to as int) =~= lit@);
    true
}

/// Whether `s[from..to]` is made of decimal digits only.
pub fn digits_only(s: &Vec<char>, from: usize, to: usize) -> (r: bool)
    requires
        from <= to <= s@.len(),
    ensures
        r == all_digits(s@.subrange(from as int, to as int)),
{
    let mut i = from;
    while i < to
        invariant
            from <= i <= to <= s@.len(),
            forall|j: int| from <= j < i ==> is_digit(s@[j]),
        decreases to - i,
    {
        if !('0' <= s[i] && s[i] <= '9') {
            assert(!is_digit(s@.subrange(from as int, to as int)[i - from]));
            return false;
        }
        i = i + 1;
    }
    true
}

/// Whether `s[from..to]` is made of ASCII letters and digits only.
pub fn alnum_only(s: &Vec<char>, from: usize, to: usize) -> (r: bool)
    requires
        from <= to <= s@.len(),
    ensures
        r == all_alnum(s@.subrange(from as int, to as int)),
{
    let mut i = from;
    while i < to
        invariant
            from <= i <= to <= s@.len(),
            forall|j: int| from <= j < i ==> is_alnum(s@[j]),
        decreases to - i,
    {
        let c = s[i];
        if !(('0' <= c && c <= '9') || ('a' <= c && c <= 'z') || ('A' <= c && c <= 'Z')) {
            assert(!is_alnum(s@.subrange(from as int, to as int)[i - from]));
            return false;
        }
        i = i + 1;
    }
    true
}

/// Value of the digits `s[from..to]`, or `None` when it exceeds `u32`.
pub fn parse_u32(s: &Vec<char>, from: usize, to: usize) -> (r: Option<u32>)
    requires
        from <= to <= s@.len(),
        all_digits(s@.subrange(from as int, to as int)),
    ensures
        r == (if nat_value(s@.subrange(from as int, to as int)) <= u32::MAX {
            Some(nat_value(s@.subrange(from as int, to as int)) as u32)
        } else {
            None::<u32>
        }),
{
    let mut v: u64 = 0;
    let mut i = from;
    while i < to
        invariant
            from <= i <= to <= s@.len(),
            all_digits(s@.subrange(from as int, to as int)),
            v == nat_value(s@.subrange(from as int, i as int)),
            v <= u32::MAX,
        decreases to - i,
    {
        assert(is_digit(s@.subrange(from as int, to as int)[i - from]));
        assert(s@.subrange(from as int, i + 1).drop_last() =~= s@.subrange(from as int, i as int));
        let d = (s[i] as u32 - '0' as u32) as u64;
        v = v * 10 + d;
        if v > u32::MAX as u64 {
            proof {
                lemma_nat_value_grows(s@.subrange(from as int, to as int), i + 1 - from);
                assert(s@.subrange(from as int, to as int).take(i + 1 - from) =~= s@.subrange(from as int, i + 1));
            }
            return None;
        }
        i = i + 1;
    }
    Some(v as u32)
}

/// A prefix of a digit string is worth no more than the whole.
pub proof fn lemma_nat_value_grows(s: Seq<char>, k: int)
    requires
        0 <= k <= s.len(),
        all_digits(s),
    ensures
        nat_value(s.take(k)) <= nat_value(s),
    decreases s.len(),
{
    if k < s.len() {
        assert(s.drop_last().take(k) =~= s.take(k));
        lemma_nat_value_grows(s.drop_last(), k);
        assert(s.take(s.len() as int) =~= s);
    } else {
        assert(s.take(k) =~= s);
    }
}

/// Copies of `s[from..to]`.
pub fn sub_chars(s: &Vec<char>, from: usize, to: usize) -> (r: Vec<char>)
    requires
        from <= to <= s@.len(),
    ensures
        r@ == s@.subrange(from as int, to as int),
{
    let mut r: Vec<char> = Vec::new();
    let mut i = from;
    while i < to
        invariant
            from <= i <= to <= s@.len(),
            r@ == s@.subrange(from as int, i as int),
        decreases to - i,
    {
        r.push(s[i]);
        proof {
            assert(r@ =~= s@.subrange(from as int, i + 1));
        }
        i = i + 1;
    }
    r
}

/// Relies on std's `FromIterator<char> for String`: the string of the
/// given characters, in order.
#[verifier::external_body]
pub(crate) fn string_of(cs: &[char]) -> (r: String)
    ensures
        r@ == cs@,
{
    cs.iter().collect()
}

/// The characters of `s` in order.
pub fn chars_of(s: &str) -> (r: Vec<char>)
    ensures
        r@ == s@,
{
    broadcast use vstd::string::group_string_axioms;

    let mut it = s.chars();
    let mut r: Vec<char> = Vec::new();
    loop
        invariant
            r@.len() <= s@.len(),
            r@ == s@.take(r@.len() as int),
            it.remaining() == s@.skip(r@.len() as int),
        ensures
            r@ == s@,
        decreases s@.len() - r@.len(),
    {
        let ghost rem = it.remaining();
        match it.next() {
            Some(c) => {
                proof {
                    assert(s@.take(r@.len() as int + 1) =~= s@.take(r@.len() as int).push(c));
                    assert(s@.skip(r@.len() as int + 1) =~= s@.skip(r@.len() as int).drop_first());
                }
                r.push(c);
            },
            None => {
                proof {
                    assert(rem.len() == 0);
                    assert(rem.len() == s@.len() - r@.len());
                    assert(s@.take(r@.len() as int) =~= s@);
                }
                break;
            },
        }
    }
    r
}

/// The text `s[from..to]` as a `String`.
pub fn text_of(s: &Vec<char>, from: usize, to: usize) -> (r: String)
    requires
        from <= to <= s@.len(),
    ensures
        r@ == s@.subrange(from as int, to as int),
{
    let v = sub_chars(s, from, to);
    string_of(v.as_slice())
}

/// Text of an optionally signed integer: `[+-]?[0-9]+`.
pub open spec fn int_shape(s: Seq<char>) -> bool {
    &&& s.len() > 0
    &&& if s[0] == '+' || s[0] == '-' {
        s.len() > 1 && all_digits(s.skip(1))
    } else {
        all_digits(s)
    }
}

/// Value of an optionally signed integer.
pub open spec fn int_value(s: Seq<char>) -> int {
    if s.len() > 0 && s[0] == '-' {
        -(nat_value(s.skip(1)) as int)
    } else if s.len() > 0 && s[0] == '+' {
        nat_value(s.skip(1)) as int
    } else {
        nat_value(s) as int
    }
}

/// Value of the signed integer `s[from..to]`, or `None` outside `i32`.
pub fn parse_i32(s: &Vec<char>, from: usize, to: usize) -> (r: Option<i32>)
    requires
        from <= to <= s@.len(),
        int_shape(s@.subrange(from as int, to as int)),
    ensures
        r == (if i32::MIN <= int_value(s@.subrange(from as int, to as int)) <= i32::MAX {
            Some(int_value(s@.subrange(from as int, to as int)) as i32)
        } else {
            None::<i32>
        }),
{
    let ghost t = s@.subrange(from as int, to as int);
    let neg = s[from] == '-';
    let start = if s[from] == '-' || s[from] == '+' { from + 1 } else { from };
    proof {
        assert(t[0] == s@[from as int]);
        if start == from + 1 {
            assert(t.skip(1) =~= s@.subrange(start as int, to as int));
        } else {
            assert(t =~= s@.subrange(start as int, to as int));
        }
    }
    match parse_u32(s, start, to) {
        None => None,
        Some(v) => {
            if neg {
                if v <= 2147483648 {
                    Some((0i64 - v as i64) as i32)
                } else {
                    None
                }
            } else {
                if v <= 2147483647 {
                    Some(v as i32)
                } else {
                    None
                }
            }
        },
    }
}

/// Text of the mantissa of a decimal number:
/// `[+-]?([0-9]+(\.[0-9]*)?|\.[0-9]+)`.
pub open spec fn mantissa_shape(s: Seq<char>) -> bool {
    let t = if s.len() > 0 && (s[0] == '+' || s[0] == '-') { s.skip(1) } else { s };
    let k = first_of(t, '.');
    if k >= t.len() {
        t.len() > 0 && all_digits(t)
    } else {
        all_digits(t.take(k)) && all_digits(t.skip(k + 1)) && (k > 0 || t.len() > k + 1)
    }
}

/// The digits of a mantissa, point left out, and the number of them after
/// the point.
pub open spec fn decimal_digits(s: Seq<char>) -> (Seq<char>, nat) {
    let t = if s.len() > 0 && (s[0] == '+' || s[0] == '-') { s.skip(1) } else { s };
    let k = first_of(t, '.');
    if k >= t.len() {
        (t, 0)
    } else {
        (t.take(k) + t.skip(k + 1), (t.len() - k - 1) as nat)
    }
}

/// Position of the exponent mark `e` or `E` of a number, or its length when
/// it has none.
pub open spec fn exponent_mark(s: Seq<char>) -> int {
    let a = first_of(s, 'e');
    let b = first_of(s, 'E');
    if a < b {
        a
    } else {
        b
    }
}

/// Text of a finite floating-point number in decimal notation: a mantissa
/// `[+-]?([0-9]+(\.[0-9]*)?|\.[0-9]+)`, then optionally an exponent
/// `[eE][+-]?[0-9]+`. The words `inf`, `infinity` and `NaN`, which a float
/// reader also takes, stand for no finite number, appear in no Gerber
/// parameter, and are not of this shape.
pub open spec fn decimal_shape(s: Seq<char>) -> bool {
    let k = exponent_mark(s);
    mantissa_shape(s.take(k)) && (k >= s.len() || int_shape(s.skip(k + 1)))
}

/// An exact decimal number of any length: its sign, its digits with the
/// point left out, how many of them follow the point, and the sign and
/// digits of its power of ten (no digits: no exponent). Its value is
/// `(-1 if negative) * digits * 10^((-1 if exponent_negative) * exponent - scale)`.
#[derive(Clone, Debug)]
pub struct Decimal {
    pub negative: bool,
    pub digits: String,
    pub scale: usize,
    pub exponent_negative: bool,
    pub exponent: String,
}

pub struct DecimalModel {
    pub negative: bool,
    pub digits: Seq<char>,
    pub scale: nat,
    pub exponent_negative: bool,
    pub exponent: Seq<char>,
}

impl View for Decimal {
    type V = DecimalModel;

    open spec fn view(&self) -> DecimalModel {
        DecimalModel {
            negative: self.negative,
            digits: self.digits@,
            scale: self.scale as nat,
            exponent_negative: self.exponent_negative,
            exponent: self.exponent@,
        }
    }
}

/// Digits of an optionally signed integer.
pub open spec fn unsigned_part(e: Seq<char>) -> Seq<char> {
    if e.len() > 0 && (e[0] == '+' || e[0] == '-') {
        e.skip(1)
    } else {
        e
    }
}

/// The decimal number that a text of `decimal_shape` denotes.
pub open spec fn decimal_value(s: Seq<char>) -> DecimalModel {
    let k = exponent_mark(s);
    let m = s.take(k);
    let (d, sc) = decimal_digits(m);
    let e: Seq<char> = if k < s.len() { s.skip(k + 1) } else { Seq::empty() };
    DecimalModel {
        negative: m.len() > 0 && m[0] == '-',
        digits: d,
        scale: sc,
        exponent_negative: e.len() > 0 && e[0] == '-',
        exponent: unsigned_part(e),
    }
}

/// Position of the exponent mark in `s[from..to]`, or `to`.
fn find_exponent(s: &Vec<char>, from: usize, to: usize) -> (r: usize)
    requires
        from <= to <= s@.len(),
    ensures
        from <= r <= to,
        r - from == exponent_mark(s@.subrange(from as int, to as int)),
{
    let a = find_char(s, from, to, 'e');
    let b = find_char(s, from, to, 'E');
    if a < b {
        a
    } else {
        b
    }
}

/// Whether `s[from..to]` is an optionally signed integer.
pub fn int_text(s: &Vec<char>, from: usize, to: usize) -> (r: bool)
    requires
        from <= to <= s@.len(),
    ensures
        r == int_shape(s@.subrange(from as int, to as int)),
{
    if from == to {
        return false;
    }
    let ghost t = s@.subrange(from as int, to as int);
    if s[from] == '+' || s[from] == '-' {
        proof {
            assert(t.skip(1) =~= s@.subrange(from + 1, to as int));
        }
        from + 1 < to && digits_only(s, from + 1, to)
    } else {
        digits_only(s, from, to)
    }
}

/// Whether `s[from..to]` is a mantissa.
fn mantissa_text(s: &Vec<char>, from: usize, to: usize) -> (r: bool)
    requires
        from <= to <= s@.len(),
    ensures
        r == mantissa_shape(s@.subrange(from as int, to as int)),
{
    let ghost t0 = s@.subrange(from as int, to as int);
    let start = if from < to && (s[from] == '-' || s[from] == '+') { from + 1 } else { from };
    let ghost t = s@.subrange(start as int, to as int);
    proof {
        if start == from + 1 {
            assert(t0.skip(1) =~= t);
        } else {
            assert(t0 =~= t);
        }
    }
    let k = find_char(s, start, to, '.');
    if k >= to {
        start < to && digits_only(s, start, to)
    } else {
        proof {
            assert(t.take(k - start) =~= s@.subrange(start as int, k as int));
            assert(t.skip(k - start + 1) =~= s@.subrange(k + 1, to as int));
        }
        digits_only(s, start, k) && digits_only(s, k + 1, to) && (k > start || to > k + 1)
    }
}

/// Whether `s[from..to]` is a decimal number.
pub fn decimal_text(s: &Vec<char>, from: usize, to: usize) -> (r: bool)
    requires
        from <= to <= s@.len(),
    ensures
        r == decimal_shape(s@.subrange(from as int, to as int)),
{
    let k = find_exponent(s, from, to);
    proof {
        let t = s@.subrange(from as int, to as int);
        assert(t.take(k - from) =~= s@.subrange(from as int, k as int));
        if k < to {
            assert(t.skip(k - from + 1) =~= s@.subrange(k + 1, to as int));
        }
    }
    mantissa_text(s, from, k) && (k >= to || int_text(s, k + 1, to))
}

/// The decimal number `s[from..to]`.
pub fn parse_decimal(s: &Vec<char>, from: usize, to: usize) -> (r: Decimal)
    requires
        from <= to <= s@.len(),
        decimal_shape(s@.subrange(from as int, to as int)),
    ensures
        r@ == decimal_value(s@.subrange(from as int, to as int)),
{
    let ghost t = s@.subrange(from as int, to as int);
    let k = find_exponent(s, from, to);
    proof {
        assert(t.take(k - from) =~= s@.subrange(from as int, k as int));
    }
    let (negative, digits, scale) = read_mantissa(s, from, k);
    if k < to {
        let ghost e = s@.subrange(k + 1, to as int);
        proof {
            assert(t.skip(k - from + 1) =~= e);
            assert(e[0] == s@[k + 1]);
        }
        let exponent_negative = s[k + 1] == '-';
        let start = if s[k + 1] == '-' || s[k + 1] == '+' { k + 2 } else { k + 1 };
        proof {
            if start == k + 2 {
                assert(e.skip(1) =~= s@.subrange(start as int, to as int));
            } else {
                assert(e =~= s@.subrange(start as int, to as int));
            }
        }
        let exponent = text_of(s, start, to);
        Decimal { negative, digits, scale, exponent_negative, exponent }
    } else {
        let exponent = String::new();
        Decimal { negative, digits, scale, exponent_negative: false, exponent }
    }
}

/// Sign, digits and scale of the mantissa `s[from..to]`.
fn read_mantissa(s: &Vec<char>, from: usize, to: usize) -> (r: (bool, String, usize))
    requires
        from <= to <= s@.len(),
        mantissa_shape(s@.subrange(from as int, to as int)),
    ensures
        r.0 == (s@.subrange(from as int, to as int)[0] == '-'),
        r.1@ == decimal_digits(s@.subrange(from as int, to as int)).0,
        r.2 == decimal_digits(s@.subrange(from as int, to as int)).1,
{
    let ghost t0 = s@.subrange(from as int, to as int);
    let neg = s[from] == '-';
    let start = if s[from] == '-' || s[from] == '+' { from + 1 } else { from };
    let ghost t = s@.subrange(start as int, to as int);
    proof {
        assert(t0[0] == s@[from as int]);
        if start == from + 1 {
            assert(t0.skip(1) =~= t);
        } else {
            assert(t0 =~= t);
        }
    }
    let k = find_char(s, start, to, '.');
    let mut digits = sub_chars(s, start, k);
    let mut scale: usize = 0;
    if k < to {
        let frac = sub_chars(s, k + 1, to);
        scale = to - k - 1;
        let mut i: usize = 0;
        while i < frac.len()
            invariant
                i <= frac@.len(),
                digits@ == s@.subrange(start as int, k as int) + frac@.take(i as int),
            decreases frac@.len() - i,
        {
            digits.push(frac[i]);
            proof {
                assert(frac@.take(i + 1) =~= frac@.take(i as int).push(frac@[i as int]));
            }
            i = i + 1;
        }
        proof {
            assert(frac@.take(i as int) =~= frac@);
            assert(t.take(k - start) =~= s@.subrange(start as int, k as int));
            assert(t.skip(k - start + 1) =~= frac@);
        }
    } else {
        proof {
            assert(t =~= s@.subrange(start as int, k as int));
        }
    }
    proof {
        assert(all_digits(digits@));
        if start == from + 1 {
            assert(t0.skip(1) == t);
        }
        assert(digits@ == decimal_digits(t0).0);
        assert(scale == decimal_digits(t0).1);
    }
    let text = string_of(digits.as_slice());
    (neg, text, scale)
}

/// Pieces of `s[from..to]` between the occurrences of `sep`, as ranges.
pub fn split_ranges(s: &Vec<char>, from: usize, to: usize, sep: char) -> (r: Vec<(usize, usize)>)
    requires
        from <= to <= s@.len(),
    ensures
        r@.len() == split_on(s@.subrange(from as int, to as int), sep).len(),
        forall|i: int|
            0 <= i < r@.len() ==> from <= (#[trigger] r@[i]).0 <= r@[i].1 <= to && s@.subrange(
                r@[i].0 as int,
                r@[i].1 as int,
            ) == split_on(s@.subrange(from as int, to as int), sep)[i],
{
    let mut r: Vec<(usize, usize)> = Vec::new();
    let mut start = from;
    let ghost mut done: Seq<Seq<char>> = Seq::empty();
    loop
        invariant
            from <= start <= to <= s@.len(),
            split_on(s@.subrange(from as int, to as int), sep) == done + split_on(s@.subrange(start as int, to as int), sep),
            r@.len() == done.len(),
            forall|i: int|
                0 <= i < r@.len() ==> from <= (#[trigger] r@[i]).0 <= r@[i].1 <= to && s@.subrange(
                    r@[i].0 as int,
                    r@[i].1 as int,
                ) == done[i],
        decreases to - start,
    {
        let k = find_char(s, start, to, sep);
        let ghost rest = s@.subrange(start as int, to as int);
        r.push((start, k));
        if k == to {
            proof {
                assert(split_on(rest, sep) == seq![rest]);
                done = done.push(rest);
                assert(split_on(s@.subrange(from as int, to as int), sep) =~= done);
                assert(r@[r@.len() - 1] == (start, k));
            }
            proof {
                assert forall|i: int|
                    0 <= i < r@.len() implies from <= (#[trigger] r@[i]).0 <= r@[i].1 <= to && s@.subrange(
                        r@[i].0 as int,
                        r@[i].1 as int,
                    ) == split_on(s@.subrange(from as int, to as int), sep)[i] by {}
            }
            return r;
        }
        proof {
            let kk = k - start;
            assert(split_on(rest, sep) == seq![rest.take(kk)] + split_on(rest.skip(kk + 1), sep));
            assert(rest.take(kk) =~= s@.subrange(start as int, k as int));
            assert(rest.skip(kk + 1) =~= s@.subrange(k + 1, to as int));
            let d0 = done;
            done = done.push(rest.take(kk));
            assert(d0 + split_on(rest, sep) =~= done + split_on(s@.subrange(k + 1, to as int), sep));
            assert(r@[r@.len() - 1] == (start, k));
        }
        start = k + 1;
    }
}

} // verus!
