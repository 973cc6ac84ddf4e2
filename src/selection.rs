//! Parsing of the selection syntax: numbers and ranges such as `1,2,5-8`.
use vstd::prelude::*;
use crate::text::{chars_of, contains_char, lemma_split_len, split};

verus! {

/// Why a selection was refused.
#[derive(Debug, Clone, Copy, PartialEq, Eq, Structural)]
pub enum InputParseError {
    /// The text matches none of the accepted forms.
    BadFormat,
}

pub open spec fn is_digit(c: char) -> bool {
    '0' <= c && c <= '9'
}

pub open spec fn all_digits(s: Seq<char>) -> bool {
    forall|i: int| 0 <= i < s.len() ==> is_digit(#[trigger] s[i])
}

/// The value of a string of decimal digits.
pub open spec fn digits_value(s: Seq<char>) -> nat
    decreases s.len(),
{
    if s.len() == 0 {
        0
    } else {
        digits_value(s.drop_last()) * 10 + (s.last() as nat - '0' as nat) as nat
    }
}

/// The number that `s` denotes as an unsigned machine integer: an optional `+`
/// followed by at least one decimal digit, with a value that fits in `usize`.
pub open spec fn decimal_value(s: Seq<char>) -> Option<usize> {
    let body = if s.len() > 0 && s[0] == '+' {
        s.drop_first()
    } else {
        s
    };
    if body.len() > 0 && all_digits(body) && digits_value(body) <= usize::MAX {
        Some(digits_value(body) as usize)
    } else {
        None
    }
}

/// A range end as read by the range rule: its number, or 0 where it is no number.
pub open spec fn number_or_zero(s: Seq<char>) -> usize {
    match decimal_value(s) {
        Some(n) => n,
        None => 0,
    }
}

/// The bounds of a range item `a-b`: refused when every piece between dashes
/// reads as 0, else the values of the first two pieces.
pub open spec fn range_bounds(s: Seq<char>) -> Option<(usize, usize)> {
    let parts = split(s, '-');
    if forall|k: int| 0 <= k < parts.len() ==> number_or_zero(#[trigger] parts[k]) == 0 {
        None
    } else {
        Some((number_or_zero(parts[0]), number_or_zero(parts[1])))
    }
}

/// The integers from `a` to `b` inclusive, ascending; empty when `a > b`.
pub open spec fn range_seq(a: usize, b: usize) -> Seq<usize> {
    Seq::new(
        if a <= b {
            (b - a + 1) as nat
        } else {
            0
        },
        |k: int| (a + k) as usize,
    )
}

/// What one item contributes: a range where it holds a dash, else a number.
pub open spec fn item_selection(p: Seq<char>) -> Option<Seq<usize>> {
    if p.contains('-') {
        match range_bounds(p) {
            Some((a, b)) => Some(range_seq(a, b)),
            None => None,
        }
    } else {
        match decimal_value(p) {
            Some(n) => Some(seq![n]),
            None => None,
        }
    }
}

/// The contributions of a list of items, in order; refused where any item is.
pub open spec fn list_selection(parts: Seq<Seq<char>>) -> Option<Seq<usize>>
    decreases parts.len(),
{
    if parts.len() == 0 {
        Some(Seq::empty())
    } else {
        match (list_selection(parts.drop_last()), item_selection(parts.last())) {
            (Some(a), Some(b)) => Some(a + b),
            _ => None,
        }
    }
}

/// The indices that a selection text names, in the order written: a lone
/// number or range, or a comma-separated list of them.
pub open spec fn selection_of(s: Seq<char>) -> Option<Seq<usize>> {
    if s.contains(',') {
        list_selection(split(s, ','))
    } else {
        item_selection(s)
    }
}

proof fn lemma_digits_prefix(s: Seq<char>, k: int)
    requires
        0 <= k <= s.len(),
    ensures
        digits_value(s.take(k)) <= digits_value(s),
    decreases s.len(),
{
    if k < s.len() {
        lemma_digits_prefix(s.drop_last(), k);
        assert(s.drop_last().take(k) =~= s.take(k));
    } else {
        assert(s.take(k) =~= s);
    }
}

/// The number that `v[lo..hi]` denotes, if any.
fn parse_number(v: &Vec<char>, lo: usize, hi: usize) -> (r: Option<usize>)
    requires
        lo <= hi <= v.len(),
    ensures
        r == decimal_value(v@.subrange(lo as int, hi as int)),
{
    let ghost s = v@.subrange(lo as int, hi as int);
    let mut b: usize = lo;
    if b < hi && v[b] == '+' {
        b = b + 1;
    }
    let ghost body = v@.subrange(b as int, hi as int);
    assert(body == if s.len() > 0 && s[0] == '+' { s.drop_first() } else { s });
    if b == hi {
        return None;
    }
    let mut acc: usize = 0;
    let mut i: usize = b;
    while i < hi
        invariant
            lo <= b <= i <= hi <= v.len(),
            s == v@.subrange(lo as int, hi as int),
            body == v@.subrange(b as int, hi as int),
            body == if s.len() > 0 && s[0] == '+' {
                s.drop_first()
            } else {
                s
            },
            body.len() > 0,
            all_digits(v@.subrange(b as int, i as int)),
            acc == digits_value(v@.subrange(b as int, i as int)),
        decreases hi - i,
    {
        let c = v[i];
        let ghost pre = v@.subrange(b as int, i + 1);
        assert(pre.drop_last() =~= v@.subrange(b as int, i as int));
        assert(pre == body.take(i + 1 - b));
        if c < '0' || c > '9' {
            assert(body[i - b] == c);
            assert(!is_digit(body[i - b]));
            assert(!all_digits(body));
            return None;
        }
        let d = (c as u32 - '0' as u32) as usize;
        let next = match acc.checked_mul(10) {
            Some(t) => t.checked_add(d),
            None => None,
        };
        match next {
            Some(x) => {
                acc = x;
            },
            None => {
                proof {
                    if all_digits(body) {
                        assert(d == (c as nat - '0' as nat) as nat);
                        assert(digits_value(pre) == acc * 10 + d);
                        lemma_digits_prefix(body, i + 1 - b);
                    }
                }
                return None;
            },
        }
        i = i + 1;
    }
    Some(acc)
}

/// Bounds of the range item `v[lo..hi]`, by the rule of `range_bounds`.
fn bounds_in(v: &Vec<char>, lo: usize, hi: usize) -> (r: Result<(usize, usize), InputParseError>)
    requires
        lo <= hi <= v.len(),
        v@.subrange(lo as int, hi as int).contains('-'),
    ensures
        match r {
            Ok(p) => range_bounds(v@.subrange(lo as int, hi as int)) == Some(p),
            Err(_) => range_bounds(v@.subrange(lo as int, hi as int)) is None,
        },
{
    let mut first: usize = 0;
    let mut second: usize = 0;
    let mut count: usize = 0;
    let mut all_zero = true;
    let mut start: usize = lo;
    let mut j: usize = lo;
    assert(v@.subrange(lo as int, lo as int) =~= Seq::<char>::empty());
    while j < hi
        invariant
            lo <= start <= j <= hi <= v.len(),
            split(v@.subrange(lo as int, j as int), '-').len() == count + 1,
            split(v@.subrange(lo as int, j as int), '-').last() == v@.subrange(start as int, j as int),
            all_zero == forall|k: int|
                0 <= k < count ==> number_or_zero(
                    #[trigger] split(v@.subrange(lo as int, j as int), '-')[k],
                ) == 0,
            count >= 1 ==> first == number_or_zero(split(v@.subrange(lo as int, j as int), '-')[0]),
            count <= j - lo,
            count >= 2 ==> second == number_or_zero(split(v@.subrange(lo as int, j as int), '-')[1]),
        decreases hi - j,
    {
        let ghost before = split(v@.subrange(lo as int, j as int), '-');
        let ghost after_s = v@.subrange(lo as int, j + 1);
        assert(after_s.drop_last() =~= v@.subrange(lo as int, j as int));
        assert(after_s.last() == v[j as int]);
        if v[j] == '-' {
            let val = match parse_number(v, start, j) {
                Some(n) => n,
                None => 0,
            };
            if count == 0 {
                first = val;
            } else if count == 1 {
                second = val;
            }
            let ghost after = split(after_s, '-');
            assert(after == before.push(Seq::empty()));
            assert(before[count as int] == before.last());
            assert(val == number_or_zero(before[count as int]));
            let now_zero = all_zero && val == 0;
            assert(now_zero == forall|k: int|
                0 <= k < count + 1 ==> number_or_zero(#[trigger] after[k]) == 0) by {
                if now_zero {
                    assert forall|k: int| 0 <= k < count + 1 implies number_or_zero(
                        #[trigger] after[k],
                    ) == 0 by {
                        assert(after[k] == before[k]);
                    }
                } else if !all_zero {
                    let k = choose|k: int| 0 <= k < count && number_or_zero(#[trigger] before[k]) != 0;
                    assert(after[k] == before[k]);
                } else {
                    assert(after[count as int] == before[count as int]);
                }
            }
            all_zero = now_zero;
            count = count + 1;
            start = j + 1;
            assert(v@.subrange(start as int, j + 1) =~= Seq::<char>::empty());
        } else {
            let ghost after = split(after_s, '-');
            assert(after == before.update(before.len() - 1, before.last().push(v[j as int])));
            assert(v@.subrange(start as int, j + 1) =~= v@.subrange(start as int, j as int).push(v[j as int]));
            assert(all_zero == forall|k: int|
                0 <= k < count ==> number_or_zero(#[trigger] after[k]) == 0) by {
                if all_zero {
                    assert forall|k: int| 0 <= k < count implies number_or_zero(
                        #[trigger] after[k],
                    ) == 0 by {
                        assert(after[k] == before[k]);
                    }
                } else {
                    let k = choose|k: int| 0 <= k < count && number_or_zero(#[trigger] before[k]) != 0;
                    assert(after[k] == before[k]);
                }
            }
            assert(count >= 1 ==> after[0] == before[0]);
            assert(count >= 2 ==> after[1] == before[1]);
        }
        j = j + 1;
    }
    assert(v@.subrange(lo as int, hi as int) == v@.subrange(lo as int, j as int));
    let ghost parts = split(v@.subrange(lo as int, hi as int), '-');
    proof {
        lemma_split_len(v@.subrange(lo as int, hi as int), '-');
    }
    let last = match parse_number(v, start, hi) {
        Some(n) => n,
        None => 0,
    };
    if count == 1 {
        second = last;
    }
    all_zero = all_zero && last == 0;
    if all_zero {
        assert forall|k: int| 0 <= k < parts.len() implies number_or_zero(#[trigger] parts[k]) == 0 by {
            if k == count {
                assert(parts[k] == parts.last());
            }
        }
        Err(InputParseError::BadFormat)
    } else {
        assert(parts[count as int] == parts.last());
        Ok((first, second))
    }
}

/// Reads the bounds of a range item `a-b`. Each piece between dashes that is
/// no number counts as 0; the item is refused when every piece counts as 0,
/// so `0-0` is refused as well.
pub fn extract_first_and_last(user_input: &str) -> (r: Result<(usize, usize), InputParseError>)
    requires
        user_input@.contains('-'),
    ensures
        match r {
            Ok(p) => range_bounds(user_input@) == Some(p),
            Err(_) => range_bounds(user_input@) is None,
        },
{
    let v = chars_of(user_input);
    assert(v@.subrange(0, v@.len() as int) =~= v@);
    bounds_in(&v, 0, v.len())
}

/// Appends the integers from `a` to `b` inclusive, ascending.
fn push_range(out: &mut Vec<usize>, a: usize, b: usize)
    ensures
        final(out)@ == old(out)@ + range_seq(a, b),
{
    if a > b {
        assert(range_seq(a, b) =~= Seq::<usize>::empty());
        assert(old(out)@ + range_seq(a, b) =~= old(out)@);
        return;
    }
    let ghost base = out@;
    let mut i: usize = a;
    while i < b
        invariant
            a <= i <= b,
            out@ == base + Seq::new((i - a) as nat, |k: int| (a + k) as usize),
        decreases b - i,
    {
        out.push(i);
        assert(base + Seq::new((i + 1 - a) as nat, |k: int| (a + k) as usize) =~= (base + Seq::new(
            (i - a) as nat,
            |k: int| (a + k) as usize,
        )).push(i));
        i = i + 1;
    }
    out.push(b);
    assert(out@ =~= base + range_seq(a, b));
}

/// Appends what the item `v[lo..hi]` contributes; `false` where it is refused.
fn select_item(v: &Vec<char>, lo: usize, hi: usize, out: &mut Vec<usize>) -> (ok: bool)
    requires
        lo <= hi <= v.len(),
    ensures
        ok == item_selection(v@.subrange(lo as int, hi as int)) is Some,
        ok ==> final(out)@ == old(out)@ + item_selection(v@.subrange(lo as int, hi as int))->0,
{
    if contains_char(v, lo, hi, '-') {
        match bounds_in(v, lo, hi) {
            Ok((first, last)) => {
                push_range(out, first, last);
                true
            },
            Err(_) => false,
        }
    } else {
        match parse_number(v, lo, hi) {
            Some(n) => {
                out.push(n);
                true
            },
            None => false,
        }
    }
}

/// Reads a selection: a lone number (`4`), a lone range (`1-3`), or a
/// comma-separated list of numbers and ranges (`1,3-5,9`). The indices come out
/// in the order written, a range ascending; a range whose first bound is above
/// its last adds none. Indices are not checked against any catalog.
pub fn elaborate_input(user_input: &str) -> (r: Result<Vec<usize>, InputParseError>)
    ensures
        match r {
            Ok(v) => selection_of(user_input@) == Some(v@),
            Err(_) => selection_of(user_input@) is None,
        },
{
    let v = chars_of(user_input);
    let n = v.len();
    let ghost s = user_input@;
    assert(v@.subrange(0, n as int) =~= s);
    let mut selected_numbers: Vec<usize> = Vec::new();
    if let Some(number) = parse_number(&v, 0, n) {
        assert(!s.contains('-') && !s.contains(',')) by {
            if s.contains('-') || s.contains(',') {
                let body = if s.len() > 0 && s[0] == '+' { s.drop_first() } else { s };
                let k = choose|k: int| 0 <= k < s.len() && (s[k] == '-' || s[k] == ',');
                if s.len() > 0 && s[0] == '+' {
                    assert(body[k - 1] == s[k]);
                } else {
                    assert(body[k] == s[k]);
                }
            }
        }
        selected_numbers.push(number);
        assert(selected_numbers@ =~= seq![number]);
        return Ok(selected_numbers);
    }
    let has_dash = contains_char(&v, 0, n, '-');
    let has_comma = contains_char(&v, 0, n, ',');
    if has_dash && !has_comma {
        match bounds_in(&v, 0, n) {
            Ok((first, last)) => {
                push_range(&mut selected_numbers, first, last);
                assert(Seq::<usize>::empty() + range_seq(first, last) =~= range_seq(first, last));
            },
            Err(_) => return Err(InputParseError::BadFormat),
        }
    } else if !has_comma {
        return Err(InputParseError::BadFormat);
    } else {
        let mut start: usize = 0;
        let mut j: usize = 0;
        let mut failed = false;
        assert(v@.subrange(0, 0) =~= Seq::<char>::empty());
        assert(split(v@.subrange(0, 0), ',').drop_last() =~= Seq::<Seq<char>>::empty());
        while j < n
            invariant
                start <= j <= n == v.len(),
                split(v@.subrange(0, j as int), ',').len() >= 1,
                split(v@.subrange(0, j as int), ',').last() == v@.subrange(start as int, j as int),
                failed ==> list_selection(split(v@.subrange(0, j as int), ',').drop_last()) is None,
                !failed ==> list_selection(split(v@.subrange(0, j as int), ',').drop_last()) == Some(
                    selected_numbers@,
                ),
            decreases n - j,
        {
            let ghost before = split(v@.subrange(0, j as int), ',');
            let ghost after_s = v@.subrange(0, j + 1);
            assert(after_s.drop_last() =~= v@.subrange(0, j as int));
            assert(after_s.last() == v[j as int]);
            if v[j] == ',' {
                assert(split(after_s, ',').drop_last() =~= before);
                assert(before.drop_last().push(before.last()) =~= before);
                if !failed {
                    if !select_item(&v, start, j, &mut selected_numbers) {
                        failed = true;
                    }
                }
                start = j + 1;
                assert(v@.subrange(start as int, j + 1) =~= Seq::<char>::empty());
            } else {
                let ghost after = split(after_s, ',');
                assert(after == before.update(before.len() - 1, before.last().push(v[j as int])));
                assert(after.drop_last() =~= before.drop_last());
                assert(v@.subrange(start as int, j + 1) =~= v@.subrange(start as int, j as int).push(v[j as int]));
            }
            j = j + 1;
        }
        if failed {
            return Err(InputParseError::BadFormat);
        }
        let ghost parts = split(v@.subrange(0, n as int), ',');
        assert(parts.drop_last().push(parts.last()) =~= parts);
        if !select_item(&v, start, n, &mut selected_numbers) {
            return Err(InputParseError::BadFormat);
        }
    }
    Ok(selected_numbers)
}

/// The decimal digit for `d < 10`.
pub open spec fn digit_char(d: nat) -> char {
    seq!['0', '1', '2', '3', '4', '5', '6', '7', '8', '9'][d as int]
}

/// The usual decimal text of `n`: its digits, with no sign and no leading zero.
pub open spec fn decimal(n: nat) -> Seq<char>
    decreases n,
{
    if n < 10 {
        seq![digit_char(n)]
    } else {
        decimal(n / 10).push(digit_char(n % 10))
    }
}

proof fn lemma_digit_char(d: nat)
    requires
        d < 10,
    ensures
        is_digit(digit_char(d)),
        digit_char(d) as nat - '0' as nat == d,
{
    if d == 0 {
    } else if d == 1 {
    } else if d == 2 {
    } else if d == 3 {
    } else if d == 4 {
    } else if d == 5 {
    } else if d == 6 {
    } else if d == 7 {
    } else if d == 8 {
    } else {
    }
}

proof fn lemma_decimal(n: nat)
    ensures
        decimal(n).len() > 0,
        all_digits(decimal(n)),
        digits_value(decimal(n)) == n,
    decreases n,
{
    if n < 10 {
        lemma_digit_char(n);
        assert(decimal(n).drop_last() =~= Seq::<char>::empty());
        assert(decimal(n).last() == digit_char(n));
        assert(digits_value(decimal(n)) == digits_value(decimal(n).drop_last()) * 10 + (digit_char(n) as nat - '0' as nat) as nat);
        assert(digits_value(Seq::<char>::empty()) == 0);
    } else {
        lemma_decimal(n / 10);
        lemma_digit_char(n % 10);
        assert(decimal(n).drop_last() =~= decimal(n / 10));
        assert(decimal(n).last() == digit_char(n % 10));
        assert((n / 10) * 10 + n % 10 == n) by (nonlinear_arith);
        assert(digits_value(decimal(n)) == digits_value(decimal(n / 10)) * 10 + (digit_char(n % 10) as nat - '0' as nat) as nat);
        assert forall|i: int| 0 <= i < decimal(n).len() implies is_digit(#[trigger] decimal(n)[i]) by {
            if i < decimal(n / 10).len() {
                assert(decimal(n)[i] == decimal(n / 10)[i]);
            }
        }
    }
}

proof fn lemma_digits_lack(s: Seq<char>, c: char)
    requires
        all_digits(s),
        !is_digit(c),
    ensures
        !s.contains(c),
{
    if s.contains(c) {
        let k = choose|k: int| 0 <= k < s.len() && s[k] == c;
        assert(is_digit(s[k]));
    }
}

proof fn lemma_decimal_value(n: usize)
    ensures
        decimal_value(decimal(n as nat)) == Some(n),
        !decimal(n as nat).contains('-'),
        !decimal(n as nat).contains(','),
{
    let t = decimal(n as nat);
    lemma_decimal(n as nat);
    assert(is_digit(t[0]));
    lemma_digits_lack(t, '-');
    lemma_digits_lack(t, ',');
}

proof fn lemma_split_extend(x: Seq<char>, y: Seq<char>, sep: char)
    requires
        !y.contains(sep),
    ensures
        split(x + y, sep) == split(x, sep).update(
            split(x, sep).len() - 1,
            split(x, sep).last() + y,
        ),
    decreases y.len(),
{
    lemma_split_len(x, sep);
    let p = split(x, sep);
    if y.len() == 0 {
        assert(x + y =~= x);
        assert(p.last() + y =~= p.last());
        assert(p.update(p.len() - 1, p.last()) =~= p);
    } else {
        let y0 = y.drop_last();
        assert(!y0.contains(sep)) by {
            if y0.contains(sep) {
                let k = choose|k: int| 0 <= k < y0.len() && y0[k] == sep;
                assert(y[k] == sep);
            }
        }
        assert(y.last() != sep) by {
            assert(y[y.len() - 1] == y.last());
        }
        lemma_split_extend(x, y0, sep);
        assert((x + y).drop_last() =~= x + y0);
        assert((x + y).last() == y.last());
        assert((p.last() + y0).push(y.last()) =~= p.last() + y);
        assert(split(x + y, sep) =~= p.update(p.len() - 1, p.last() + y));
    }
}

proof fn lemma_split_two(x: Seq<char>, y: Seq<char>, sep: char)
    requires
        !x.contains(sep),
        !y.contains(sep),
    ensures
        split(x + seq![sep] + y, sep) == seq![x, y],
{
    let e = Seq::<char>::empty();
    lemma_split_extend(e, x, sep);
    assert(e + x =~= x);
    assert(split(x, sep) =~= seq![x]);
    let xs = x + seq![sep];
    assert(xs.drop_last() =~= x);
    assert(split(xs, sep) =~= seq![x, e]);
    lemma_split_extend(xs, y, sep);
    assert(e + y =~= y);
    assert(split(xs + y, sep) =~= seq![x, y]);
}

/// The text of the range `a-b`.
pub open spec fn range_text(a: usize, b: usize) -> Seq<char> {
    decimal(a as nat) + seq!['-'] + decimal(b as nat)
}

proof fn lemma_range_text(a: usize, b: usize)
    requires
        a != 0 || b != 0,
    ensures
        selection_of(range_text(a, b)) == Some(range_seq(a, b)),
{
    let da = decimal(a as nat);
    let db = decimal(b as nat);
    let t = range_text(a, b);
    lemma_decimal_value(a);
    lemma_decimal_value(b);
    lemma_split_two(da, db, '-');
    let parts = split(t, '-');
    assert(parts[0] == da && parts[1] == db);
    assert(t[da.len() as int] == '-');
    assert(!t.contains(',')) by {
        if t.contains(',') {
            let k = choose|k: int| 0 <= k < t.len() && t[k] == ',';
            if k < da.len() {
                assert(da[k] == ',');
            } else if k > da.len() {
                assert(db[k - da.len() - 1] == ',');
            }
        }
    }
    assert(!(forall|k: int| 0 <= k < parts.len() ==> number_or_zero(#[trigger] parts[k]) == 0)) by {
        if a != 0 {
            assert(number_or_zero(parts[0]) != 0);
        } else {
            assert(number_or_zero(parts[1]) != 0);
        }
    }
}

/// The decimal text of any `n` selects exactly `n`.
pub proof fn lemma_single_number(n: usize)
    ensures
        selection_of(decimal(n as nat)) == Some(seq![n]),
{
    lemma_decimal_value(n);
}

/// A range `a-b` with `a <= b` selects `a, a + 1, ..., b`, ascending; the one
/// exception is `0-0`, which the range rule refuses.
pub proof fn lemma_ascending_range(a: usize, b: usize)
    requires
        a <= b,
        b != 0,
    ensures
        selection_of(range_text(a, b)) == Some(range_seq(a, b)),
        forall|i: usize| range_seq(a, b).contains(i) <==> a <= i && i <= b,
{
    lemma_range_text(a, b);
    assert forall|i: usize| range_seq(a, b).contains(i) <==> a <= i && i <= b by {
        if a <= i && i <= b {
            assert(range_seq(a, b)[i - a] == i);
        }
    }
}

/// A range `a-b` with `a > b` is accepted and selects nothing.
pub proof fn lemma_descending_range(a: usize, b: usize)
    requires
        a > b,
    ensures
        selection_of(range_text(a, b)) == Some(Seq::<usize>::empty()),
{
    lemma_range_text(a, b);
    assert(range_seq(a, b) =~= Seq::<usize>::empty());
}

} // verus!
