//! The calculator server's arithmetic: "/add?a&b&..." sums the numbers after
//! the fifth character, "/sub?a&b" subtracts the second from the first, and
//! the result is written into an HTML page.
use vstd::prelude::*;
use vstd::slice::slice_subrange;
use vstd::string::StringExecFns;
use crate::text::{decimal, digit_char, find, find_chars, find_from, lemma_find_from_first, matches_at, lemma_find_bounds, push_decimal, string_from_chars};

verus! {

/// An ASCII decimal digit.
pub open spec fn is_digit(c: char) -> bool {
    '0' <= c && c <= '9'
}

/// Every character is an ASCII digit.
pub open spec fn all_digits(d: Seq<char>) -> bool {
    forall|i: int| 0 <= i < d.len() ==> is_digit(#[trigger] d[i])
}

/// The number written by decimal digits.
pub open spec fn digits_value(d: Seq<char>) -> int
    decreases d.len(),
{
    if d.len() == 0 {
        0
    } else {
        10 * digits_value(d.drop_last()) + (d.last() as int - 48)
    }
}

/// What `i32::from_str` reads: an optional '+' or '-', then one or more ASCII
/// digits, whose value must fit in an `i32`.
pub open spec fn parse_i32_spec(s: Seq<char>) -> Option<i32> {
    if s.len() == 0 {
        None
    } else {
        let signed = s[0] == '-' || s[0] == '+';
        let d = if signed { s.skip(1) } else { s };
        if d.len() == 0 || !all_digits(d) {
            None
        } else {
            let v = if s[0] == '-' { -digits_value(d) } else { digits_value(d) };
            if i32::MIN <= v <= i32::MAX {
                Some(v as i32)
            } else {
                None
            }
        }
    }
}

/// More digits never make a smaller value.
proof fn lemma_digits_value_grows(d: Seq<char>, k: int)
    requires
        0 <= k <= d.len(),
        forall|i: int| 0 <= i < d.len() ==> is_digit(#[trigger] d[i]),
    ensures
        digits_value(d) >= digits_value(d.take(k)) >= 0,
    decreases d.len() - k,
{
    if k == d.len() {
        assert(d.take(k) =~= d);
        lemma_digits_value_nonneg(d);
    } else {
        lemma_digits_value_grows(d, k + 1);
        assert(d.take(k + 1).drop_last() =~= d.take(k));
        lemma_digits_value_nonneg(d.take(k));
    }
}

/// Digits have a non-negative value.
proof fn lemma_digits_value_nonneg(d: Seq<char>)
    requires
        forall|i: int| 0 <= i < d.len() ==> is_digit(#[trigger] d[i]),
    ensures
        digits_value(d) >= 0,
    decreases d.len(),
{
    if d.len() > 0 {
        lemma_digits_value_nonneg(d.drop_last());
        assert(is_digit(d[d.len() - 1]));
    }
}

/// Reads an `i32` as `i32::from_str` does.
pub fn parse_i32(s: &[char]) -> (r: Option<i32>)
    ensures
        r == parse_i32_spec(s@),
{
    if s.len() == 0 {
        return None;
    }
    let signed = s[0] == '-' || s[0] == '+';
    let neg = s[0] == '-';
    let start: usize = if signed { 1 } else { 0 };
    let ghost d = if signed { s@.skip(1) } else { s@ };
    assert(d =~= s@.subrange(start as int, s@.len() as int));
    if start == s.len() {
        assert(d.len() == 0);
        return None;
    }
    let mut v: i64 = 0;
    let mut i: usize = start;
    while i < s.len()
        invariant
            start <= i <= s@.len(),
            s@.len() > 0,
            neg == (s@[0] == '-'),
            d == (if s@[0] == '-' || s@[0] == '+' { s@.skip(1) } else { s@ }),
            d == s@.subrange(start as int, s@.len() as int),
            forall|j: int| 0 <= j < i - start ==> is_digit(#[trigger] d[j]),
            v == digits_value(d.take(i - start)),
            0 <= v <= 2147483648,
        decreases s@.len() - i,
    {
        let c = s[i];
        if !('0' <= c && c <= '9') {
            assert(d[i - start] == c);
            assert(!is_digit(d[i - start]));
            assert(!all_digits(d));
            return None;
        }
        assert(d.take(i - start + 1).drop_last() =~= d.take(i - start));
        v = v * 10 + (c as u32 - 48) as i64;
        i = i + 1;
        if v > 2147483648 {
            proof {
                if all_digits(d) {
                    lemma_digits_value_grows(d, i - start);
                }
            }
            return None;
        }
    }
    assert(d.take(i - start) =~= d);
    let w = if neg { -v } else { v };
    if w < -2147483648 || w > 2147483647 {
        return None;
    }
    Some(w as i32)
}

/// The pieces of `s` between the occurrences of `c`, as `str::split` yields
/// them (an empty `s` gives one empty piece).
pub open spec fn split_on(s: Seq<char>, c: char) -> Seq<Seq<char>>
    decreases s.len(),
{
    match find(s, seq![c]) {
        None => seq![s],
        Some(i) => if 0 <= i < s.len() {
            seq![s.take(i)] + split_on(s.skip(i + 1), c)
        } else {
            seq![s]
        },
    }
}

/// The pieces of `s` between the occurrences of `c`.
pub fn split_chars(s: &[char], c: char) -> (r: Vec<Vec<char>>)
    ensures
        r@.map_values(|p: Vec<char>| p@) == split_on(s@, c),
{
    let pat = vec![c];
    let mut pieces: Vec<Vec<char>> = Vec::new();
    let mut rest = s;
    loop
        invariant
            pat@ == seq![c],
            pieces@.map_values(|p: Vec<char>| p@) + split_on(rest@, c) == split_on(s@, c),
        decreases rest@.len(),
    {
        proof {
            lemma_find_bounds(rest@, seq![c], 0);
        }
        match find_chars(rest, pat.as_slice()) {
            None => {
                let ghost before = pieces@.map_values(|p: Vec<char>| p@);
                pieces.push(vstd::slice::slice_to_vec(rest));
                assert(pieces@.map_values(|p: Vec<char>| p@) =~= before.push(rest@));
                assert(before + seq![rest@] =~= before.push(rest@));
                return pieces;
            },
            Some(i) => {
                let ghost before = pieces@.map_values(|p: Vec<char>| p@);
                let ghost old_rest = rest@;
                pieces.push(vstd::slice::slice_to_vec(slice_subrange(rest, 0, i)));
                assert(pieces@.map_values(|p: Vec<char>| p@) =~= before.push(old_rest.take(i as int)));
                assert(i + 1 <= rest.len());
                rest = slice_subrange(rest, i + 1, rest.len());
                assert(rest@ =~= old_rest.skip(i + 1));
                assert(before + (seq![old_rest.take(i as int)] + split_on(rest@, c)) =~= before.push(old_rest.take(i as int))
                    + split_on(rest@, c));
            },
        }
    }
}

/// Why a calculation has no result.
#[derive(Debug, Clone, PartialEq, Eq)]
pub enum CalcError {
    /// The path is too short to split after its fifth character.
    ShortPath,
    /// An operand is not a number.
    NotANumber(String),
    /// The result does not fit in an `i32`.
    Overflow,
    /// "/sub" has fewer than two operands.
    MissingOperand,
}

/// `CalcError` as plain values.
pub enum CalcErrorView {
    ShortPath,
    NotANumber(Seq<char>),
    Overflow,
    MissingOperand,
}

impl View for CalcError {
    type V = CalcErrorView;

    open spec fn view(&self) -> CalcErrorView {
        match self {
            CalcError::ShortPath => CalcErrorView::ShortPath,
            CalcError::NotANumber(s) => CalcErrorView::NotANumber(s@),
            CalcError::Overflow => CalcErrorView::Overflow,
            CalcError::MissingOperand => CalcErrorView::MissingOperand,
        }
    }
}

/// The sum of `acc` and the numbers of the pieces, added from the first:
/// the first piece that is not a number, or the first sum that overflows,
/// ends it.
pub open spec fn sum_pieces(acc: i32, pieces: Seq<Seq<char>>) -> Result<i32, CalcErrorView>
    decreases pieces.len(),
{
    if pieces.len() == 0 {
        Ok(acc)
    } else {
        match parse_i32_spec(pieces[0]) {
            None => Err(CalcErrorView::NotANumber(pieces[0])),
            Some(v) => if i32::MIN <= acc + v <= i32::MAX {
                sum_pieces((acc + v) as i32, pieces.drop_first())
            } else {
                Err(CalcErrorView::Overflow)
            },
        }
    }
}

/// The difference of the first two numbers of the pieces.
pub open spec fn difference_of_pieces(pieces: Seq<Seq<char>>) -> Result<i32, CalcErrorView> {
    match parse_i32_spec(pieces[0]) {
        None => Err(CalcErrorView::NotANumber(pieces[0])),
        Some(a) => if pieces.len() < 2 {
            Err(CalcErrorView::MissingOperand)
        } else {
            match parse_i32_spec(pieces[1]) {
                None => Err(CalcErrorView::NotANumber(pieces[1])),
                Some(b) => if i32::MIN <= a - b <= i32::MAX {
                    Ok((a - b) as i32)
                } else {
                    Err(CalcErrorView::Overflow)
                },
            }
        }
    }
}

/// `p` is a prefix of `s`.
pub open spec fn starts_with(s: Seq<char>, p: Seq<char>) -> bool {
    p.len() <= s.len() && s.take(p.len() as int) == p
}

/// Splitting a path after its fifth character needs a fifth character that
/// is one byte long in UTF-8 (the first four are ASCII).
pub open spec fn splits_after_five(path: Seq<char>) -> bool {
    path.len() >= 5 && path[4] < '\u{80}'
}

/// The result of a calculator path: `Ok(Some(..))` for "/add" and "/sub"
/// paths, `Ok(None)` for any other path.
pub open spec fn calculate_spec(path: Seq<char>) -> Result<Option<i32>, CalcErrorView> {
    if starts_with(path, seq!['/', 'a', 'd', 'd']) {
        if !splits_after_five(path) {
            Err(CalcErrorView::ShortPath)
        } else {
            match sum_pieces(0, split_on(path.skip(5), '&')) {
                Ok(v) => Ok(Some(v)),
                Err(e) => Err(e),
            }
        }
    } else if starts_with(path, seq!['/', 's', 'u', 'b']) {
        if !splits_after_five(path) {
            Err(CalcErrorView::ShortPath)
        } else {
            match difference_of_pieces(split_on(path.skip(5), '&')) {
                Ok(v) => Ok(Some(v)),
                Err(e) => Err(e),
            }
        }
    } else {
        Ok(None)
    }
}

/// Whether `p` is a prefix of `s`.
fn starts_with_chars(s: &[char], p: &[char]) -> (r: bool)
    ensures
        r == starts_with(s@, p@),
{
    if p.len() > s.len() {
        return false;
    }
    let prefix = slice_subrange(s, 0, p.len());
    crate::text::chars_eq(prefix, p)
}

/// Computes the result of a calculator path, as `calculate_spec` states.
pub fn calculate(path: &str) -> (r: Result<Option<i32>, CalcError>)
    ensures
        match r {
            Ok(v) => calculate_spec(path@) == Ok::<Option<i32>, CalcErrorView>(v),
            Err(e) => calculate_spec(path@) == Err::<Option<i32>, CalcErrorView>(e@),
        },
{
    let chars = crate::text::chars_of(path);
    let p = chars.as_slice();
    assert(p@ == path@);
    let add = vec!['/', 'a', 'd', 'd'];
    let sub = vec!['/', 's', 'u', 'b'];
    assert(add@ =~= seq!['/', 'a', 'd', 'd']);
    assert(sub@ =~= seq!['/', 's', 'u', 'b']);
    let is_add = starts_with_chars(p, add.as_slice());
    let is_sub = !is_add && starts_with_chars(p, sub.as_slice());
    if !is_add && !is_sub {
        return Ok(None);
    }
    if p.len() < 5 || p[4] >= '\u{80}' {
        return Err(CalcError::ShortPath);
    }
    let params = slice_subrange(p, 5, p.len());
    assert(params@ =~= path@.skip(5));
    let pieces = split_chars(params, '&');
    let ghost ps = pieces@.map_values(|q: Vec<char>| q@);
    if is_add {
        let mut acc: i32 = 0;
        let mut i: usize = 0;
        assert(ps.skip(0) =~= ps);
        while i < pieces.len()
            invariant
                ps == pieces@.map_values(|q: Vec<char>| q@),
                ps == split_on(path@.skip(5), '&'),
                starts_with(path@, seq!['/', 'a', 'd', 'd']),
                splits_after_five(path@),
                i <= pieces@.len(),
                sum_pieces(0, ps) == sum_pieces(acc, ps.skip(i as int)),
            decreases pieces@.len() - i,
        {
            assert(ps.skip(i as int)[0] == pieces@[i as int]@);
            assert(ps.skip(i as int).drop_first() =~= ps.skip(i + 1));
            let v = match parse_i32(pieces[i].as_slice()) {
                None => {
                    return Err(CalcError::NotANumber(string_from_chars(pieces[i].as_slice())));
                },
                Some(v) => v,
            };
            match acc.checked_add(v) {
                None => {
                    return Err(CalcError::Overflow);
                },
                Some(sum) => {
                    acc = sum;
                },
            }
            i = i + 1;
        }
        assert(ps.skip(i as int) =~= Seq::<Seq<char>>::empty());
        Ok(Some(acc))
    } else {
        proof {
            lemma_split_nonempty(params@, '&');
        }
        assert(ps[0] == pieces@[0]@);
        let a = match parse_i32(pieces[0].as_slice()) {
            None => {
                return Err(CalcError::NotANumber(string_from_chars(pieces[0].as_slice())));
            },
            Some(a) => a,
        };
        if pieces.len() < 2 {
            return Err(CalcError::MissingOperand);
        }
        assert(ps[1] == pieces@[1]@);
        let b = match parse_i32(pieces[1].as_slice()) {
            None => {
                return Err(CalcError::NotANumber(string_from_chars(pieces[1].as_slice())));
            },
            Some(b) => b,
        };
        match a.checked_sub(b) {
            None => Err(CalcError::Overflow),
            Some(d) => Ok(Some(d)),
        }
    }
}

/// Splitting always yields at least one piece.
proof fn lemma_split_nonempty(s: Seq<char>, c: char)
    ensures
        split_on(s, c).len() >= 1,
{
}

/// The decimal numeral of `n`, with a leading '-' for negative numbers.
pub open spec fn signed_decimal(n: int) -> Seq<char> {
    if n < 0 {
        seq!['-'] + decimal((-n) as nat)
    } else {
        decimal(n as nat)
    }
}

/// The decimal numeral of `m` is made of digits, most significant first, and
/// reads back as `m`.
pub proof fn law_decimal_reads_back(m: nat)
    ensures
        decimal(m).len() >= 1,
        all_digits(decimal(m)),
        digits_value(decimal(m)) == m,
    decreases m,
{
    if m < 10 {
        let c = digit_char(m);
        assert(c as int == 48 + m);
        assert(decimal(m).drop_last() =~= Seq::<char>::empty());
        assert(digits_value(Seq::<char>::empty()) == 0);
        assert(digits_value(decimal(m)) == 10 * digits_value(decimal(m).drop_last()) + (c as int - 48));
    } else {
        law_decimal_reads_back(m / 10);
        let c = digit_char(m % 10);
        assert(c as int == 48 + m % 10);
        assert(decimal(m).drop_last() =~= decimal(m / 10));
        assert(forall|i: int| 0 <= i < decimal(m).len() - 1 ==> decimal(m)[i] == decimal(m / 10)[i]);
        assert(decimal(m).last() == c);
        vstd::arithmetic::div_mod::lemma_fundamental_div_mod(m as int, 10);
        assert(digits_value(decimal(m)) == 10 * digits_value(decimal(m / 10)) + (c as int - 48));
    }
}

/// The number that the page shows reads back, as `i32::from_str` reads it,
/// as the result itself: the numeral of every `i32` parses to that `i32`.
pub proof fn law_signed_decimal_parses(n: i32)
    ensures
        parse_i32_spec(signed_decimal(n as int)) == Some(n),
{
    let s = signed_decimal(n as int);
    if n < 0 {
        let m = (-n) as nat;
        law_decimal_reads_back(m);
        assert(s.skip(1) =~= decimal(m));
        assert(s[0] == '-');
    } else {
        law_decimal_reads_back(n as nat);
        assert(is_digit(s[0]));
    }
}

/// What `find` gives for a one-character pattern: the first index at or
/// after `j` holding the character, if any.
proof fn lemma_find_char(s: Seq<char>, c: char, j: int)
    requires
        0 <= j,
    ensures
        find_from(s, seq![c], j) matches Some(k) ==> j <= k < s.len() && s[k] == c && forall|m: int| j <= m < k ==> s[m] != c,
        find_from(s, seq![c], j) is None ==> forall|m: int| j <= m < s.len() ==> s[m] != c,
    decreases s.len() + 1 - j,
{
    if j + 1 <= s.len() {
        if crate::text::matches_at(s, seq![c], j) {
            assert(s.subrange(j, j + 1)[0] == s[j]);
        } else {
            if s[j] == c {
                assert(s.subrange(j, j + 1) =~= seq![c]);
            }
            lemma_find_char(s, c, j + 1);
        }
    }
}

/// The first index holding `c` is what `find` gives.
proof fn lemma_find_char_first(s: Seq<char>, c: char, k: int)
    requires
        0 <= k < s.len(),
        s[k] == c,
        forall|m: int| 0 <= m < k ==> s[m] != c,
    ensures
        find(s, seq![c]) == Some(k),
{
    lemma_find_char(s, c, 0);
    match find(s, seq![c]) {
        Some(i) => {
            if i < k {
                assert(s[i] != c);
            } else if i > k {
                assert(s[k] != c);
            }
        },
        None => {
            assert(s[k] != c);
        },
    }
}

/// Splitting text that ends in `c` and a piece without `c` gives the pieces
/// of the text, then that piece.
proof fn lemma_split_on_append(q: Seq<char>, c: char, d: Seq<char>)
    requires
        !d.contains(c),
    ensures
        split_on(q + seq![c] + d, c) == split_on(q, c) + seq![d],
    decreases q.len(),
{
    let t = q + seq![c] + d;
    lemma_find_char(q, c, 0);
    lemma_find_char(d, c, 0);
    match find(q, seq![c]) {
        Some(i) => {
            assert(t[i] == c);
            assert forall|m: int| 0 <= m < i implies t[m] != c by {
                assert(t[m] == q[m]);
            }
            lemma_find_char_first(t, c, i);
            assert(t.take(i) =~= q.take(i));
            assert(t.skip(i + 1) =~= q.skip(i + 1) + seq![c] + d);
            lemma_split_on_append(q.skip(i + 1), c, d);
            assert(split_on(t, c) == seq![t.take(i)] + split_on(t.skip(i + 1), c));
            assert(split_on(q, c) == seq![q.take(i)] + split_on(q.skip(i + 1), c));
            assert(split_on(t, c) =~= split_on(q, c) + seq![d]);
        },
        None => {
            let k = q.len() as int;
            assert(t[k] == c);
            assert forall|m: int| 0 <= m < k implies t[m] != c by {
                assert(t[m] == q[m]);
            }
            lemma_find_char_first(t, c, k);
            assert(t.take(k) =~= q);
            assert(t.skip(k + 1) =~= d);
            if find(d, seq![c]) is Some {
                let j = find(d, seq![c])->0;
                assert(d[j] == c);
                assert(d.contains(c));
            }
            assert(split_on(d, c) == seq![d]);
            assert(split_on(q, c) == seq![q]);
            assert(split_on(t, c) =~= split_on(q, c) + seq![d]);
        },
    }
}

/// Adding one more piece to a sum that succeeded adds that piece's number.
proof fn lemma_sum_pieces_push(acc: i32, xs: Seq<Seq<char>>, d: Seq<char>)
    ensures
        sum_pieces(acc, xs.push(d)) == match sum_pieces(acc, xs) {
            Ok(v) => sum_pieces(v, seq![d]),
            Err(e) => Err::<i32, CalcErrorView>(e),
        },
    decreases xs.len(),
{
    if xs.len() == 0 {
        assert(xs.push(d) =~= seq![d]);
    } else {
        assert(xs.push(d)[0] == xs[0]);
        assert(xs.push(d).drop_first() =~= xs.drop_first().push(d));
        match parse_i32_spec(xs[0]) {
            None => {},
            Some(v) => {
                if i32::MIN <= acc + v <= i32::MAX {
                    lemma_sum_pieces_push((acc + v) as i32, xs.drop_first(), d);
                }
            },
        }
    }
}

/// A numeral holds no '&', so it is a single piece.
proof fn lemma_signed_decimal_no_amp(n: i32)
    ensures
        !signed_decimal(n as int).contains('&'),
        split_on(signed_decimal(n as int), '&') == seq![signed_decimal(n as int)],
{
    let d = signed_decimal(n as int);
    if n < 0 {
        law_decimal_reads_back((-n) as nat);
        assert forall|i: int| 0 <= i < d.len() implies d[i] != '&' by {
            if i > 0 {
                assert(d[i] == decimal((-n) as nat)[i - 1]);
                assert(is_digit(decimal((-n) as nat)[i - 1]));
            }
        }
    } else {
        law_decimal_reads_back(n as nat);
        assert forall|i: int| 0 <= i < d.len() implies d[i] != '&' by {
            assert(is_digit(d[i]));
        }
    }
    lemma_find_char(d, '&', 0);
    if let Some(j) = find(d, seq!['&']) {
        assert(d[j] == '&');
    }
}

/// "/add?n" gives n, for every `i32` n.
pub proof fn law_add_single(n: i32)
    ensures
        calculate_spec(seq!['/', 'a', 'd', 'd', '?'] + signed_decimal(n as int)) == Ok::<Option<i32>, CalcErrorView>(Some(n)),
{
    let d = signed_decimal(n as int);
    let path = seq!['/', 'a', 'd', 'd', '?'] + d;
    law_signed_decimal_parses(n);
    lemma_signed_decimal_no_amp(n);
    assert(path.take(4) =~= seq!['/', 'a', 'd', 'd']);
    assert(path[4] == '?');
    assert(path.skip(5) =~= d);
    assert(seq![d][0] == d);
    assert(seq![d].drop_first() =~= Seq::<Seq<char>>::empty());
    assert(sum_pieces(n, Seq::<Seq<char>>::empty()) == Ok::<i32, CalcErrorView>(n));
}

/// "/sub?a&b" gives a - b, for all `i32` a and b whose difference fits.
pub proof fn law_sub_operands(a: i32, b: i32)
    requires
        i32::MIN <= a - b <= i32::MAX,
    ensures
        calculate_spec(seq!['/', 's', 'u', 'b', '?'] + signed_decimal(a as int) + seq!['&'] + signed_decimal(b as int))
            == Ok::<Option<i32>, CalcErrorView>(Some((a - b) as i32)),
{
    let da = signed_decimal(a as int);
    let db = signed_decimal(b as int);
    let path = seq!['/', 's', 'u', 'b', '?'] + da + seq!['&'] + db;
    law_signed_decimal_parses(a);
    law_signed_decimal_parses(b);
    lemma_signed_decimal_no_amp(a);
    lemma_signed_decimal_no_amp(b);
    assert(path[2] == 'u');
    assert(!starts_with(path, seq!['/', 'a', 'd', 'd'])) by {
        if starts_with(path, seq!['/', 'a', 'd', 'd']) {
            assert(path.take(4)[2] == path[2]);
        }
    }
    assert(path.take(4) =~= seq!['/', 's', 'u', 'b']);
    assert(path[4] == '?');
    assert(path.skip(5) =~= da + seq!['&'] + db);
    lemma_split_on_append(da, '&', db);
    let ps = split_on(path.skip(5), '&');
    assert(ps =~= seq![da, db]);
    assert(ps[0] == da && ps[1] == db);
}

/// "/add" adds every operand: appending "&n" to an "/add" path whose result
/// is `v` gives `v + n`, when that fits in an `i32`.
pub proof fn law_add_operand(path: Seq<char>, v: i32, n: i32)
    requires
        starts_with(path, seq!['/', 'a', 'd', 'd']),
        calculate_spec(path) == Ok::<Option<i32>, CalcErrorView>(Some(v)),
        i32::MIN <= v + n <= i32::MAX,
    ensures
        calculate_spec(path + seq!['&'] + signed_decimal(n as int)) == Ok::<Option<i32>, CalcErrorView>(Some((v + n) as i32)),
{
    let d = signed_decimal(n as int);
    let p2 = path + seq!['&'] + d;
    law_signed_decimal_parses(n);
    lemma_signed_decimal_no_amp(n);
    assert(p2.take(4) =~= path.take(4));
    assert(starts_with(p2, seq!['/', 'a', 'd', 'd']));
    assert(splits_after_five(path));
    assert(p2[4] == path[4]);
    assert(splits_after_five(p2));
    assert(p2.skip(5) =~= path.skip(5) + seq!['&'] + d);
    lemma_split_on_append(path.skip(5), '&', d);
    let xs = split_on(path.skip(5), '&');
    assert(sum_pieces(0, xs) == Ok::<i32, CalcErrorView>(v));
    lemma_sum_pieces_push(0, xs, d);
    assert(xs + seq![d] =~= xs.push(d));
    assert(split_on(p2.skip(5), '&') == xs.push(d));
    assert(seq![d].drop_first() =~= Seq::<Seq<char>>::empty());
    assert(seq![d][0] == d);
    assert(parse_i32_spec(d) == Some(n));
    assert(sum_pieces((v + n) as i32, Seq::<Seq<char>>::empty()) == Ok::<i32, CalcErrorView>((v + n) as i32));
    assert(sum_pieces(v, seq![d]) == Ok::<i32, CalcErrorView>((v + n) as i32));
    assert(sum_pieces(0, xs.push(d)) == Ok::<i32, CalcErrorView>((v + n) as i32));
}

/// `s` with each occurrence of `pat`, from the left and not overlapping,
/// replaced by `rep`, as `str::replace` does for a non-empty pattern.
pub open spec fn replace_all(s: Seq<char>, pat: Seq<char>, rep: Seq<char>) -> Seq<char>
    decreases s.len(),
{
    match find(s, pat) {
        None => s,
        Some(i) => if pat.len() > 0 && 0 <= i && i + pat.len() <= s.len() {
            s.take(i) + rep + replace_all(s.skip(i + pat.len()), pat, rep)
        } else {
            s
        },
    }
}

/// The placeholder of the page template.
pub open spec fn result_placeholder() -> Seq<char> {
    seq!['{', '{', 'r', 'e', 's', 'u', 'l', 't', '}', '}']
}

/// Text with no '{' holds no placeholder, and is left as it is.
pub proof fn law_replace_without_placeholder(s: Seq<char>, rep: Seq<char>)
    requires
        !s.contains('{'),
    ensures
        replace_all(s, result_placeholder(), rep) == s,
{
    lemma_find_bounds(s, result_placeholder(), 0);
    if let Some(k) = find(s, result_placeholder()) {
        assert(s.subrange(k, k + 10)[0] == s[k]);
        assert(s[k] == '{');
    }
}

/// Each placeholder is replaced, from the left: text without '{', then the
/// placeholder, then the rest, becomes that text, the replacement, and the
/// rest with its placeholders replaced.
pub proof fn law_replace_placeholder(a: Seq<char>, b: Seq<char>, rep: Seq<char>)
    requires
        !a.contains('{'),
    ensures
        replace_all(a + result_placeholder() + b, result_placeholder(), rep) == a + rep + replace_all(b, result_placeholder(), rep),
{
    let ph = result_placeholder();
    let t = a + ph + b;
    let k = a.len() as int;
    assert(t.subrange(k, k + 10) =~= ph);
    assert forall|m: int| 0 <= m < k implies !matches_at(t, ph, m) by {
        if matches_at(t, ph, m) {
            assert(t.subrange(m, m + 10)[0] == t[m]);
            assert(t[m] == a[m]);
        }
    }
    lemma_find_from_first(t, ph, 0, k);
    assert(t.take(k) =~= a);
    assert(t.skip(k + 10) =~= b);
}

/// The calculator's response: "HTTP/1.1 200 OK", the content type header,
/// a blank line and the page with the placeholder replaced by the result.
pub open spec fn calculator_response_text(html: Seq<char>, result: i32) -> Seq<char> {
    "HTTP/1.1 200 OK\r\nContent-Type: text/html\r\n\r\n"@ + replace_all(html, result_placeholder(), signed_decimal(result as int))
}

/// Appends `s` with every `pat` replaced by `rep`.
fn push_replaced(out: &mut String, s: &[char], pat: &[char], rep: &[char])
    requires
        pat@.len() > 0,
    ensures
        final(out)@ == old(out)@ + replace_all(s@, pat@, rep@),
{
    let mut rest = s;
    loop
        invariant
            pat@.len() > 0,
            old(out)@ + replace_all(s@, pat@, rep@) == out@ + replace_all(rest@, pat@, rep@),
        decreases rest@.len(),
    {
        proof {
            lemma_find_bounds(rest@, pat@, 0);
        }
        match find_chars(rest, pat) {
            None => {
                let piece = string_from_chars(rest);
                out.append(piece.as_str());
                return;
            },
            Some(i) => {
                let ghost old_rest = rest@;
                let ghost old_out = out@;
                let before = string_from_chars(slice_subrange(rest, 0, i));
                out.append(before.as_str());
                let r = string_from_chars(rep);
                out.append(r.as_str());
                assert(i + pat.len() <= rest.len());
                rest = slice_subrange(rest, i + pat.len(), rest.len());
                assert(rest@ =~= old_rest.skip(i + pat@.len()));
                assert(old_out + (old_rest.take(i as int) + rep@ + replace_all(rest@, pat@, rep@)) =~= out@ + replace_all(rest@, pat@, rep@));
            },
        }
    }
}

/// The calculator's response for a page template and a result.
pub fn calculator_response(html: &str, result: i32) -> (r: String)
    ensures
        r@ == calculator_response_text(html@, result),
{
    let mut response = String::from_str("HTTP/1.1 200 OK\r\nContent-Type: text/html\r\n\r\n");
    let mut number = String::new();
    if result < 0 {
        number.push('-');
        push_decimal(&mut number, (-(result as i64)) as u64);
    } else {
        push_decimal(&mut number, result as u64);
    }
    assert(number@ =~= signed_decimal(result as int));
    let html_chars = crate::text::chars_of(html);
    let number_chars = crate::text::chars_of(number.as_str());
    let placeholder = vec!['{', '{', 'r', 'e', 's', 'u', 'l', 't', '}', '}'];
    assert(placeholder@ =~= result_placeholder());
    push_replaced(&mut response, html_chars.as_slice(), placeholder.as_slice(), number_chars.as_slice());
    response
}

} // verus!
