//! The grammar of numeric flag values: integers, comma-separated integer
//! lists and decimal real numbers.
use vstd::prelude::*;

verus! {

pub open spec fn is_digit(c: char) -> bool {
    '0' <= c && c <= '9'
}

pub open spec fn all_digits(s: Seq<char>) -> bool {
    forall|i: int| 0 <= i < s.len() ==> is_digit(#[trigger] s[i])
}

/// The value of a string of decimal digits.
pub open spec fn digits_value(s: Seq<char>) -> int
    decreases s.len(),
{
    if s.len() == 0 {
        0
    } else {
        10 * digits_value(s.drop_last()) + (s.last() as int - '0' as int)
    }
}

/// The integer that `s` writes: an optional `-` and at least one digit,
/// nothing else, within the range of `i64`.
pub open spec fn integer_of(s: Seq<char>) -> Option<i64> {
    if s.len() > 0 && s[0] == '-' {
        let d = s.skip(1);
        if d.len() > 0 && all_digits(d) && -digits_value(d) >= i64::MIN {
            Some((-digits_value(d)) as i64)
        } else {
            None
        }
    } else if s.len() > 0 && all_digits(s) && digits_value(s) <= i64::MAX {
        Some(digits_value(s) as i64)
    } else {
        None
    }
}

proof fn lemma_digits_value_grows(s: Seq<char>, k: int)
    requires
        0 <= k <= s.len(),
        all_digits(s),
    ensures
        digits_value(s.subrange(0, k)) <= digits_value(s),
        0 <= digits_value(s),
    decreases s.len(),
{
    if s.len() > 0 {
        assert(is_digit(s[s.len() - 1]));
        assert(all_digits(s.drop_last())) by {
            assert forall|i: int| 0 <= i < s.drop_last().len() implies is_digit(
                #[trigger] s.drop_last()[i],
            ) by {
                assert(s.drop_last()[i] == s[i]);
            }
        }
        if k < s.len() {
            assert(s.drop_last().subrange(0, k) =~= s.subrange(0, k));
            lemma_digits_value_grows(s.drop_last(), k);
        } else {
            assert(s.subrange(0, k) =~= s);
            lemma_digits_value_grows(s.drop_last(), 0);
        }
    }
}

/// Reads a decimal integer: an optional `-` and at least one ASCII digit,
/// with no other character, within the range of `i64`.
pub fn parse_integer(s: &str) -> (r: Option<i64>)
    ensures
        r == integer_of(s@),
{
    let n = s.unicode_len();
    if n == 0 {
        return None;
    }
    let neg = s.get_char(0) == '-';
    let start: usize = if neg { 1 } else { 0 };
    if start == n {
        assert(s@.skip(1).len() == 0);
        return None;
    }
    let ghost d = s@.skip(start as int);
    assert(!neg ==> d =~= s@);
    let bound: u128 = 0x8000_0000_0000_0000;
    let mut acc: u128 = 0;
    let mut i: usize = start;
    while i < n
        invariant
            n == s@.len(),
            start <= i <= n,
            start < n,
            neg == (s@[0] == '-'),
            start == (if neg { 1usize } else { 0usize }),
            d == s@.skip(start as int),
            !neg ==> d == s@,
            all_digits(s@.subrange(start as int, i as int)),
            acc == digits_value(s@.subrange(start as int, i as int)),
            acc <= bound,
            bound == 0x8000_0000_0000_0000u128,
        decreases n - i,
    {
        let c = s.get_char(i);
        if !('0' <= c && c <= '9') {
            assert(d[i - start] == s@[i as int]);
            assert(!is_digit(d[i - start]));
            return None;
        }
        let ghost prev = s@.subrange(start as int, i as int);
        let ghost next = s@.subrange(start as int, i + 1);
        assert(next.drop_last() =~= prev);
        assert(all_digits(next)) by {
            assert forall|k: int| 0 <= k < next.len() implies is_digit(#[trigger] next[k]) by {
                if k < prev.len() {
                    assert(next[k] == prev[k]);
                }
            }
        }
        acc = acc * 10 + ((c as u32) - ('0' as u32)) as u128;
        assert(next.last() == c);
        assert(acc == digits_value(next));
        i = i + 1;
        if acc > bound {
            proof {
                if all_digits(d) {
                    assert(d.subrange(0, i - start) =~= next);
                    lemma_digits_value_grows(d, i - start);
                }
            }
            return None;
        }
    }
    assert(s@.subrange(start as int, n as int) =~= d);
    if neg {
        if acc == bound {
            Some(i64::MIN)
        } else {
            Some(-(acc as i64))
        }
    } else {
        if acc > 0x7FFF_FFFF_FFFF_FFFF {
            None
        } else {
            Some(acc as i64)
        }
    }
}

/// The length of the run of digits in `s` that starts at `i`.
pub open spec fn digit_run(s: Seq<char>, i: int) -> int
    decreases s.len() - i,
{
    if 0 <= i < s.len() && is_digit(s[i]) {
        1 + digit_run(s, i + 1)
    } else {
        0
    }
}

/// Whether an exponent part (`e` or `E`, an optional sign, at least one
/// digit) begins at `c` and ends `s`, or nothing is left at `c`.
pub open spec fn exponent_ends(s: Seq<char>, c: int) -> bool {
    if c == s.len() {
        true
    } else if 0 <= c < s.len() && (s[c] == 'e' || s[c] == 'E') {
        let d = if c + 1 < s.len() && (s[c + 1] == '+' || s[c + 1] == '-') {
            c + 2
        } else {
            c + 1
        };
        digit_run(s, d) > 0 && d + digit_run(s, d) == s.len()
    } else {
        false
    }
}

/// Whether `s` writes a decimal real number: an optional sign, digits with
/// an optional fractional part (at least one digit in all), and an optional
/// exponent.
pub open spec fn is_decimal(s: Seq<char>) -> bool {
    let a: int = if s.len() > 0 && (s[0] == '-' || s[0] == '+') {
        1
    } else {
        0
    };
    let whole = digit_run(s, a);
    let b = a + whole;
    let frac = if b < s.len() && s[b] == '.' {
        digit_run(s, b + 1)
    } else {
        0
    };
    let c = if b < s.len() && s[b] == '.' {
        b + 1 + frac
    } else {
        b
    };
    whole + frac > 0 && exponent_ends(s, c)
}

fn char_at_is(s: &str, i: usize, a: char, b: char) -> (r: bool)
    ensures
        r == (i < s@.len() && (s@[i as int] == a || s@[i as int] == b)),
{
    if i < s.unicode_len() {
        let c = s.get_char(i);
        c == a || c == b
    } else {
        false
    }
}

fn digit_at(s: &str, i: usize) -> (r: bool)
    requires
        i < s@.len(),
    ensures
        r == is_digit(s@[i as int]),
{
    let c = s.get_char(i);
    '0' <= c && c <= '9'
}

fn count_digits(s: &str, i: usize) -> (r: usize)
    requires
        i <= s@.len(),
    ensures
        r == digit_run(s@, i as int),
        i + r <= s@.len(),
{
    let n = s.unicode_len();
    let mut j: usize = i;
    while j < n && digit_at(s, j)
        invariant
            n == s@.len(),
            i <= j <= n,
            digit_run(s@, i as int) == (j - i) + digit_run(s@, j as int),
        decreases n - j,
    {
        j = j + 1;
    }
    j - i
}

/// Whether `s` writes a decimal real number: an optional sign, digits with
/// an optional fractional part (at least one digit in all), and an optional
/// exponent.
pub fn is_decimal_text(s: &str) -> (r: bool)
    ensures
        r == is_decimal(s@),
{
    let n = s.unicode_len();
    let a: usize = if char_at_is(s, 0, '-', '+') { 1 } else { 0 };
    let whole = count_digits(s, a);
    let b = a + whole;
    let dot = char_at_is(s, b, '.', '.');
    let frac = if dot { count_digits(s, b + 1) } else { 0 };
    let c = if dot { b + 1 + frac } else { b };
    if whole + frac == 0 {
        return false;
    }
    if c == n {
        return true;
    }
    if !char_at_is(s, c, 'e', 'E') {
        return false;
    }
    let d = if char_at_is(s, c + 1, '+', '-') { c + 2 } else { c + 1 };
    let e = count_digits(s, d);
    e > 0 && d + e == n
}

/// Rust's `char::is_whitespace`: the characters of Unicode's White_Space
/// property.
pub open spec fn is_space(c: char) -> bool {
    ('\t' <= c && c <= '\r') || c == ' ' || c == '\u{85}' || c == '\u{A0}' || c == '\u{1680}'
        || ('\u{2000}' <= c && c <= '\u{200A}') || c == '\u{2028}' || c == '\u{2029}'
        || c == '\u{202F}' || c == '\u{205F}' || c == '\u{3000}'
}

fn space_char(c: char) -> (r: bool)
    ensures
        r == is_space(c),
{
    ('\t' <= c && c <= '\r') || c == ' ' || c == '\u{85}' || c == '\u{A0}' || c == '\u{1680}'
        || ('\u{2000}' <= c && c <= '\u{200A}') || c == '\u{2028}' || c == '\u{2029}'
        || c == '\u{202F}' || c == '\u{205F}' || c == '\u{3000}'
}

/// `s` without the white space that begins it.
pub open spec fn trim_start(s: Seq<char>) -> Seq<char>
    decreases s.len(),
{
    if s.len() > 0 && is_space(s[0]) {
        trim_start(s.skip(1))
    } else {
        s
    }
}

/// `s` without the white space that ends it.
pub open spec fn trim_end(s: Seq<char>) -> Seq<char>
    decreases s.len(),
{
    if s.len() > 0 && is_space(s.last()) {
        trim_end(s.drop_last())
    } else {
        s
    }
}

/// `s` without white space at either end.
pub open spec fn trimmed(s: Seq<char>) -> Seq<char> {
    trim_end(trim_start(s))
}

/// `s` without white space at either end.
pub fn trim(s: &str) -> (r: &str)
    ensures
        r@ == trimmed(s@),
{
    let n = s.unicode_len();
    let mut lo: usize = 0;
    assert(s@.subrange(0, n as int) =~= s@);
    while lo < n && space_char(s.get_char(lo))
        invariant
            n == s@.len(),
            lo <= n,
            trim_start(s@) == trim_start(s@.subrange(lo as int, n as int)),
        decreases n - lo,
    {
        let ghost t = s@.subrange(lo as int, n as int);
        assert(t.skip(1) =~= s@.subrange(lo + 1, n as int));
        lo = lo + 1;
    }
    let ghost t = s@.subrange(lo as int, n as int);
    assert(trim_start(s@) == t) by {
        if lo == n {
            assert(t.len() == 0);
        }
    }
    let mut hi: usize = n;
    while hi > lo && space_char(s.get_char(hi - 1))
        invariant
            n == s@.len(),
            lo <= hi <= n,
            t == s@.subrange(lo as int, n as int),
            trim_end(t) == trim_end(s@.subrange(lo as int, hi as int)),
        decreases hi,
    {
        let ghost u = s@.subrange(lo as int, hi as int);
        assert(u.drop_last() =~= s@.subrange(lo as int, hi - 1));
        hi = hi - 1;
    }
    s.substring_char(lo, hi)
}

/// The pieces of `s` between the commas, in order; `s` with no comma is
/// one piece.
pub open spec fn comma_pieces(s: Seq<char>) -> Seq<Seq<char>>
    decreases s.len(),
{
    if s.len() == 0 {
        seq![Seq::empty()]
    } else {
        let rest = comma_pieces(s.drop_last());
        if s.last() == ',' {
            rest.push(Seq::empty())
        } else {
            rest.update(rest.len() - 1, rest.last().push(s.last()))
        }
    }
}

proof fn lemma_comma_pieces_nonempty(s: Seq<char>)
    ensures
        comma_pieces(s).len() >= 1,
    decreases s.len(),
{
    if s.len() > 0 {
        lemma_comma_pieces_nonempty(s.drop_last());
    }
}

proof fn lemma_comma_pieces_prefix(s: Seq<char>, i: int)
    requires
        0 <= i < s.len(),
        s[i] == ',',
    ensures
        comma_pieces(s).len() > comma_pieces(s.subrange(0, i)).len(),
        comma_pieces(s).subrange(0, comma_pieces(s.subrange(0, i)).len() as int) == comma_pieces(
            s.subrange(0, i),
        ),
    decreases s.len(),
{
    let p = comma_pieces(s.subrange(0, i));
    lemma_comma_pieces_nonempty(s.drop_last());
    if s.len() == i + 1 {
        assert(s.drop_last() =~= s.subrange(0, i));
        assert(comma_pieces(s).subrange(0, p.len() as int) =~= p);
    } else {
        assert(s.drop_last().subrange(0, i) =~= s.subrange(0, i));
        lemma_comma_pieces_prefix(s.drop_last(), i);
        assert(comma_pieces(s).subrange(0, p.len() as int) =~= p);
    }
}

proof fn lemma_integers_of_prefix_fails(whole: Seq<Seq<char>>, prefix: Seq<Seq<char>>)
    requires
        prefix.len() <= whole.len(),
        whole.subrange(0, prefix.len() as int) == prefix,
        integers_of(prefix) is None,
    ensures
        integers_of(whole) is None,
    decreases whole.len(),
{
    if whole.len() > prefix.len() {
        assert(whole.drop_last().subrange(0, prefix.len() as int) =~= prefix);
        lemma_integers_of_prefix_fails(whole.drop_last(), prefix);
    } else {
        assert(whole =~= prefix);
    }
}

proof fn lemma_comma_pieces_plain(b: Seq<char>)
    requires
        !b.contains(','),
    ensures
        comma_pieces(b) == seq![b],
    decreases b.len(),
{
    if b.len() > 0 {
        assert(!b.drop_last().contains(',')) by {
            if b.drop_last().contains(',') {
                let i = choose|i: int| 0 <= i < b.drop_last().len() && b.drop_last()[i] == ',';
                assert(b[i] == ',');
            }
        }
        lemma_comma_pieces_plain(b.drop_last());
        assert(b[b.len() - 1] != ',');
        assert(b.drop_last().push(b.last()) =~= b);
    } else {
        assert(b =~= Seq::<char>::empty());
    }
}

proof fn lemma_comma_pieces_after(a: Seq<char>, b: Seq<char>)
    requires
        !b.contains(','),
    ensures
        comma_pieces(a + seq![','] + b) == comma_pieces(a).push(b),
    decreases b.len(),
{
    lemma_comma_pieces_nonempty(a);
    if b.len() == 0 {
        let t = a + seq![','] + b;
        assert(t.drop_last() =~= a);
        assert(t.last() == ',');
        assert(b =~= Seq::<char>::empty());
        assert(comma_pieces(t) == comma_pieces(a).push(Seq::empty()));
    } else {
        assert(!b.drop_last().contains(',')) by {
            if b.drop_last().contains(',') {
                let i = choose|i: int| 0 <= i < b.drop_last().len() && b.drop_last()[i] == ',';
                assert(b[i] == ',');
            }
        }
        lemma_comma_pieces_after(a, b.drop_last());
        let t = a + seq![','] + b;
        assert(t.drop_last() =~= a + seq![','] + b.drop_last());
        assert(b[b.len() - 1] != ',');
        assert(t.last() == b.last());
        let rest = comma_pieces(t.drop_last());
        assert(rest == comma_pieces(a).push(b.drop_last()));
        assert(rest.last() == b.drop_last());
        assert(b.drop_last().push(b.last()) =~= b);
        assert(comma_pieces(a).push(b.drop_last()).update(comma_pieces(a).len() as int, b)
            =~= comma_pieces(a).push(b));
    }
}

proof fn lemma_single_digit(c: char)
    requires
        is_digit(c),
    ensures
        integer_of(trimmed(seq![c])) == Some((c as int - '0' as int) as i64),
{
    let s = seq![c];
    assert(!is_space(c));
    assert(s[0] == c);
    assert(trim_start(s) == s);
    assert(s.last() == c);
    assert(trim_end(s) == s);
    assert(trimmed(s) == s);
    assert(s.drop_last() =~= Seq::<char>::empty());
    assert(digits_value(Seq::<char>::empty()) == 0);
    assert(digits_value(s) == c as int - '0' as int);
    assert(all_digits(s));
    assert(s[0] != '-');
}

/// `1,2,3` reads as the integers 1, 2 and 3; `1,x,3` reads as none.
pub proof fn lemma_sample_integer_lists()
    ensures
        integer_list_of("1,2,3"@) == Some(seq![1i64, 2i64, 3i64]),
        integer_list_of("1,x,3"@) is None,
{
    reveal_strlit("1,2,3");
    reveal_strlit("1,x,3");
    let one = seq!['1'];
    let two = seq!['2'];
    let three = seq!['3'];
    let ex = seq!['x'];
    assert("1,2,3"@ =~= one + seq![','] + two + seq![','] + three);
    assert("1,x,3"@ =~= one + seq![','] + ex + seq![','] + three);
    assert(!one.contains(',')) by { assert(one[0] == '1'); }
    assert(!two.contains(',')) by { assert(two[0] == '2'); }
    assert(!three.contains(',')) by { assert(three[0] == '3'); }
    assert(!ex.contains(',')) by { assert(ex[0] == 'x'); }
    lemma_comma_pieces_plain(one);
    lemma_comma_pieces_after(one, two);
    lemma_comma_pieces_after(one + seq![','] + two, three);
    lemma_comma_pieces_after(one, ex);
    lemma_comma_pieces_after(one + seq![','] + ex, three);
    let good = seq![one, two, three];
    let bad = seq![one, ex, three];
    assert(comma_pieces("1,2,3"@) =~= good);
    assert(comma_pieces("1,x,3"@) =~= bad);
    lemma_single_digit('1');
    lemma_single_digit('2');
    lemma_single_digit('3');
    assert(good.drop_last().drop_last().drop_last() =~= Seq::<Seq<char>>::empty());
    assert(good.drop_last().drop_last() =~= seq![one]);
    assert(good.drop_last() =~= seq![one, two]);
    assert(integers_of(seq![one]) == Some(seq![1i64])) by {
        assert(seq![one].drop_last() =~= Seq::<Seq<char>>::empty());
        assert(seq![one].last() == one);
        assert(integer_of(trimmed(one)) == Some(1i64));
        assert(integers_of(Seq::<Seq<char>>::empty()) == Some(Seq::<i64>::empty()));
        assert(integers_of(seq![one].drop_last()) == Some(Seq::<i64>::empty()));
        assert(Seq::<i64>::empty().push(1i64) =~= seq![1i64]);
    }
    assert(integers_of(seq![one, two]) == Some(seq![1i64, 2i64])) by {
        assert(seq![one, two].drop_last() =~= seq![one]);
        assert(seq![1i64].push(2i64) =~= seq![1i64, 2i64]);
    }
    assert(integers_of(good) == Some(seq![1i64, 2i64, 3i64])) by {
        assert(seq![1i64, 2i64].push(3i64) =~= seq![1i64, 2i64, 3i64]);
    }
    let xs = seq!['x'];
    assert(!is_space('x'));
    assert(trim_start(xs) == xs);
    assert(trim_end(xs) == xs);
    assert(!is_digit(xs[0]));
    assert(integer_of(trimmed(ex)) is None);
    assert(bad.drop_last() =~= seq![one, ex]);
    assert(seq![one, ex].drop_last() =~= seq![one]);
    assert(integers_of(seq![one]) is Some);
    assert(integers_of(seq![one, ex]) is None);
}

/// The integers that the pieces write once trimmed, if each writes one.
pub open spec fn integers_of(pieces: Seq<Seq<char>>) -> Option<Seq<i64>>
    decreases pieces.len(),
{
    if pieces.len() == 0 {
        Some(Seq::empty())
    } else {
        match (integers_of(pieces.drop_last()), integer_of(trimmed(pieces.last()))) {
            (Some(xs), Some(x)) => Some(xs.push(x)),
            _ => None,
        }
    }
}

/// The integers of a comma-separated list, each piece trimmed of white
/// space; `None` if a piece writes no integer.
pub open spec fn integer_list_of(s: Seq<char>) -> Option<Seq<i64>> {
    integers_of(comma_pieces(s))
}

/// Reads a comma-separated list of integers, each piece trimmed of white
/// space; `None` if any piece writes no integer.
pub fn parse_integer_list(s: &str) -> (r: Option<Vec<i64>>)
    ensures
        r matches Some(v) ==> integer_list_of(s@) == Some(v@),
        r is None ==> integer_list_of(s@) is None,
{
    let n = s.unicode_len();
    let mut out: Vec<i64> = Vec::new();
    let mut start: usize = 0;
    let mut i: usize = 0;
    let ghost mut done: Seq<Seq<char>> = Seq::empty();
    assert(s@.subrange(0, 0) =~= Seq::<char>::empty());
    while i < n
        invariant
            n == s@.len(),
            start <= i <= n,
            comma_pieces(s@.subrange(0, i as int)) == done.push(s@.subrange(start as int, i as int)),
            integers_of(done) == Some(out@),
        decreases n - i,
    {
        let ghost prefix = s@.subrange(0, i as int);
        let ghost next = s@.subrange(0, i + 1);
        assert(next.drop_last() =~= prefix);
        let c = s.get_char(i);
        assert(next.last() == c);
        assert(s@.subrange(start as int, i + 1) =~= s@.subrange(start as int, i as int).push(c));
        assert(s@.subrange(i + 1, i + 1) =~= Seq::<char>::empty());
        if c == ',' {
            let piece = trim(s.substring_char(start, i));
            match parse_integer(piece) {
                Some(x) => {
                    proof {
                        let old_done = done;
                        done = done.push(s@.subrange(start as int, i as int));
                        assert(done.drop_last() =~= old_done);
                        assert(comma_pieces(next) =~= done.push(s@.subrange(i + 1, i + 1)));
                    }
                    out.push(x);
                    start = i + 1;
                },
                None => {
                    proof {
                        let all = done.push(s@.subrange(start as int, i as int));
                        assert(all.drop_last() =~= done);
                        lemma_comma_pieces_prefix(s@, i as int);
                        lemma_integers_of_prefix_fails(comma_pieces(s@), all);
                    }
                    return None;
                },
            }
        } else {
            proof {
                assert(comma_pieces(next) =~= done.push(s@.subrange(start as int, i + 1)));
            }
        }
        i = i + 1;
    }
    let piece = trim(s.substring_char(start, n));
    assert(s@.subrange(0, n as int) =~= s@);
    match parse_integer(piece) {
        Some(x) => {
            proof {
                let all = done.push(s@.subrange(start as int, n as int));
                assert(all.drop_last() =~= done);
            }
            out.push(x);
            Some(out)
        },
        None => {
            proof {
                let all = done.push(s@.subrange(start as int, n as int));
                assert(all.drop_last() =~= done);
            }
            None
        },
    }
}

/// The decimal digit for `d` in `0..10`.
pub open spec fn digit_char(d: int) -> char {
    if d == 0 { '0' } else if d == 1 { '1' } else if d == 2 { '2' } else if d == 3 { '3' }
    else if d == 4 { '4' } else if d == 5 { '5' } else if d == 6 { '6' } else if d == 7 { '7' }
    else if d == 8 { '8' } else { '9' }
}

/// The decimal writing of `m`, without leading zeros.
pub open spec fn natural_text(m: nat) -> Seq<char>
    decreases m,
{
    if m < 10 {
        seq![digit_char(m as int)]
    } else {
        natural_text(m / 10).push(digit_char((m % 10) as int))
    }
}

/// The decimal writing of `n`: a `-` for a negative number, then its
/// magnitude without leading zeros.
pub open spec fn decimal_text(n: int) -> Seq<char> {
    if n < 0 {
        seq!['-'] + natural_text((-n) as nat)
    } else {
        natural_text(n as nat)
    }
}

fn digit_string(d: u64) -> (r: String)
    requires
        d < 10,
    ensures
        r@ == seq![digit_char(d as int)],
{
    let c = if d == 0 { '0' } else if d == 1 { '1' } else if d == 2 { '2' } else if d == 3 { '3' }
    else if d == 4 { '4' } else if d == 5 { '5' } else if d == 6 { '6' } else if d == 7 { '7' }
    else if d == 8 { '8' } else { '9' };
    char_string(c)
}

/// Relies on `char::to_string`: the string of that one character.
#[verifier::external_body]
pub(crate) fn char_string(c: char) -> (r: String)
    ensures
        r@ == seq![c],
{
    c.to_string()
}

fn natural_string(m: u64) -> (r: String)
    ensures
        r@ == natural_text(m as nat),
    decreases m,
{
    if m < 10 {
        digit_string(m)
    } else {
        let head = natural_string(m / 10);
        let last = digit_string(m % 10);
        head.concat(last.as_str())
    }
}

/// The decimal writing of `n`.
pub fn decimal_string(n: i64) -> (r: String)
    ensures
        r@ == decimal_text(n as int),
{
    if n < 0 {
        let m: u64 = if n == i64::MIN { 0x8000_0000_0000_0000 } else { (-n) as u64 };
        let digits = natural_string(m);
        char_string('-').concat(digits.as_str())
    } else {
        natural_string(n as u64)
    }
}

} // verus!
