//! Small text renderings for the titlebar and the history panel: grouped
//! counts, word counts and checkpoint timestamps.

use vstd::prelude::*;
use crate::chars::{chars_of, string_from_chars};
use crate::stem::{is_ws, is_ws_exec};

verus! {

/// The ASCII digit for `d < 10`.
pub open spec fn digit_char(d: nat) -> char {
    (48 + d) as char
}

/// The decimal numeral of `n`, most significant digit first, no leading zeros.
pub open spec fn decimal(n: nat) -> Seq<char>
    decreases n,
{
    if n < 10 {
        seq![digit_char(n)]
    } else {
        decimal(n / 10).push(digit_char(n % 10))
    }
}

/// The three digits of `r < 1000`, zero-padded.
pub open spec fn three_digits(r: nat) -> Seq<char> {
    seq![digit_char(r / 100), digit_char((r / 10) % 10), digit_char(r % 10)]
}

/// The numeral of `n` with a comma between each group of three digits,
/// counted from the right.
pub open spec fn thousands(n: nat) -> Seq<char>
    decreases n,
{
    if n < 1000 {
        decimal(n)
    } else {
        thousands(n / 1000) + seq![','] + three_digits(n % 1000)
    }
}

/// `s` with every comma taken out.
pub open spec fn without_commas(s: Seq<char>) -> Seq<char>
    decreases s.len(),
{
    if s.len() == 0 {
        s
    } else if s.last() == ',' {
        without_commas(s.drop_last())
    } else {
        without_commas(s.drop_last()).push(s.last())
    }
}

fn digit_exec(d: u64) -> (c: char)
    requires
        d < 10,
    ensures
        c == digit_char(d as nat),
{
    let b: u8 = d as u8 + 48;
    b as char
}

/// Appends the decimal numeral of `n`.
pub(crate) fn push_decimal(n: u64, out: &mut Vec<char>)
    ensures
        final(out)@ == old(out)@ + decimal(n as nat),
    decreases n,
{
    if n < 10 {
        out.push(digit_exec(n));
    } else {
        push_decimal(n / 10, out);
        out.push(digit_exec(n % 10));
    }
}

/// Appends the grouped numeral of `n`.
fn push_thousands(n: u64, out: &mut Vec<char>)
    ensures
        final(out)@ == old(out)@ + thousands(n as nat),
    decreases n,
{
    if n < 1000 {
        push_decimal(n, out);
    } else {
        push_thousands(n / 1000, out);
        out.push(',');
        let r = n % 1000;
        out.push(digit_exec(r / 100));
        out.push(digit_exec((r / 10) % 10));
        out.push(digit_exec(r % 10));
        assert(out@ =~= old(out)@ + thousands(n as nat));
    }
}

/// 1234 -> "1,234": the count with its thousands separated by commas.
pub fn format_thousands(n: usize) -> (s: String)
    ensures
        s@ == thousands(n as nat),
{
    let mut out: Vec<char> = Vec::new();
    push_thousands(n as u64, &mut out);
    assert(out@ =~= thousands(n as nat));
    string_from_chars(&out)
}

proof fn lemma_decimal_split(n: nat)
    requires
        n >= 1000,
    ensures
        decimal(n) == decimal(n / 1000) + three_digits(n % 1000),
{
    let r = n % 1000;
    assert(n / 10 / 10 == n / 100) by (nonlinear_arith)
        requires n >= 1000;
    assert(n / 100 / 10 == n / 1000) by (nonlinear_arith)
        requires n >= 1000;
    assert(n % 10 == r % 10) by (nonlinear_arith)
        requires r == n % 1000;
    assert((n / 10) % 10 == (r / 10) % 10) by (nonlinear_arith)
        requires r == n % 1000;
    assert((n / 100) % 10 == r / 100) by (nonlinear_arith)
        requires r == n % 1000;
    assert(n / 10 >= 10 && n / 100 >= 10);
    assert(decimal(n) == decimal(n / 10).push(digit_char(n % 10)));
    assert(decimal(n / 10) == decimal(n / 100).push(digit_char((n / 10) % 10)));
    assert(decimal(n / 100) == decimal(n / 1000).push(digit_char((n / 100) % 10)));
    assert(decimal(n) =~= decimal(n / 1000) + three_digits(r));
}

proof fn lemma_without_commas_concat(a: Seq<char>, b: Seq<char>)
    ensures
        without_commas(a + b) == without_commas(a) + without_commas(b),
    decreases b.len(),
{
    if b.len() == 0 {
        assert(a + b =~= a);
        assert(without_commas(b) =~= Seq::<char>::empty());
        assert(without_commas(a) + without_commas(b) =~= without_commas(a));
    } else {
        lemma_without_commas_concat(a, b.drop_last());
        assert((a + b).drop_last() =~= a + b.drop_last());
        assert((a + b).last() == b.last());
        if b.last() != ',' {
            assert(without_commas(a) + without_commas(b.drop_last()).push(b.last())
                =~= (without_commas(a) + without_commas(b.drop_last())).push(b.last()));
        }
    }
}

proof fn lemma_no_commas_in_decimal(n: nat)
    ensures
        without_commas(decimal(n)) == decimal(n),
    decreases n,
{
    if n < 10 {
        reveal_with_fuel(without_commas, 2);
        assert(seq![digit_char(n)].drop_last() =~= Seq::<char>::empty());
    } else {
        lemma_no_commas_in_decimal(n / 10);
        lemma_without_commas_concat(decimal(n / 10), seq![digit_char(n % 10)]);
        reveal_with_fuel(without_commas, 2);
        assert(seq![digit_char(n % 10)].drop_last() =~= Seq::<char>::empty());
        assert(without_commas(seq![digit_char(n % 10)]) =~= seq![digit_char(n % 10)]);
        assert(decimal(n / 10) + seq![digit_char(n % 10)] =~= decimal(n));
    }
}

/// Taking the commas out of a grouped count gives back its plain numeral.
pub proof fn law_thousands_strip_to_decimal(n: nat)
    ensures
        without_commas(thousands(n)) == decimal(n),
    decreases n,
{
    if n < 1000 {
        lemma_no_commas_in_decimal(n);
    } else {
        law_thousands_strip_to_decimal(n / 1000);
        let t = thousands(n / 1000);
        let d = three_digits(n % 1000);
        lemma_without_commas_concat(t + seq![','], d);
        lemma_without_commas_concat(t, seq![',']);
        reveal_with_fuel(without_commas, 4);
        assert(seq![','].drop_last() =~= Seq::<char>::empty());
        assert(without_commas(seq![',']) =~= Seq::<char>::empty());
        assert(d.drop_last().drop_last().drop_last() =~= Seq::<char>::empty());
        assert(d.drop_last().drop_last() =~= seq![d[0]]);
        assert(d.drop_last() =~= seq![d[0], d[1]]);
        assert(without_commas(d) =~= d);
        lemma_decimal_split(n);
        assert(without_commas(t + seq![',']) =~= decimal(n / 1000));
    }
}

/// The characters of the chunks, one after another.
pub open spec fn joined(chunks: Seq<Seq<char>>) -> Seq<char>
    decreases chunks.len(),
{
    if chunks.len() == 0 {
        Seq::empty()
    } else {
        joined(chunks.drop_last()) + chunks.last()
    }
}

/// The text views of a list of `&str` chunks.
pub open spec fn chunk_views(chunks: Seq<&str>) -> Seq<Seq<char>> {
    chunks.map_values(|c: &str| c@)
}

/// A word starts at `i`: a non-whitespace character at the start of the text
/// or right after whitespace.
pub open spec fn starts_word(s: Seq<char>, i: int) -> bool {
    !is_ws(s[i]) && (i == 0 || is_ws(s[i - 1]))
}

/// The number of whitespace-delimited words in `s`.
pub open spec fn word_count(s: Seq<char>) -> nat
    decreases s.len(),
{
    if s.len() == 0 {
        0
    } else {
        word_count(s.drop_last()) + if starts_word(s, s.len() - 1) {
            1nat
        } else {
            0nat
        }
    }
}

proof fn lemma_word_count_le_len(s: Seq<char>)
    ensures
        word_count(s) <= s.len(),
    decreases s.len(),
{
    if s.len() > 0 {
        lemma_word_count_le_len(s.drop_last());
    }
}

proof fn lemma_word_count_push(s: Seq<char>, c: char)
    ensures
        word_count(s.push(c)) == word_count(s) + if !is_ws(c) && (s.len() == 0 || is_ws(
            s.last(),
        )) {
            1nat
        } else {
            0nat
        },
{
    assert(s.push(c).drop_last() =~= s);
}

/// Whitespace-delimited word count over text chunks: a word split across two
/// chunks counts once, exactly as in the joined text.
pub fn count_words(chunks: &[&str]) -> (n: usize)
    requires
        joined(chunk_views(chunks@)).len() <= usize::MAX,
    ensures
        n == word_count(joined(chunk_views(chunks@))),
{
    let ghost views = chunk_views(chunks@);
    let mut words: usize = 0;
    let mut in_word = false;
    let mut k: usize = 0;
    proof {
        assert(views.take(0) =~= Seq::<Seq<char>>::empty());
    }
    while k < chunks.len()
        invariant
            views == chunk_views(chunks@),
            joined(views).len() <= usize::MAX,
            0 <= k <= chunks.len(),
            words == word_count(joined(views.take(k as int))),
            in_word == (joined(views.take(k as int)).len() > 0 && !is_ws(
                joined(views.take(k as int)).last(),
            )),
        decreases chunks.len() - k,
    {
        let cs = chars_of(chunks[k]);
        let ghost before = joined(views.take(k as int));
        proof {
            assert(views.take(k + 1).drop_last() =~= views.take(k as int));
            assert(views.take(k + 1).last() == views[k as int]);
            lemma_joined_prefix_le(views, k + 1);
        }
        let mut j: usize = 0;
        while j < cs.len()
            invariant
                views == chunk_views(chunks@),
                joined(views).len() <= usize::MAX,
                0 <= k < chunks.len(),
                cs@ == views[k as int],
                before == joined(views.take(k as int)),
                0 <= j <= cs.len(),
                words == word_count(before + cs@.take(j as int)),
                in_word == ((before + cs@.take(j as int)).len() > 0 && !is_ws(
                    (before + cs@.take(j as int)).last(),
                )),
                before.len() + cs.len() <= joined(views).len(),
            decreases cs.len() - j,
        {
            let c = cs[j];
            let ghost pre = before + cs@.take(j as int);
            proof {
                assert(before + cs@.take(j + 1) =~= pre.push(c));
                lemma_word_count_push(pre, c);
                lemma_word_count_le_len(pre);
            }
            if is_ws_exec(c) {
                in_word = false;
            } else if !in_word {
                in_word = true;
                words += 1;
            }
            j += 1;
        }
        proof {
            assert(cs@.take(cs.len() as int) =~= cs@);
            assert(views.take(k + 1).drop_last() =~= views.take(k as int));
            assert(views.take(k + 1).last() == views[k as int]);
            lemma_joined_prefix_le(views, k + 1);
        }
        k += 1;
    }
    proof {
        assert(views.take(chunks.len() as int) =~= views);
    }
    words
}

proof fn lemma_joined_prefix_le(views: Seq<Seq<char>>, k: int)
    requires
        0 <= k <= views.len(),
    ensures
        joined(views.take(k)).len() <= joined(views).len(),
    decreases views.len() - k,
{
    if k < views.len() {
        lemma_joined_prefix_le(views, k + 1);
        assert(views.take(k + 1).drop_last() =~= views.take(k));
    } else {
        assert(views.take(k) =~= views);
    }
}

/// `s` left-padded with `'0'` to at least `w` characters.
pub open spec fn zero_pad(s: Seq<char>, w: int) -> Seq<char> {
    if s.len() >= w {
        s
    } else {
        Seq::new((w - s.len()) as nat, |i: int| '0') + s
    }
}

/// `v` rendered as `{v:0w}` renders it: sign first, then zeros up to a total
/// width of `w`, then the digits.
pub open spec fn padded(v: int, w: int) -> Seq<char> {
    if v < 0 {
        seq!['-'] + zero_pad(decimal((-v) as nat), w - 1)
    } else {
        zero_pad(decimal(v as nat), w)
    }
}

/// The UTC calendar reading of a Unix time, in the proleptic Gregorian
/// calendar: `(year, month, day, hour, minute)`, by Howard Hinnant's
/// days-to-civil method (a 400-year era starting on 1 March).
pub open spec fn civil(secs: int) -> (int, int, int, int, int) {
    let days = secs / 86400;
    let rem = secs % 86400;
    let z = days + 719468;
    let era = z / 146097;
    let doe = z - era * 146097;
    let yoe = (doe - doe / 1460 + doe / 36524 - doe / 146096) / 365;
    let doy = doe - (365 * yoe + yoe / 4 - yoe / 100);
    let mp = (5 * doy + 2) / 153;
    let d = doy - (153 * mp + 2) / 5 + 1;
    let m = if mp < 10 {
        mp + 3
    } else {
        mp - 9
    };
    let y = yoe + era * 400 + if m <= 2 {
        1int
    } else {
        0int
    };
    (y, m, d, rem / 3600, (rem % 3600) / 60)
}

/// The date part of a checkpoint label: `YYYY-MM-DD`, UTC.
pub open spec fn date_label(secs: int) -> Seq<char> {
    let (y, m, d, hh, mm) = civil(secs);
    padded(y, 4) + seq!['-'] + padded(m, 2) + seq!['-'] + padded(d, 2)
}

/// The time part of a checkpoint label: `HH:MM`, UTC.
pub open spec fn time_label(secs: int) -> Seq<char> {
    let (y, m, d, hh, mm) = civil(secs);
    padded(hh, 2) + seq![':'] + padded(mm, 2)
}

/// The checkpoint label for a Unix time: `YYYY-MM-DD HH:MM`, UTC.
pub open spec fn unix_label(secs: int) -> Seq<char> {
    date_label(secs) + seq![' '] + time_label(secs)
}

/// Euclidean quotient for a positive divisor.
fn ediv(a: i64, b: i64) -> (q: i64)
    requires
        b > 0,
    ensures
        q == a / b,
{
    match a.checked_div_euclid(b) {
        Some(q) => q,
        None => {
            proof {
                assert(a / b <= a || a / b <= -a) by (nonlinear_arith)
                    requires b > 0;
                assert(i64::MIN <= a / b <= i64::MAX) by (nonlinear_arith)
                    requires b > 0, i64::MIN <= a <= i64::MAX;
            }
            0
        },
    }
}

/// Euclidean remainder for a positive divisor.
fn emod(a: i64, b: i64) -> (r: i64)
    requires
        b > 0,
    ensures
        r == a % b,
{
    match a.checked_rem_euclid(b) {
        Some(r) => r,
        None => {
            proof {
                assert(0 <= a % b < b) by (nonlinear_arith)
                    requires b > 0;
            }
            0
        },
    }
}

/// Appends `v` zero-padded to width `w`, sign first.
fn push_padded(v: i64, w: usize, out: &mut Vec<char>)
    requires
        v > i64::MIN,
        w >= 1,
    ensures
        final(out)@ == old(out)@ + padded(v as int, w as int),
{
    let mut digits: Vec<char> = Vec::new();
    let width: usize = if v < 0 {
        out.push('-');
        push_decimal((-v) as u64, &mut digits);
        w - 1
    } else {
        push_decimal(v as u64, &mut digits);
        w
    };
    assert(digits@ =~= decimal(if v < 0 { (-v) as nat } else { v as nat }));
    let ghost mid = out@;
    if digits.len() < width {
        let zeros = width - digits.len();
        let mut i: usize = 0;
        while i < zeros
            invariant
                0 <= i <= zeros,
                out@ == mid + Seq::new(i as nat, |k: int| '0'),
            decreases zeros - i,
        {
            out.push('0');
            i += 1;
            assert(out@ =~= mid + Seq::new(i as nat, |k: int| '0'));
        }
    }
    let mut j: usize = 0;
    let ghost padmid = out@;
    while j < digits.len()
        invariant
            0 <= j <= digits.len(),
            out@ == padmid + digits@.take(j as int),
        decreases digits.len() - j,
    {
        out.push(digits[j]);
        j += 1;
        assert(out@ =~= padmid + digits@.take(j as int));
    }
    assert(digits@.take(digits.len() as int) =~= digits@);
    assert(out@ =~= old(out)@ + padded(v as int, w as int));
}

/// The calendar fields of a Unix time, each far inside `i64`.
fn civil_exec(secs: i64) -> (r: (i64, i64, i64, i64, i64))
    ensures
        (r.0 as int, r.1 as int, r.2 as int, r.3 as int, r.4 as int) == civil(secs as int),
        r.0 > i64::MIN && r.1 > i64::MIN && r.2 > i64::MIN && r.3 > i64::MIN && r.4 > i64::MIN,
{
    let days = ediv(secs, 86400);
    let rem = emod(secs, 86400);
    proof {
        assert(-106751991167301 <= days <= 106751991167300) by (nonlinear_arith)
            requires days == secs / 86400, i64::MIN <= secs <= i64::MAX;
    }
    let z = days + 719468;
    let era = ediv(z, 146097);
    proof {
        assert(-730692922 <= era <= 730692922) by (nonlinear_arith)
            requires era == z / 146097, -106751991167301 <= z <= 106751991887000;
        assert(0 <= z - era * 146097 < 146097) by (nonlinear_arith)
            requires era == z / 146097;
    }
    let doe = z - era * 146097;
    let yoe = ediv(doe - ediv(doe, 1460) + ediv(doe, 36524) - ediv(doe, 146096), 365);
    proof {
        assert(0 <= yoe <= 400) by (nonlinear_arith)
            requires
                0 <= doe < 146097,
                yoe == (doe - doe / 1460 + doe / 36524 - doe / 146096) / 365;
    }
    let doy = doe - (365 * yoe + ediv(yoe, 4) - ediv(yoe, 100));
    proof {
        assert(-1000000 <= doy <= 1000000) by (nonlinear_arith)
            requires
                0 <= doe < 146097,
                0 <= yoe <= 400,
                doy == doe - (365 * yoe + yoe / 4 - yoe / 100);
    }
    let mp = ediv(5 * doy + 2, 153);
    proof {
        assert(-100000 <= mp <= 100000) by (nonlinear_arith)
            requires -1000000 <= doy <= 1000000, mp == (5 * doy + 2) / 153;
    }
    let d = doy - ediv(153 * mp + 2, 5) + 1;
    let m = if mp < 10 {
        mp + 3
    } else {
        mp - 9
    };
    let y = yoe + era * 400 + if m <= 2 {
        1
    } else {
        0
    };
    let hh = ediv(rem, 3600);
    let mm = ediv(emod(rem, 3600), 60);
    proof {
        assert(0 <= rem < 86400);
        assert(0 <= hh <= 24) by (nonlinear_arith)
            requires 0 <= rem < 86400, hh == rem / 3600;
        assert(0 <= mm <= 60) by (nonlinear_arith)
            requires 0 <= rem % 3600 < 3600, mm == (rem % 3600) / 60;
        assert(-10000000 <= d <= 10000000) by (nonlinear_arith)
            requires
                -1000000 <= doy <= 1000000,
                -100000 <= mp <= 100000,
                d == doy - (153 * mp + 2) / 5 + 1;
    }
    (y, m, d, hh, mm)
}

/// Appends the date part `YYYY-MM-DD`.
fn push_date(f: (i64, i64, i64, i64, i64), out: &mut Vec<char>)
    requires
        f.0 > i64::MIN && f.1 > i64::MIN && f.2 > i64::MIN,
    ensures
        final(out)@ == old(out)@ + padded(f.0 as int, 4) + seq!['-'] + padded(f.1 as int, 2) + seq!['-']
            + padded(f.2 as int, 2),
{
    push_padded(f.0, 4, out);
    out.push('-');
    push_padded(f.1, 2, out);
    out.push('-');
    push_padded(f.2, 2, out);
    assert(out@ =~= old(out)@ + padded(f.0 as int, 4) + seq!['-'] + padded(f.1 as int, 2) + seq!['-']
        + padded(f.2 as int, 2));
}

/// Appends the time part `HH:MM`.
fn push_time(f: (i64, i64, i64, i64, i64), out: &mut Vec<char>)
    requires
        f.3 > i64::MIN && f.4 > i64::MIN,
    ensures
        final(out)@ == old(out)@ + padded(f.3 as int, 2) + seq![':'] + padded(f.4 as int, 2),
{
    push_padded(f.3, 2, out);
    out.push(':');
    push_padded(f.4, 2, out);
    assert(out@ =~= old(out)@ + padded(f.3 as int, 2) + seq![':'] + padded(f.4 as int, 2));
}

/// A checkpoint's timestamp label, `YYYY-MM-DD HH:MM` in UTC.
pub fn format_unix(secs: i64) -> (s: String)
    ensures
        s@ == unix_label(secs as int),
{
    let f = civil_exec(secs);
    let mut out: Vec<char> = Vec::new();
    push_date(f, &mut out);
    out.push(' ');
    push_time(f, &mut out);
    assert(out@ =~= unix_label(secs as int));
    string_from_chars(&out)
}

/// The date part of a checkpoint's label, `YYYY-MM-DD` in UTC.
pub fn format_day(secs: i64) -> (s: String)
    ensures
        s@ == date_label(secs as int),
{
    let f = civil_exec(secs);
    let mut out: Vec<char> = Vec::new();
    push_date(f, &mut out);
    assert(out@ =~= date_label(secs as int));
    string_from_chars(&out)
}

/// The time part of a checkpoint's label, `HH:MM` in UTC.
pub fn format_time(secs: i64) -> (s: String)
    ensures
        s@ == time_label(secs as int),
{
    let f = civil_exec(secs);
    let mut out: Vec<char> = Vec::new();
    push_time(f, &mut out);
    assert(out@ =~= time_label(secs as int));
    string_from_chars(&out)
}

proof fn lemma_year_of_era(doe: int)
    requires
        0 <= doe <= 146096,
    ensures
        ({
            let yoe = (doe - doe / 1460 + doe / 36524 - doe / 146096) / 365;
            let doy = doe - (365 * yoe + yoe / 4 - yoe / 100);
            0 <= yoe <= 399 && 0 <= doy <= 365
        }),
{
    let a = doe / 1460;
    let b = doe / 36524;
    let c = doe / 146096;
    assert(0 <= a <= 100 && 1460 * a <= doe < 1460 * a + 1460) by (nonlinear_arith)
        requires a == doe / 1460, 0 <= doe <= 146096;
    assert(0 <= b <= 4 && 36524 * b <= doe < 36524 * b + 36524) by (nonlinear_arith)
        requires b == doe / 36524, 0 <= doe <= 146096;
    assert(0 <= c <= 1 && (c == 1 <==> doe == 146096)) by (nonlinear_arith)
        requires c == doe / 146096, 0 <= doe <= 146096;
    let n = doe - a + b - c;
    let yoe = n / 365;
    assert(0 <= yoe <= 399 && 365 * yoe <= n < 365 * yoe + 365) by (nonlinear_arith)
        requires
            yoe == n / 365,
            n == doe - a + b - c,
            0 <= a <= 100,
            0 <= b <= 4,
            0 <= c <= 1,
            1460 * a <= doe < 1460 * a + 1460,
            36524 * b <= doe < 36524 * b + 36524,
            c == 1 <==> doe == 146096,
            0 <= doe <= 146096;
    let y4 = yoe / 4;
    let y100 = yoe / 100;
    assert(4 * y4 <= yoe < 4 * y4 + 4 && 100 * y100 <= yoe < 100 * y100 + 100 && 0 <= y100 <= 3) by (nonlinear_arith)
        requires y4 == yoe / 4, y100 == yoe / 100, 0 <= yoe <= 399;
    let doy = doe - (365 * yoe + y4 - y100);
    assert(0 <= doy <= 365) by (nonlinear_arith)
        requires
            doy == doe - (365 * yoe + y4 - y100),
            365 * yoe <= n < 365 * yoe + 365,
            n == doe - a + b - c,
            4 * y4 <= yoe < 4 * y4 + 4,
            100 * y100 <= yoe < 100 * y100 + 100,
            1460 * a <= doe < 1460 * a + 1460,
            36524 * b <= doe < 36524 * b + 36524,
            c == 1 <==> doe == 146096,
            0 <= c <= 1,
            0 <= doe <= 146096,
            0 <= yoe <= 399;
}

/// Every timestamp reads as a calendar date and a clock time: month 1 to
/// 12, day 1 to 31, hour 0 to 23, minute 0 to 59.
pub proof fn law_civil_fields_in_range(secs: int)
    ensures
        ({
            let (y, m, d, hh, mm) = civil(secs);
            1 <= m <= 12 && 1 <= d <= 31 && 0 <= hh <= 23 && 0 <= mm <= 59
        }),
{
    let days = secs / 86400;
    let rem = secs % 86400;
    let z = days + 719468;
    let era = z / 146097;
    let doe = z - era * 146097;
    assert(0 <= rem < 86400) by (nonlinear_arith)
        requires rem == secs % 86400;
    assert(0 <= doe <= 146096) by (nonlinear_arith)
        requires era == z / 146097, doe == z - era * 146097;
    lemma_year_of_era(doe);
    let yoe = (doe - doe / 1460 + doe / 36524 - doe / 146096) / 365;
    let doy = doe - (365 * yoe + yoe / 4 - yoe / 100);
    let mp = (5 * doy + 2) / 153;
    assert(0 <= mp <= 11 && 153 * mp <= 5 * doy + 2 < 153 * mp + 153) by (nonlinear_arith)
        requires mp == (5 * doy + 2) / 153, 0 <= doy <= 365;
    let q = (153 * mp + 2) / 5;
    assert(5 * q <= 153 * mp + 2 < 5 * q + 5) by (nonlinear_arith)
        requires q == (153 * mp + 2) / 5, 0 <= mp <= 11;
    let d = doy - q + 1;
    assert(1 <= d <= 31) by (nonlinear_arith)
        requires
            d == doy - q + 1,
            5 * q <= 153 * mp + 2 < 5 * q + 5,
            153 * mp <= 5 * doy + 2 < 153 * mp + 153,
            0 <= mp <= 11;
    assert(0 <= rem / 3600 <= 23) by (nonlinear_arith)
        requires 0 <= rem < 86400;
    assert(0 <= (rem % 3600) / 60 <= 59) by (nonlinear_arith)
        requires 0 <= rem < 86400;
}

} // verus!
