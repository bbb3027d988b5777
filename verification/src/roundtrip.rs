//! Times that the Enhanced LRC form writes read back as timestamps.
use vstd::prelude::*;
use crate::formatters::{digit_char, digits, fmt_int, pad_zero, spec_lrc_time, trunc_rem, zeros};
use crate::parser::{
    all_digits, digit_value, digits_value, frac_head, frac_ms, int_literal, spec_parse_timestamp_ms,
};
use crate::ratio::trunc_div;
use crate::text::{is_ascii_digit, is_ws, split_on, trim, trim_end, trim_start};

verus! {

proof fn lemma_digit_char(d: int)
    requires
        0 <= d < 10,
    ensures
        is_ascii_digit(digit_char(d)),
        digit_value(digit_char(d)) == d,
{
    let t = seq!['0', '1', '2', '3', '4', '5', '6', '7', '8', '9'];
    if d == 0 {
        assert(t[0] == '0');
    } else if d == 1 {
        assert(t[1] == '1');
    } else if d == 2 {
        assert(t[2] == '2');
    } else if d == 3 {
        assert(t[3] == '3');
    } else if d == 4 {
        assert(t[4] == '4');
    } else if d == 5 {
        assert(t[5] == '5');
    } else if d == 6 {
        assert(t[6] == '6');
    } else if d == 7 {
        assert(t[7] == '7');
    } else if d == 8 {
        assert(t[8] == '8');
    } else {
        assert(t[9] == '9');
    }
}

/// The digits of `n` are ASCII digits that read back as `n`.
proof fn lemma_digits(n: nat)
    ensures
        all_digits(digits(n)),
        digits_value(digits(n)) == n,
        digits(n).len() >= 1,
        n < 10 ==> digits(n).len() == 1,
        n < 100 ==> digits(n).len() <= 2,
    decreases n,
{
    if n < 10 {
        lemma_digit_char(n as int);
        let d = digits(n);
        assert(d == seq![digit_char(n as int)]);
        assert(d.drop_last() =~= Seq::<char>::empty());
        assert(digits_value(d.drop_last()) == 0);
        assert(d.last() == digit_char(n as int));
        assert(digits_value(d) == digits_value(d.drop_last()) * 10 + digit_value(d.last()));
    } else {
        lemma_digits(n / 10);
        lemma_digit_char((n % 10) as int);
        let d = digits(n);
        assert(d.drop_last() =~= digits(n / 10));
        assert(d.last() == digit_char((n % 10) as int));
        assert(n == (n / 10) * 10 + n % 10);
        assert(digits_value(d) == digits_value(digits(n / 10)) * 10 + digit_value(d.last()));
        assert forall|k: int| 0 <= k < d.len() implies is_ascii_digit(#[trigger] d[k]) by {
            if k < d.len() - 1 {
                assert(d[k] == digits(n / 10)[k]);
            }
        }
    }
}

proof fn lemma_zeros_value(k: int)
    ensures
        digits_value(zeros(k)) == 0,
        all_digits(zeros(k)),
    decreases k,
{
    if k > 0 {
        lemma_zeros_value(k - 1);
        assert(zeros(k).drop_last() =~= zeros(k - 1));
    } else {
        assert(zeros(k) =~= Seq::<char>::empty());
    }
}

proof fn lemma_zero_prefix(a: Seq<char>, b: Seq<char>)
    requires
        digits_value(a) == 0,
    ensures
        digits_value(a + b) == digits_value(b),
    decreases b.len(),
{
    if b.len() == 0 {
        assert(a + b =~= a);
    } else {
        lemma_zero_prefix(a, b.drop_last());
        assert((a + b).drop_last() =~= a + b.drop_last());
        assert((a + b).last() == b.last());
    }
}

/// A non-negative number written zero-padded is ASCII digits that read
/// back as the number.
proof fn lemma_fmt_nonneg(n: int, w: int)
    requires
        n >= 0,
    ensures
        fmt_int(n, w) == pad_zero(digits(n as nat), w),
        all_digits(fmt_int(n, w)),
        digits_value(fmt_int(n, w)) == n,
        fmt_int(n, w).len() >= 1,
        n < 100 && w == 2 ==> fmt_int(n, w).len() == 2,
{
    lemma_digits(n as nat);
    let d = digits(n as nat);
    if d.len() < w {
        lemma_zeros_value(w - d.len());
        lemma_zero_prefix(zeros(w - d.len()), d);
        let p = zeros(w - d.len()) + d;
        assert forall|k: int| 0 <= k < p.len() implies is_ascii_digit(#[trigger] p[k]) by {
            if k < w - d.len() {
                assert(p[k] == '0');
            } else {
                assert(p[k] == d[k - (w - d.len())]);
            }
        }
    }
}

proof fn lemma_split_no_sep(x: Seq<char>, sep: char)
    requires
        !x.contains(sep),
    ensures
        split_on(x, sep) == seq![x],
    decreases x.len(),
{
    if x.len() == 0 {
        assert(x =~= Seq::<char>::empty());
        assert(split_on(x, sep) =~= seq![x]);
    } else {
        assert(!x.drop_last().contains(sep)) by {
            if x.drop_last().contains(sep) {
                let k = choose|k: int| 0 <= k < x.drop_last().len() && x.drop_last()[k] == sep;
                assert(x[k] == sep);
            }
        }
        lemma_split_no_sep(x.drop_last(), sep);
        assert(x.last() != sep) by {
            assert(x[x.len() - 1] == x.last());
        }
        assert(x.drop_last().push(x.last()) =~= x);
        let p = split_on(x.drop_last(), sep);
        assert(p == seq![x.drop_last()]);
        assert(split_on(x, sep) == p.update(p.len() - 1, p.last().push(x.last())));
        assert(p.update(p.len() - 1, p.last().push(x.last())) =~= seq![x]);
    }
}

proof fn lemma_split_extend(p: Seq<char>, q: Seq<char>, sep: char)
    requires
        !q.contains(sep),
    ensures
        split_on(p + q, sep) == split_on(p, sep).update(
            split_on(p, sep).len() - 1,
            split_on(p, sep).last() + q,
        ),
        split_on(p + q, sep).len() == split_on(p, sep).len(),
    decreases q.len(),
{
    crate::text::lemma_split_on_nonempty(p, sep);
    let sp = split_on(p, sep);
    if q.len() == 0 {
        assert(p + q =~= p);
        assert(sp.last() + q =~= sp.last());
        assert(sp.update(sp.len() - 1, sp.last()) =~= sp);
    } else {
        assert(!q.drop_last().contains(sep)) by {
            if q.drop_last().contains(sep) {
                let k = choose|k: int| 0 <= k < q.drop_last().len() && q.drop_last()[k] == sep;
                assert(q[k] == sep);
            }
        }
        assert(q.last() != sep) by {
            assert(q[q.len() - 1] == q.last());
        }
        lemma_split_extend(p, q.drop_last(), sep);
        assert((p + q).drop_last() =~= p + q.drop_last());
        assert((p + q).last() == q.last());
        let prev = split_on(p + q.drop_last(), sep);
        assert(prev.last() == sp.last() + q.drop_last());
        assert((sp.last() + q.drop_last()).push(q.last()) =~= sp.last() + q);
        assert(split_on(p + q, sep) =~= sp.update(sp.len() - 1, sp.last() + q));
    }
}

/// `a`, a separator and `b` split at the separator into `a` and `b`.
proof fn lemma_split_two(a: Seq<char>, b: Seq<char>, sep: char)
    requires
        !a.contains(sep),
        !b.contains(sep),
    ensures
        split_on(a + seq![sep] + b, sep) == seq![a, b],
{
    lemma_split_no_sep(a, sep);
    let p = a + seq![sep];
    assert(p.drop_last() =~= a);
    assert(p.last() == sep);
    assert(split_on(p, sep) == seq![a].push(Seq::<char>::empty()));
    lemma_split_extend(p, b, sep);
    assert(Seq::<char>::empty() + b =~= b);
    assert(split_on(p + b, sep) =~= seq![a, b]);
}

proof fn lemma_digits_lack(s: Seq<char>, c: char)
    requires
        all_digits(s),
        !is_ascii_digit(c),
    ensures
        !s.contains(c),
{
    if s.contains(c) {
        let k = choose|k: int| 0 <= k < s.len() && s[k] == c;
        assert(is_ascii_digit(s[k]));
    }
}

proof fn lemma_int_literal_digits(s: Seq<char>)
    requires
        s.len() > 0,
        all_digits(s),
    ensures
        int_literal(s) == Some(digits_value(s)),
{
    assert(is_ascii_digit(s[0]));
}

/// A time written in LRC form, `mm:ss.cc`, reads back as the same time to
/// the centisecond (the form keeps no milliseconds): what `to_enhanced_lrc`
/// writes, `parse_timestamp_ms` reads.
pub proof fn lemma_lrc_time_round_trip(ms: int)
    requires
        0 <= ms <= i32::MAX,
    ensures
        spec_parse_timestamp_ms(spec_lrc_time(ms)) == Some((ms - ms % 10) as i32),
{
    let total = trunc_div(ms, 1000);
    let m = trunc_div(total, 60);
    let s = trunc_rem(total, 60);
    let c = trunc_div(trunc_rem(ms, 1000), 10);
    assert(total == ms / 1000 && ms / 1000 >= 0);
    assert(trunc_rem(ms, 1000) == ms % 1000) by (nonlinear_arith)
        requires
            ms >= 0,
            total == ms / 1000,
    {
        assert(ms == 1000 * (ms / 1000) + ms % 1000);
    }
    assert(0 <= ms % 1000 < 1000);
    assert(m == total / 60 && total / 60 >= 0);
    assert(s == total % 60) by (nonlinear_arith)
        requires
            total >= 0,
            m == total / 60,
            s == total - 60 * m,
    ;
    assert(0 <= s < 60);
    assert(c == (ms % 1000) / 10 && 0 <= c < 100);
    assert(m * 60000 + s * 1000 + c * 10 == ms - ms % 10) by (nonlinear_arith)
        requires
            ms >= 0,
            total == ms / 1000,
            m == total / 60,
            s == total % 60,
            c == (ms % 1000) / 10,
    {
        assert(ms == 1000 * total + ms % 1000);
        assert(total == 60 * m + s);
        assert(ms % 1000 == 10 * c + (ms % 1000) % 10);
        assert(ms % 10 == (ms % 1000) % 10);
    }
    assert(0 <= ms % 10 < 10);
    lemma_fmt_nonneg(m, 2);
    lemma_fmt_nonneg(s, 2);
    lemma_fmt_nonneg(c, 2);
    let a = fmt_int(m, 2);
    let b = fmt_int(s, 2);
    let f = fmt_int(c, 2);
    let t = spec_lrc_time(ms);
    assert(t == a + seq![':'] + b + seq!['.'] + f);
    // Trimming changes nothing: the text starts and ends with digits.
    assert(is_ascii_digit(a[0]));
    assert(is_ascii_digit(f[f.len() - 1]));
    assert(t[0] == a[0]);
    assert(t.last() == f[f.len() - 1]);
    assert(!is_ws(t[0]));
    assert(trim_start(t) == t);
    assert(!is_ws(t.last()));
    assert(trim_end(t) == t);
    assert(trim(t) == t);
    // The pieces.
    let r = b + seq!['.'] + f;
    assert(t =~= a + seq![':'] + r);
    lemma_digits_lack(a, ':');
    lemma_digits_lack(b, ':');
    lemma_digits_lack(f, ':');
    lemma_digits_lack(b, '.');
    lemma_digits_lack(f, '.');
    assert(!r.contains(':')) by {
        if r.contains(':') {
            let k = choose|k: int| 0 <= k < r.len() && r[k] == ':';
            if k < b.len() {
                assert(r[k] == b[k]);
                assert(b.contains(':'));
            } else if k == b.len() {
                assert(r[k] == '.');
            } else {
                assert(r[k] == f[k - b.len() - 1]);
                assert(f.contains(':'));
            }
        }
    }
    lemma_split_two(a, r, ':');
    let parts = split_on(trim(t), ':');
    assert(parts == seq![a, r]);
    lemma_int_literal_digits(a);
    lemma_split_two(b, f, '.');
    let sp = split_on(parts[1], '.');
    assert(sp == seq![b, f]);
    lemma_int_literal_digits(b);
    assert(frac_head(f) == f);
    assert(frac_ms(f) == c * 10);
}

} // verus!
