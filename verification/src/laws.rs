//! Laws of the reader and the writer, stated and proved over the
//! grammar and rendering functions.

use vstd::prelude::*;

use crate::parser::after_line_end;
use crate::parser::digit_of;
use crate::parser::digit_seq;
use crate::parser::digits_end;
use crate::parser::is_digit_char;
use crate::parser::is_space_char;
use crate::parser::is_sym_cont_char;
use crate::parser::lemma_after_line_end;
use crate::parser::lemma_read_progress;
use crate::parser::lemma_skip_ws_end;
use crate::parser::norm_num;
use crate::parser::run_val;
use crate::parser::sat64;
use crate::parser::skip_ws_end;
use crate::parser::spec_dec_part;
use crate::parser::spec_exp_part;
use crate::parser::spec_int_part;
use crate::parser::spec_number;
use crate::parser::spec_parse_one;
use crate::parser::spec_read;
use crate::parser::spec_read_list;
use crate::parser::string_content;
use crate::parser::string_end;
use crate::parser::strip_lead;
use crate::parser::strip_trail;
use crate::parser::sym_end;
use crate::types::Form;
use crate::types::PoseError;
use crate::types::form_wf;
use crate::types::forms_wf;
use crate::types::num_wf;
use crate::writer::ceil_log10;
use crate::writer::char_of_digit;
use crate::writer::dec_digits;
use crate::writer::digit_chars;
use crate::writer::escape_text;
use crate::writer::int_chars;
use crate::writer::spec_fixed;
use crate::writer::spec_format;
use crate::writer::spec_format_items;
use crate::writer::spec_sci;
use crate::writer::trim_zeros;
use crate::writer::zero_chars;

verus! {

broadcast use vstd::seq::axiom_seq_index_decreases, vstd::seq::axiom_seq_subrange_decreases;

// ---------------------------------------------------------------------------
// Every form the reader yields is canonical
// ---------------------------------------------------------------------------

/// Normalizing any digit string yields a canonical decimal.
proof fn lemma_norm_wf(ds: Seq<u8>, exp: int)
    requires
        forall|i: int| 0 <= i < ds.len() ==> ds[i] <= 9,
        ds.len() <= 0x1_0000_0000_0000_0000,
        -0x10_0000_0000_0000_0000 <= exp <= 0x10_0000_0000_0000_0000,
    ensures
        ({
            let (d2, e2) = norm_num(ds, exp);
            num_wf(d2, e2)
        }),
{
    lemma_strip_lead_wf(ds);
    lemma_strip_trail_wf(strip_lead(ds), exp);
}

proof fn lemma_strip_lead_wf(ds: Seq<u8>)
    requires
        forall|i: int| 0 <= i < ds.len() ==> ds[i] <= 9,
    ensures
        forall|i: int| 0 <= i < strip_lead(ds).len() ==> strip_lead(ds)[i] <= 9,
        strip_lead(ds).len() > 0 ==> strip_lead(ds)[0] != 0,
        strip_lead(ds).len() <= ds.len(),
    decreases ds.len(),
{
    if ds.len() > 0 && ds[0] == 0 {
        lemma_strip_lead_wf(ds.drop_first());
    }
}

proof fn lemma_strip_trail_wf(ds: Seq<u8>, exp: int)
    requires
        forall|i: int| 0 <= i < ds.len() ==> ds[i] <= 9,
        ds.len() > 0 ==> ds[0] != 0,
        ds.len() <= 0x1_0000_0000_0000_0000,
        -0x10_0000_0000_0000_0000 <= exp,
        exp + ds.len() <= 0x20_0000_0000_0000_0000,
    ensures
        ({
            let (d2, e2) = strip_trail(ds, exp);
            num_wf(d2, e2) && (d2.len() > 0 ==> e2 <= exp + ds.len())
        }),
    decreases ds.len(),
{
    if ds.len() > 0 && ds.last() == 0 {
        lemma_strip_trail_wf(ds.drop_last(), exp + 1);
    }
}

/// The number part of the grammar yields canonical decimals.
proof fn lemma_spec_number_wf(s: Seq<char>, i: int)
    requires
        0 <= i <= s.len(),
        s.len() <= 0x1_0000_0000_0000_0000,
    ensures
        spec_number(s, i) matches Some(((ds, exp), q)) ==> num_wf(ds, exp),
{
    if let Some((ids, j)) = spec_int_part(s, i) {
        crate::parser::lemma_digits_end(s, i);
        if i < s.len() && s[i] == '0' {
        } else {
            crate::parser::lemma_digit_seq_bounds(s, i, digits_end(s, i));
        }
        assert(i < j <= s.len());
        if let Some((fds, k)) = spec_dec_part(s, j) {
            if j < s.len() && s[j] == '.' {
                crate::parser::lemma_digits_end(s, j + 1);
                crate::parser::lemma_digit_seq_bounds(s, j + 1, digits_end(s, j + 1));
            }
            if let Some((e, m)) = spec_exp_part(s, k) {
                assert forall|x: int| 0 <= x < (ids + fds).len() implies (ids + fds)[x] <= 9 by {
                    if x < ids.len() {
                        assert((ids + fds)[x] == ids[x]);
                    } else {
                        assert((ids + fds)[x] == fds[x - ids.len()]);
                    }
                }
                if k < s.len() && (s[k] == 'e' || s[k] == 'E') {
                    crate::parser::lemma_run_val_nonneg(
                        s,
                        if k + 1 < s.len() && (s[k + 1] == '+' || s[k + 1] == '-') {
                            k + 2
                        } else {
                            k + 1
                        },
                        digits_end(s, if k + 1 < s.len() && (s[k + 1] == '+' || s[k + 1] == '-') {
                            k + 2
                        } else {
                            k + 1
                        }),
                    );
                }
                assert(-(i64::MAX as int) <= e <= i64::MAX as int);
                lemma_norm_wf(ids + fds, e - fds.len());
            }
        }
    }
}

/// Everything the reader returns with `Ok` is a canonical form: its
/// numbers are canonical decimals, recursively.
pub proof fn lemma_spec_read_wf(s: Seq<char>, i: int)
    requires
        0 <= i <= s.len(),
        s.len() <= 0x1_0000_0000_0000_0000,
    ensures
        spec_read(s, i).0 matches Ok(f) ==> form_wf(f),
    decreases s.len() - i, 2int,
{
    lemma_skip_ws_end(s, i);
    let p = skip_ws_end(s, i);
    if p >= s.len() {
    } else if s[p] == ';' {
        lemma_after_line_end(s, p + 1);
        lemma_spec_read_wf(s, after_line_end(s, p + 1));
    } else if s[p] == '(' {
        lemma_spec_read_list_wf(s, p + 1);
    } else if s[p] == '"' {
    } else if s[p] == '-' {
        if p + 1 < s.len() && is_digit_char(s[p + 1]) {
            lemma_spec_number_wf(s, p + 1);
        }
    } else if s[p] == '+' {
    } else if is_digit_char(s[p]) {
        lemma_spec_number_wf(s, p);
    }
}

/// Every list body the reader accepts holds canonical forms.
pub proof fn lemma_spec_read_list_wf(s: Seq<char>, i: int)
    requires
        0 <= i <= s.len(),
        s.len() <= 0x1_0000_0000_0000_0000,
    ensures
        spec_read_list(s, i).0 matches Ok(items) ==> forms_wf(items),
    decreases s.len() - i, 3int,
{
    lemma_skip_ws_end(s, i);
    let p = skip_ws_end(s, i);
    if p >= s.len() {
    } else if s[p] == ')' {
    } else {
        lemma_spec_read_wf(s, p);
        lemma_read_progress(s, p);
        let (r, q) = spec_read(s, p);
        if let Ok(f) = r {
            if f != Form::End {
                assert(skip_ws_end(s, p) == p);
                if p < q <= s.len() {
                    lemma_spec_read_list_wf(s, q);
                    let (r2, q2) = spec_read_list(s, q);
                    if let Ok(rest) = r2 {
                        lemma_forms_wf_cons(f, rest);
                    }
                }
            }
        }
    }
}

proof fn lemma_forms_wf_cons(f: Form, rest: Seq<Form>)
    requires
        form_wf(f),
        forms_wf(rest),
    ensures
        forms_wf(seq![f] + rest),
    decreases rest.len(),
{
    if rest.len() == 0 {
        assert(seq![f].drop_last() =~= Seq::<Form>::empty());
        assert(forms_wf(Seq::<Form>::empty()));
        assert(forms_wf(seq![f]));
        assert((seq![f] + rest) =~= seq![f]);
    } else {
        lemma_forms_wf_cons(f, rest.drop_last());
        assert((seq![f] + rest).drop_last() =~= seq![f] + rest.drop_last());
        assert((seq![f] + rest).last() == rest.last());
        assert(forms_wf((seq![f] + rest).drop_last()));
        assert(form_wf((seq![f] + rest).last()));
    }
}

/// Everything a whole-string parse accepts is a canonical form, so it
/// may be handed straight to the writer.
pub proof fn lemma_parse_one_wf(s: Seq<char>)
    requires
        s.len() <= 0x1_0000_0000_0000_0000,
    ensures
        spec_parse_one(s) matches Ok(f) ==> form_wf(f),
{
    lemma_spec_read_wf(s, 0);
}

// ---------------------------------------------------------------------------
// Whitespace and comments are insignificant before a form
// ---------------------------------------------------------------------------

/// The text from `i` to `j` is blank: whitespace and line comments only.
pub open spec fn blank_through(s: Seq<char>, i: int, j: int) -> bool
    decreases j - i,
        when 0 <= i
    via blank_through_decreases
{
    if i == j {
        true
    } else if i < j && j <= s.len() && is_space_char(s[i]) {
        blank_through(s, i + 1, j)
    } else if i < j && j <= s.len() && s[i] == ';' {
        after_line_end(s, i + 1) <= j && blank_through(s, after_line_end(s, i + 1), j)
    } else {
        false
    }
}

#[via_fn]
proof fn blank_through_decreases(s: Seq<char>, i: int, j: int) {
    if 0 <= i && i < j && j <= s.len() {
        lemma_after_line_end_raw(s, i + 1);
    }
}

proof fn lemma_after_line_end_raw(s: Seq<char>, i: int)
    ensures
        i <= after_line_end(s, i),
    decreases s.len() - i,
{
    if 0 <= i < s.len() && !(s[i] == '\r' || s[i] == '\n') {
        lemma_after_line_end_raw(s, i + 1);
    }
}

/// Whitespace and line comments standing before a form do not change
/// what is read, nor where reading ends.
pub proof fn lemma_blanks_insignificant(s: Seq<char>, i: int, j: int)
    requires
        0 <= i <= j <= s.len(),
        blank_through(s, i, j),
    ensures
        spec_read(s, i) == spec_read(s, j),
    decreases j - i,
{
    if i == j {
    } else if is_space_char(s[i]) {
        assert(skip_ws_end(s, i) == skip_ws_end(s, i + 1));
        lemma_blanks_insignificant(s, i + 1, j);
        assert(spec_read(s, i) == spec_read(s, i + 1));
    } else {
        assert(s[i] == ';');
        lemma_after_line_end_raw(s, i + 1);
        assert(skip_ws_end(s, i) == i);
        lemma_blanks_insignificant(s, after_line_end(s, i + 1), j);
        assert(spec_read(s, i) == spec_read(s, after_line_end(s, i + 1)));
    }
}

/// Whitespace standing before any token of a list body — an element or
/// the closing parenthesis — does not change what is read.
pub proof fn lemma_spaces_in_list_insignificant(s: Seq<char>, i: int)
    requires
        0 <= i <= s.len(),
    ensures
        spec_read_list(s, i) == spec_read_list(s, skip_ws_end(s, i)),
{
    lemma_skip_ws_end(s, i);
    assert(skip_ws_end(s, skip_ws_end(s, i)) == skip_ws_end(s, i));
}

// ---------------------------------------------------------------------------
// Reading back what the writer wrote: digit runs
// ---------------------------------------------------------------------------

proof fn lemma_digit_char_facts(d: u8)
    requires
        d <= 9,
    ensures
        is_digit_char(char_of_digit(d)),
        digit_of(char_of_digit(d)) == d,
        (char_of_digit(d) == '0') == (d == 0),
        !is_space_char(char_of_digit(d)),
        char_of_digit(d) != ';' && char_of_digit(d) != '(' && char_of_digit(d) != '"',
        char_of_digit(d) != '-' && char_of_digit(d) != '+' && char_of_digit(d) != '.',
        char_of_digit(d) != 'e' && char_of_digit(d) != 'E' && char_of_digit(d) != ')',
{
}

/// A run of digit characters, ended by anything else, is scanned whole.
proof fn lemma_digit_run_end(s: Seq<char>, i: int, j: int)
    requires
        0 <= i <= j <= s.len(),
        forall|k: int| i <= k < j ==> is_digit_char(s[k]),
        j == s.len() || !is_digit_char(s[j]),
    ensures
        digits_end(s, i) == j,
    decreases j - i,
{
    if i < j {
        lemma_digit_run_end(s, i + 1, j);
    }
}

/// A run of symbol characters, ended by anything else, is scanned whole.
proof fn lemma_sym_run_end(s: Seq<char>, i: int, j: int)
    requires
        0 <= i <= j <= s.len(),
        forall|k: int| i <= k < j ==> is_sym_cont_char(s[k]),
        j == s.len() || !is_sym_cont_char(s[j]),
    ensures
        sym_end(s, i) == j,
    decreases j - i,
{
    if i < j {
        lemma_sym_run_end(s, i + 1, j);
    }
}

/// The decimal text of `n` is digit characters, with no leading zero
/// unless `n` is zero.
proof fn lemma_dec_digits_chars(n: nat)
    ensures
        dec_digits(n).len() >= 1,
        forall|k: int| 0 <= k < dec_digits(n).len() ==> is_digit_char(#[trigger] dec_digits(n)[k]),
        n > 0 ==> dec_digits(n)[0] != '0',
        n == 0 ==> dec_digits(n) == seq!['0'],
    decreases n,
{
    if n < 10 {
        lemma_digit_char_facts(n as u8);
        if n == 0 {
            assert(dec_digits(n) =~= seq!['0']);
        }
    } else {
        lemma_dec_digits_chars(n / 10);
        lemma_digit_char_facts((n % 10) as u8);
        let pre = dec_digits(n / 10);
        assert forall|k: int| 0 <= k < dec_digits(n).len() implies is_digit_char(
            #[trigger] dec_digits(n)[k],
        ) by {
            if k < pre.len() {
                assert(dec_digits(n)[k] == pre[k]);
            } else {
                assert(dec_digits(n)[k] == char_of_digit((n % 10) as u8));
            }
        }
        assert(dec_digits(n)[0] == pre[0]);
    }
}

/// Scanning the decimal text of `n` recovers `n`.
proof fn lemma_run_val_of_dec(s: Seq<char>, i: int, n: nat)
    requires
        0 <= i,
        i + dec_digits(n).len() <= s.len(),
        s.subrange(i, i + dec_digits(n).len()) == dec_digits(n),
    ensures
        run_val(s, i, i + dec_digits(n).len()) == n,
    decreases n,
{
    let l = dec_digits(n).len() as int;
    if n < 10 {
        assert(s[i] == dec_digits(n)[0]);
        lemma_digit_char_facts(n as u8);
        assert(run_val(s, i, i) == 0);
    } else {
        let pre = dec_digits(n / 10);
        assert(s.subrange(i, i + pre.len()) =~= pre) by {
            assert forall|k: int| 0 <= k < pre.len() implies s.subrange(i, i + pre.len())[k]
                == pre[k] by {
                assert(s[i + k] == dec_digits(n)[k]);
                assert(dec_digits(n)[k] == pre[k]);
            }
        }
        lemma_run_val_of_dec(s, i, n / 10);
        assert(s[i + l - 1] == dec_digits(n)[l - 1]);
        assert(dec_digits(n)[l - 1] == char_of_digit((n % 10) as u8));
        lemma_digit_char_facts((n % 10) as u8);
        assert(run_val(s, i, i + l) == run_val(s, i, i + l - 1) * 10 + digit_of(s[i + l - 1]));
    }
}

/// Scanning a run written from digit values recovers the values.
proof fn lemma_digit_seq_inverse(s: Seq<char>, i: int, ds: Seq<u8>)
    requires
        0 <= i,
        i + ds.len() <= s.len(),
        forall|k: int| 0 <= k < ds.len() ==> ds[k] <= 9,
        forall|k: int| 0 <= k < ds.len() ==> s[i + k] == char_of_digit(#[trigger] ds[k]),
    ensures
        digit_seq(s, i, i + ds.len()) == ds,
        forall|k: int| 0 <= k < ds.len() ==> is_digit_char(#[trigger] s[i + k]),
    decreases ds.len(),
{
    assert forall|k: int| 0 <= k < ds.len() implies is_digit_char(#[trigger] s[i + k]) by {
        lemma_digit_char_facts(ds[k]);
    }
    assert(digit_seq(s, i, i + ds.len()) =~= ds) by {
        assert forall|k: int| 0 <= k < ds.len() implies digit_seq(s, i, i + ds.len())[k]
            == ds[k] by {
            lemma_digit_char_facts(ds[k]);
        }
    }
}

/// Normalization commutes with shifting the exponent, off zero.
proof fn lemma_norm_shift(m: Seq<u8>, e: int, delta: int)
    requires
        norm_num(m, e).0.len() > 0,
    ensures
        norm_num(m, e + delta) == (norm_num(m, e).0, norm_num(m, e).1 + delta),
{
    lemma_strip_trail_shift(strip_lead(m), e, delta);
}

proof fn lemma_strip_trail_shift(m: Seq<u8>, e: int, delta: int)
    requires
        strip_trail(m, e).0.len() > 0,
    ensures
        strip_trail(m, e + delta) == (strip_trail(m, e).0, strip_trail(m, e).1 + delta),
    decreases m.len(),
{
    if m.len() > 0 && m.last() == 0 {
        lemma_strip_trail_shift(m.drop_last(), e + 1, delta);
    }
}

/// Reading back fixed-point text: the integer part and the decimal part
/// scan it whole, and normalizing what they hold recovers the decimal.
#[verifier::rlimit(100)]
proof fn lemma_fixed_part_parse(s: Seq<char>, i: int, ds: Seq<u8>, exp: int)
    requires
        num_wf(ds, exp),
        0 < ds.len() <= 15,
        ds.len() + exp >= 0,
        0 <= i,
        i + spec_fixed(ds, exp).len() <= s.len(),
        s.subrange(i, i + spec_fixed(ds, exp).len()) == spec_fixed(ds, exp),
        ({
            let e = i + spec_fixed(ds, exp).len();
            e == s.len() || (!is_digit_char(s[e]) && s[e] != '.')
        }),
    ensures
        ({
            let e = i + spec_fixed(ds, exp).len();
            spec_int_part(s, i) matches Some((ids, j)) && spec_dec_part(s, j) matches Some(
                (fds, k),
            ) && k == e && norm_num(ids + fds, -(fds.len() as int)) == (ds, exp)
        }),
{
    let n = ds.len() as int;
    let txt = spec_fixed(ds, exp);
    let l = txt.len() as int;
    let e = i + l;
    assert forall|k: int| 0 <= k < l implies s[i + k] == txt[k] by {
        assert(s.subrange(i, i + l)[k] == s[i + k]);
    }
    if exp >= 0 {
        let zs = Seq::new(exp as nat, |x: int| 0u8);
        let m = ds + zs;
        assert(digit_chars(ds).len() == n);
        assert(l == n + exp);
        assert forall|k: int| 0 <= k < m.len() implies m[k] <= 9 && s[i + k] == char_of_digit(
            #[trigger] m[k],
        ) by {
            if k < n {
                assert(m[k] == ds[k]);
                assert(txt[k] == digit_chars(ds)[k]);
                assert(s[i + k] == txt[k]);
            } else {
                assert(m[k] == 0u8);
                assert(txt[k] == zero_chars(exp)[k - n]);
                assert(s[i + k] == txt[k]);
            }
        }
        lemma_digit_seq_inverse(s, i, m);
        assert forall|k: int| i <= k < e implies is_digit_char(s[k]) by {
            assert(is_digit_char(s[i + (k - i)]));
        }
        lemma_digit_run_end(s, i, e);
        assert(s[i + 0] == txt[0]);
        assert(txt[0] == digit_chars(ds)[0]);
        assert(s[i] == char_of_digit(ds[0]));
        lemma_digit_char_facts(ds[0]);
        assert(s[i] != '0');
        assert(is_digit_char(s[i]));
        assert(digits_end(s, i) == e);
        assert(spec_int_part(s, i) == Some((m, e)));
        assert(spec_dec_part(s, e) == Some((Seq::<u8>::empty(), e)));
        assert(m + Seq::<u8>::empty() =~= m);
        crate::parser::lemma_strip_lead_skip(m, 0);
        assert(m.skip(0) =~= m);
        assert forall|k: int| n <= k < m.len() implies m[k] == 0 by {}
        assert(m[n - 1] == ds[n - 1]);
        crate::parser::lemma_strip_trail_take(m, 0, n);
        assert(m.take(n) =~= ds);
        assert(norm_num(m, 0) == (ds, exp));
    } else {
        let ip = n + exp;
        let c = ceil_log10(ds, exp);
        let width = 15 - (if c >= 0 { c } else { 0int });
        let frac_full = ds.skip(ip);
        assert(c <= n);
        assert(width >= n - ip) by {
            if ds.len() == 1 && ds[0] == 1 {
            } else {
            }
        }
        assert(frac_full.len() == n - ip);
        assert(!(width < frac_full.len()));
        assert(frac_full[frac_full.len() - 1] == ds[n - 1]);
        lemma_trim_zeros_take_pub(frac_full);
        assert(trim_zeros(frac_full) == frac_full);
        assert(frac_full.len() > 0);
        if ip == 0 {
            assert(txt =~= seq!['0'] + seq!['.'] + digit_chars(frac_full));
            assert(l == 2 + n);
            assert(s[i + 0] == txt[0]);
            assert(s[i] == '0');
            assert(is_digit_char(s[i])) by {
                lemma_digit_char_facts(0);
            }
            assert(spec_int_part(s, i) == Some((seq![0u8], i + 1)));
            assert(s[i + 1] == txt[1]);
            assert(s[i + 1] == '.');
            assert forall|k: int| 0 <= k < n implies ds[k] <= 9 && s[i + 2 + k] == char_of_digit(
                #[trigger] ds[k],
            ) by {
                assert(frac_full[k] == ds[k]);
                assert(txt[2 + k] == digit_chars(frac_full)[k]);
                assert(s[i + 2 + k] == txt[2 + k]);
            }
            lemma_digit_seq_inverse(s, i + 2, ds);
            assert forall|k: int| i + 2 <= k < e implies is_digit_char(s[k]) by {
                assert(is_digit_char(s[i + 2 + (k - i - 2)]));
            }
            lemma_digit_run_end(s, i + 2, e);
            assert(is_digit_char(s[i + 2]));
            assert(spec_dec_part(s, i + 1) == Some((ds, e)));
            let m = seq![0u8] + ds;
            assert(m[0] == 0 && m[1] == ds[0]);
            crate::parser::lemma_strip_lead_skip(m, 1);
            assert(m.skip(1) =~= ds);
            lemma_strip_trail_noop(ds, -n);
            assert(norm_num(m, -n) == (ds, exp));
        } else {
            let head = ds.take(ip);
            assert(txt =~= digit_chars(head) + seq!['.'] + digit_chars(frac_full));
            assert(l == n + 1);
            assert forall|k: int| 0 <= k < ip implies head[k] <= 9 && s[i + k] == char_of_digit(
                #[trigger] head[k],
            ) by {
                assert(head[k] == ds[k]);
                assert(txt[k] == digit_chars(head)[k]);
                assert(s[i + k] == txt[k]);
            }
            lemma_digit_seq_inverse(s, i, head);
            assert(s[i + ip] == txt[ip]);
            assert(txt[ip] == '.');
            assert forall|k: int| i <= k < i + ip implies is_digit_char(s[k]) by {
                assert(is_digit_char(s[i + (k - i)]));
            }
            assert(!is_digit_char(s[i + ip])) by {
                assert(('.' as u32) == 46);
            }
            lemma_digit_run_end(s, i, i + ip);
            assert(s[i + 0] == txt[0]);
            assert(txt[0] == digit_chars(head)[0]);
            assert(head[0] == ds[0]);
            assert(s[i] == char_of_digit(ds[0]));
            lemma_digit_char_facts(ds[0]);
            assert(s[i] != '0' && is_digit_char(s[i]));
            assert(spec_int_part(s, i) == Some((head, i + ip)));
            assert forall|k: int| 0 <= k < n - ip implies frac_full[k] <= 9 && s[i + ip + 1 + k]
                == char_of_digit(#[trigger] frac_full[k]) by {
                assert(frac_full[k] == ds[ip + k]);
                assert(txt[ip + 1 + k] == digit_chars(frac_full)[k]);
                assert(s[i + ip + 1 + k] == txt[ip + 1 + k]);
            }
            lemma_digit_seq_inverse(s, i + ip + 1, frac_full);
            assert forall|k: int| i + ip + 1 <= k < e implies is_digit_char(s[k]) by {
                assert(is_digit_char(s[i + ip + 1 + (k - i - ip - 1)]));
            }
            lemma_digit_run_end(s, i + ip + 1, e);
            assert(is_digit_char(s[i + ip + 1]));
            assert(spec_dec_part(s, i + ip) == Some((frac_full, e)));
            assert(head + frac_full =~= ds);
            lemma_strip_lead_noop(ds);
            lemma_strip_trail_noop(ds, exp);
            assert(norm_num(ds, -(n - ip)) == (ds, exp));
        }
    }
}

/// A canonical digit string has no zeros to trim.
proof fn lemma_trim_zeros_take_pub(ds: Seq<u8>)
    requires
        ds.len() > 0 ==> ds[ds.len() - 1] != 0,
    ensures
        trim_zeros(ds) == ds,
{
}

proof fn lemma_strip_lead_noop(ds: Seq<u8>)
    requires
        ds.len() > 0 ==> ds[0] != 0,
    ensures
        strip_lead(ds) == ds,
{
}

proof fn lemma_strip_trail_noop(ds: Seq<u8>, exp: int)
    requires
        ds.len() > 0,
        ds[ds.len() - 1] != 0,
    ensures
        strip_trail(ds, exp) == (ds, exp),
{
}

/// A digit character is no other token character.
proof fn lemma_digit_not_other(c: char)
    requires
        is_digit_char(c),
    ensures
        c != '+' && c != '-' && c != 'e' && c != 'E' && c != '.',
        !is_space_char(c),
        c != ';' && c != '(' && c != '"' && c != ')' && c != ':',
{
}

/// Reading the exponent text `e<value>` at `k` yields the value back.
proof fn lemma_exp_text_parses(s: Seq<char>, k: int, ev: int)
    requires
        0 <= k < s.len(),
        s[k] == 'e',
        -(i64::MAX as int) <= ev <= i64::MAX as int,
        k + 1 + int_chars(ev).len() == s.len(),
        s.subrange(k + 1, s.len() as int) == int_chars(ev),
    ensures
        spec_exp_part(s, k) == Some((ev, s.len() as int)),
{
    let etxt = int_chars(ev);
    let l = etxt.len() as int;
    assert forall|x: int| 0 <= x < l implies s[k + 1 + x] == etxt[x] by {
        assert(s.subrange(k + 1, s.len() as int)[x] == s[k + 1 + x]);
    }
    if ev < 0 {
        let m = (-ev) as nat;
        lemma_dec_digits_chars(m);
        assert(s[k + 1 + 0] == etxt[0]);
        assert(etxt[0] == '-');
        let dd = dec_digits(m);
        assert forall|x: int| 0 <= x < dd.len() implies s[k + 2 + x] == dd[x]
            && is_digit_char(s[k + 2 + x]) by {
            assert(s[k + 1 + (x + 1)] == etxt[x + 1]);
            assert(etxt[x + 1] == dd[x]);
        }
        assert(s.subrange(k + 2, k + 2 + dd.len()) =~= dd);
        lemma_run_val_of_dec(s, k + 2, m);
        assert forall|x: int| k + 2 <= x < s.len() implies is_digit_char(s[x]) by {
            let y = x - k - 2;
            assert(0 <= y < dd.len());
            assert(s[k + 2 + y] == dd[y]);
            assert(is_digit_char(dd[y]));
            assert(s[x] == s[k + 2 + y]);
        }
        lemma_digit_run_end(s, k + 2, s.len() as int);
        assert(is_digit_char(s[k + 2]));
        lemma_digit_not_other(s[k + 2]);
        assert(sat64(run_val(s, k + 2, s.len() as int)) == m);
    } else {
        let m = ev as nat;
        lemma_dec_digits_chars(m);
        let dd = dec_digits(m);
        assert forall|x: int| 0 <= x < dd.len() implies s[k + 1 + x] == dd[x]
            && is_digit_char(s[k + 1 + x]) by {
            assert(s[k + 1 + x] == etxt[x]);
        }
        assert(s.subrange(k + 1, k + 1 + dd.len()) =~= dd);
        lemma_run_val_of_dec(s, k + 1, m);
        assert forall|x: int| k + 1 <= x < s.len() implies is_digit_char(s[x]) by {
            let y = x - k - 1;
            assert(0 <= y < dd.len());
            assert(s[k + 1 + y] == dd[y]);
            assert(is_digit_char(dd[y]));
            assert(s[x] == s[k + 1 + y]);
        }
        lemma_digit_run_end(s, k + 1, s.len() as int);
        assert(is_digit_char(s[k + 1]));
        lemma_digit_not_other(s[k + 1]);
        assert(sat64(run_val(s, k + 1, s.len() as int)) == m);
    }
}

/// The first character of the body of a written number is a digit.
proof fn lemma_fixed_first_char(ds: Seq<u8>, exp: int)
    requires
        num_wf(ds, exp),
        0 < ds.len(),
        ds.len() + exp >= 0,
    ensures
        spec_fixed(ds, exp).len() > 0,
        is_digit_char(spec_fixed(ds, exp)[0]),
        exp >= 0 || ds.len() + exp > 0 ==> spec_fixed(ds, exp)[0] == char_of_digit(ds[0]),
        exp < 0 && ds.len() + exp == 0 ==> spec_fixed(ds, exp)[0] == '0',
{
    let txt = spec_fixed(ds, exp);
    if exp >= 0 {
        assert(txt[0] == digit_chars(ds)[0]);
        lemma_digit_char_facts(ds[0]);
    } else {
        let ip = ds.len() + exp;
        if ip == 0 {
            lemma_digit_char_facts(0);
            assert(txt[0] == '0');
        } else {
            assert(txt[0] == digit_chars(ds.take(ip))[0]);
            assert(ds.take(ip)[0] == ds[0]);
            lemma_digit_char_facts(ds[0]);
        }
    }
}

/// Every number the writer can be given — a canonical decimal of at
/// most fifteen significant digits, with an exponent the written text
/// can carry — reads back as the same number, sign included; negative
/// zero keeps its sign.
/// Every number the writer can be given — a canonical decimal of at
/// most fifteen significant digits, with an exponent the written text
/// can carry — reads back as the same number, sign included; negative
/// zero keeps its sign.
pub proof fn lemma_number_round_trip(neg: bool, ds: Seq<u8>, exp: int)
    requires
        num_wf(ds, exp),
        ds.len() <= 15,
        -(i64::MAX as int) + 16 <= exp <= (i64::MAX as int) - 16,
    ensures
        spec_parse_one(spec_format(Form::Num { neg, digits: ds, exp })) == Ok::<Form, PoseError>(
            Form::Num { neg, digits: ds, exp },
        ),
{
    if ds.len() == 0 {
        lemma_number_round_trip_zero(neg, ds, exp);
    } else {
        lemma_number_round_trip_nonzero(neg, ds, exp);
    }
}

#[verifier::rlimit(100)]
proof fn lemma_number_round_trip_zero(neg: bool, ds: Seq<u8>, exp: int)
    requires
        num_wf(ds, exp),
        ds.len() == 0,
    ensures
        spec_parse_one(spec_format(Form::Num { neg, digits: ds, exp })) == Ok::<Form, PoseError>(
            Form::Num { neg, digits: ds, exp },
        ),
{
    let f = Form::Num { neg, digits: ds, exp };
    let s = spec_format(f);
    let sign: Seq<char> = if neg {
        seq!['-']
    } else {
        Seq::empty()
    };
    let b = sign.len() as int;
    let n = ds.len() as int;
    assert(ds =~= Seq::<u8>::empty());
    if n == 0 {
        assert(exp == 0);
        assert(s =~= sign + seq!['0']);
        assert(s[b] == '0');
        lemma_digit_char_facts(0);
        assert(is_digit_char(s[b]));
        assert(skip_ws_end(s, 0) == 0);
        assert(spec_int_part(s, b) == Some((seq![0u8], b + 1)));
        assert(b + 1 == s.len());
        assert(spec_dec_part(s, b + 1) == Some((Seq::<u8>::empty(), b + 1)));
        assert(spec_exp_part(s, b + 1) == Some((0int, b + 1)));
        assert(seq![0u8] + Seq::<u8>::empty() =~= seq![0u8]);
        crate::parser::lemma_strip_lead_skip(seq![0u8], 1);
        assert(seq![0u8].skip(1) =~= Seq::<u8>::empty());
        assert(strip_lead(seq![0u8]) == Seq::<u8>::empty());
        assert(norm_num(seq![0u8], 0int - 0) == (Seq::<u8>::empty(), 0int));
        assert(spec_number(s, b) == Some(((Seq::<u8>::empty(), 0int), b + 1)));
        if neg {
            assert(s[0] == '-');
            assert(spec_read(s, 0) == (Ok::<Form, PoseError>(f), s.len() as int));
        } else {
            assert(spec_read(s, 0) == (Ok::<Form, PoseError>(f), s.len() as int));
        }
        assert(skip_ws_end(s, s.len() as int) == s.len());
        assert(spec_read(s, s.len() as int).0 == Ok::<Form, PoseError>(Form::End));
    }
}

#[verifier::rlimit(100)]
proof fn lemma_number_round_trip_nonzero(neg: bool, ds: Seq<u8>, exp: int)
    requires
        num_wf(ds, exp),
        0 < ds.len() <= 15,
        -(i64::MAX as int) + 16 <= exp <= (i64::MAX as int) - 16,
    ensures
        spec_parse_one(spec_format(Form::Num { neg, digits: ds, exp })) == Ok::<Form, PoseError>(
            Form::Num { neg, digits: ds, exp },
        ),
{
    let f = Form::Num { neg, digits: ds, exp };
    let s = spec_format(f);
    let sign: Seq<char> = if neg {
        seq!['-']
    } else {
        Seq::empty()
    };
    let b = sign.len() as int;
    let n = ds.len() as int;
    {
        let c = ceil_log10(ds, exp);
        let fixed_case = n + exp >= 0 && c <= 15;
        let body: Seq<char> = if fixed_case {
            spec_fixed(ds, exp)
        } else {
            spec_sci(ds, exp)
        };
        assert(s =~= sign + body);
        if fixed_case {
            lemma_num_body_fixed(neg, ds, exp);
        } else {
            lemma_num_body_sci(neg, ds, exp);
        }
        assert(spec_number(s, b) == Some(((ds, exp), s.len() as int)));
        assert(is_digit_char(s[b]));
        assert(s[b] == body[0]);
        lemma_digit_not_other(s[b]);
        assert(skip_ws_end(s, 0) == 0);
        if neg {
            assert(s[0] == '-');
            assert(s[0int + 1] == body[0]);
            assert(spec_read(s, 0) == (Ok::<Form, PoseError>(f), s.len() as int));
        } else {
            assert(spec_read(s, 0) == (Ok::<Form, PoseError>(f), s.len() as int));
        }
        assert(skip_ws_end(s, s.len() as int) == s.len());
        assert(spec_read(s, s.len() as int).0 == Ok::<Form, PoseError>(Form::End));
    }
}

#[verifier::rlimit(100)]
proof fn lemma_num_body_fixed(neg: bool, ds: Seq<u8>, exp: int)
    requires
        num_wf(ds, exp),
        0 < ds.len() <= 15,
        -(i64::MAX as int) + 16 <= exp <= (i64::MAX as int) - 16,
        ds.len() + exp >= 0 && ceil_log10(ds, exp) <= 15,
    ensures
        ({
            let s = spec_format(Form::Num { neg, digits: ds, exp });
            let b: int = if neg { 1 } else { 0 };
            spec_number(s, b) == Some(((ds, exp), s.len() as int)) && is_digit_char(s[b])
        }),
{
    let f = Form::Num { neg, digits: ds, exp };
    let s = spec_format(f);
    let sign: Seq<char> = if neg {
        seq!['-']
    } else {
        Seq::empty()
    };
    let b = sign.len() as int;
    let n = ds.len() as int;
    {
        let c = ceil_log10(ds, exp);
        let fixed_case = n + exp >= 0 && c <= 15;
        let body: Seq<char> = if fixed_case {
            spec_fixed(ds, exp)
        } else {
            spec_sci(ds, exp)
        };
        assert(s =~= sign + body);
        if fixed_case {
            lemma_fixed_first_char(ds, exp);
            assert(s.subrange(b, s.len() as int) =~= spec_fixed(ds, exp));
            lemma_fixed_part_parse(s, b, ds, exp);
            assert(spec_exp_part(s, s.len() as int) == Some((0int, s.len() as int)));
            let (ids, j) = spec_int_part(s, b).unwrap();
            let (fds, k) = spec_dec_part(s, j).unwrap();
            assert(norm_num(ids + fds, 0 - fds.len()) == (ds, exp));
            assert(spec_number(s, b) == Some(((ds, exp), s.len() as int)));
            assert(is_digit_char(s[b]));
        }
    }
}

#[verifier::rlimit(100)]
proof fn lemma_num_body_sci(neg: bool, ds: Seq<u8>, exp: int)
    requires
        num_wf(ds, exp),
        0 < ds.len() <= 15,
        -(i64::MAX as int) + 16 <= exp <= (i64::MAX as int) - 16,
        !(ds.len() + exp >= 0 && ceil_log10(ds, exp) <= 15),
    ensures
        ({
            let s = spec_format(Form::Num { neg, digits: ds, exp });
            let b: int = if neg { 1 } else { 0 };
            spec_number(s, b) == Some(((ds, exp), s.len() as int)) && is_digit_char(s[b])
        }),
{
    let f = Form::Num { neg, digits: ds, exp };
    let s = spec_format(f);
    let sign: Seq<char> = if neg {
        seq!['-']
    } else {
        Seq::empty()
    };
    let b = sign.len() as int;
    let n = ds.len() as int;
    {
        let c = ceil_log10(ds, exp);
        let fixed_case = n + exp >= 0 && c <= 15;
        let body: Seq<char> = if fixed_case {
            spec_fixed(ds, exp)
        } else {
            spec_sci(ds, exp)
        };
        assert(s =~= sign + body);
        {
            let me = exp - (c - 1);
            let ev = c - 1;
            assert(num_wf(ds, me)) by {
                if ds.len() == 1 && ds[0] == 1 {
                } else {
                }
            }
            assert(n + me >= 0 && me <= 1);
            let mant = spec_fixed(ds, me);
            let lm = mant.len() as int;
            let etxt = int_chars(ev);
            assert(body =~= mant + seq!['e'] + etxt);
            assert(s.subrange(b, b + lm) =~= mant) by {
                assert forall|x: int| 0 <= x < lm implies s.subrange(b, b + lm)[x] == mant[x] by {
                    assert(s[b + x] == body[x]);
                    assert(body[x] == mant[x]);
                }
            }
            assert(s[b + lm] == body[lm]);
            assert(body[lm] == 'e');
            assert(!is_digit_char(s[b + lm]) && s[b + lm] != '.') by {
                assert(('e' as u32) == 101);
            }
            lemma_fixed_first_char(ds, me);
            lemma_fixed_part_parse(s, b, ds, me);
            let (ids, j) = spec_int_part(s, b).unwrap();
            let (fds, k) = spec_dec_part(s, j).unwrap();
            assert(k == b + lm);
            assert(norm_num(ids + fds, -(fds.len() as int)) == (ds, me));
            assert(s.subrange(b + lm + 1, s.len() as int) =~= etxt) by {
                assert forall|x: int|
                    0 <= x < etxt.len() implies s.subrange(b + lm + 1, s.len() as int)[x]
                    == etxt[x] by {
                    assert(s[b + (lm + 1 + x)] == body[lm + 1 + x]);
                    assert(body[lm + 1 + x] == etxt[x]);
                }
            }
            lemma_exp_text_parses(s, b + lm, ev);
            assert(spec_exp_part(s, k) == Some((ev, s.len() as int)));
            lemma_norm_shift(ids + fds, -(fds.len() as int), ev);
            assert(norm_num(ids + fds, ev - fds.len()) == (ds, me + ev));
            assert(me + ev == exp);
            assert(spec_number(s, b) == Some(((ds, exp), s.len() as int)));
            assert(is_digit_char(s[b]));
        }
    }
}

// ---------------------------------------------------------------------------
// Round trip of written values
// ---------------------------------------------------------------------------

/// Text that reads back as a symbol with that very text: one of the
/// shapes the symbol grammar can produce.
pub open spec fn sym_token(t: Seq<char>) -> bool {
    ||| t == seq!['+']
    ||| t == seq!['-']
    ||| (t.len() >= 2 && (t[0] == '+' || t[0] == '-') && crate::parser::is_sign_second_char(t[1])
        && forall|i: int| 2 <= i < t.len() ==> is_sym_cont_char(#[trigger] t[i]))
    ||| (t.len() >= 1 && crate::parser::is_word_first_char(t[0]) && t[0] != '+' && t[0] != '-'
        && forall|i: int| 1 <= i < t.len() ==> is_sym_cont_char(#[trigger] t[i]))
    ||| (t.len() >= 2 && t[0] == ':' && crate::parser::is_word_first_char(t[1]) && forall|i: int|
        2 <= i < t.len() ==> is_sym_cont_char(#[trigger] t[i]))
}

/// Two list neighbours whose texts stay two tokens when written side by
/// side: after a symbol, the next element must not begin with a
/// symbol-continuation character.
pub open spec fn pair_ok(a: Form, b: Form) -> bool {
    a is Sym ==> !is_sym_cont_char(spec_format(b)[0])
}

/// Every neighbouring pair of a list body is `pair_ok`.
pub open spec fn joinable(items: Seq<Form>) -> bool {
    forall|i: int| 0 <= i < items.len() - 1 ==> pair_ok(#[trigger] items[i], items[i + 1])
}

/// A value whose written text reads back as the value itself: strings
/// always; symbols whose name is a symbol token; nonempty lists of such
/// values whose neighbours do not merge.  Numbers have their own law;
/// empty lists lose their closing parenthesis when written; the end
/// sentinel is no value.
pub open spec fn writable(f: Form) -> bool
    decreases f,
{
    match f {
        Form::Str(_) => true,
        Form::Sym(t) => sym_token(t),
        Form::List(items) => items.len() > 0 && writable_items(items) && joinable(items),
        _ => false,
    }
}

/// Every form of a sequence is writable.
pub open spec fn writable_items(items: Seq<Form>) -> bool
    decreases items,
{
    if items.len() == 0 {
        true
    } else {
        writable_items(items.drop_last()) && writable(items.last())
    }
}

proof fn lemma_writable_items_char(items: Seq<Form>)
    ensures
        writable_items(items) == forall|i: int| 0 <= i < items.len() ==> writable(
            #[trigger] items[i],
        ),
    decreases items,
{
    if items.len() > 0 {
        lemma_writable_items_char(items.drop_last());
        if writable_items(items) {
            assert forall|i: int| 0 <= i < items.len() implies writable(#[trigger] items[i]) by {
                if i < items.len() - 1 {
                    assert(items.drop_last()[i] == items[i]);
                } else {
                    assert(items[i] == items.last());
                }
            }
        }
        if forall|i: int| 0 <= i < items.len() ==> writable(#[trigger] items[i]) {
            assert forall|i: int|
                0 <= i < items.drop_last().len() implies writable(
                #[trigger] items.drop_last()[i],
            ) by {
                assert(items.drop_last()[i] == items[i]);
            }
            assert(writable(items.last()));
        }
    }
}

/// Symbol characters are no other token characters.
proof fn lemma_sym_char_not_other(c: char)
    requires
        is_sym_cont_char(c) || c == ':',
    ensures
        !is_space_char(c),
        c != ';' && c != '(' && c != ')' && c != '"',
{
    assert((' ' as u32) == 32 && ('\t' as u32) == 9 && ('\n' as u32) == 10);
    assert(('\x0c' as u32) == 12 && ('\r' as u32) == 13 && ('\x0b' as u32) == 11);
    assert((';' as u32) == 59 && ('(' as u32) == 40 && (')' as u32) == 41 && ('"' as u32) == 34);
}

/// The written text of a writable value is nonempty, and its first
/// character begins no other token: no whitespace, comment, closing
/// parenthesis or quote-free surprise.
proof fn lemma_format_lead(f: Form)
    requires
        writable(f),
    ensures
        spec_format(f).len() > 0,
        !is_space_char(spec_format(f)[0]),
        spec_format(f)[0] != ')' && spec_format(f)[0] != ';',
{
    match f {
        Form::Str(t) => {
            assert(spec_format(f)[0] == '"');
        },
        Form::Sym(t) => {
            assert(spec_format(f) == t);
            if t == seq!['+'] || t == seq!['-'] {
                lemma_sym_char_not_other(t[0]);
            } else if t.len() >= 2 && t[0] == ':' {
                lemma_sym_char_not_other(t[0]);
            } else {
                lemma_sym_char_not_other(t[0]);
            }
        },
        Form::List(items) => {
            assert(spec_format(f)[0] == '(');
        },
        _ => {},
    }
}

/// Reading back an escaped string body followed by its closing quote.
proof fn lemma_escape_parses(s: Seq<char>, i: int, t: Seq<char>)
    requires
        0 <= i,
        i + escape_text(t).len() + 1 <= s.len(),
        s.subrange(i, i + escape_text(t).len()) == escape_text(t),
        s[i + escape_text(t).len()] == '"',
    ensures
        string_end(s, i) == Some(i + escape_text(t).len() + 1),
        string_content(s, i) == t,
    decreases t.len(),
{
    let et = escape_text(t);
    let l = et.len() as int;
    assert forall|k: int| 0 <= k < l implies s[i + k] == et[k] by {
        assert(s.subrange(i, i + l)[k] == s[i + k]);
    }
    if t.len() == 0 {
        assert(string_content(s, i) =~= t);
    } else if t[0] == '"' || t[0] == '\\' {
        let tail = escape_text(t.drop_first());
        assert(et =~= seq!['\\', t[0]] + tail);
        assert(s[i + 0] == et[0]);
        assert(s[i + 1] == et[1]);
        assert(s[i] == '\\' && s[i + 1] == t[0]);
        assert(s.subrange(i + 2, i + 2 + tail.len()) =~= tail) by {
            assert forall|k: int| 0 <= k < tail.len() implies s.subrange(
                i + 2,
                i + 2 + tail.len(),
            )[k] == tail[k] by {
                assert(s[i + (2 + k)] == et[2 + k]);
                assert(et[2 + k] == tail[k]);
            }
        }
        lemma_escape_parses(s, i + 2, t.drop_first());
        assert(string_content(s, i) =~= seq![t[0]] + t.drop_first());
        assert(seq![t[0]] + t.drop_first() =~= t);
    } else {
        let tail = escape_text(t.drop_first());
        assert(et =~= seq![t[0]] + tail);
        assert(s[i + 0] == et[0]);
        assert(s[i] == t[0]);
        assert(s.subrange(i + 1, i + 1 + tail.len()) =~= tail) by {
            assert forall|k: int| 0 <= k < tail.len() implies s.subrange(
                i + 1,
                i + 1 + tail.len(),
            )[k] == tail[k] by {
                assert(s[i + (1 + k)] == et[1 + k]);
                assert(et[1 + k] == tail[k]);
            }
        }
        lemma_escape_parses(s, i + 1, t.drop_first());
        assert(string_content(s, i) =~= seq![t[0]] + t.drop_first());
        assert(seq![t[0]] + t.drop_first() =~= t);
    }
}

/// Reading back a symbol token yields the symbol, whole.
#[verifier::rlimit(100)]
proof fn lemma_sym_token_parses(s: Seq<char>, i: int, t: Seq<char>)
    requires
        sym_token(t),
        0 <= i,
        i + t.len() <= s.len(),
        s.subrange(i, i + t.len()) == t,
        i + t.len() == s.len() || !is_sym_cont_char(s[i + t.len()]),
    ensures
        spec_read(s, i) == (Ok::<Form, PoseError>(Form::Sym(t)), i + t.len()),
{
    let l = t.len() as int;
    let e = i + l;
    assert forall|k: int| 0 <= k < l implies s[i + k] == t[k] by {
        assert(s.subrange(i, i + l)[k] == s[i + k]);
    }
    assert(s[i + 0] == t[0]);
    lemma_sym_char_not_other(t[0]);
    assert(skip_ws_end(s, i) == i);
    if t == seq!['+'] || t == seq!['-'] {
        assert(l == 1);
        if i + 1 < s.len() {
            assert(!crate::parser::is_sign_second_char(s[i + 1]));
        }
        if t == seq!['+'] {
            assert(s[i] == '+');
            assert(spec_read(s, i) == (Ok::<Form, PoseError>(Form::Sym(seq!['+'])), i + 1));
        } else {
            assert(s[i] == '-');
            if i + 1 < s.len() {
                assert(!is_digit_char(s[i + 1]));
            }
            assert(spec_read(s, i) == (Ok::<Form, PoseError>(Form::Sym(seq!['-'])), i + 1));
        }
    } else if t.len() >= 2 && (t[0] == '+' || t[0] == '-') {
        assert(s[i + 1] == t[1]);
        assert(crate::parser::is_sign_second_char(s[i + 1]));
        assert(!is_digit_char(s[i + 1]));
        assert forall|k: int| i + 2 <= k < e implies is_sym_cont_char(s[k]) by {
            assert(s[i + (k - i)] == t[k - i]);
            assert(is_sym_cont_char(t[k - i]));
        }
        lemma_sym_run_end(s, i + 2, e);
        assert(seq![t[0]] + s.subrange(i + 1, e) =~= t);
        assert(spec_read(s, i) == (Ok::<Form, PoseError>(Form::Sym(t)), e));
    } else if t.len() >= 2 && t[0] == ':' {
        assert(s[i] == ':');
        assert(s[i + 1] == t[1]);
        assert(crate::parser::is_word_first_char(s[i + 1]));
        assert(!crate::parser::is_word_first_char(':')) by {
            assert((':' as u32) == 58);
        }
        assert(!is_digit_char(':')) by {
            assert((':' as u32) == 58);
        }
        assert forall|k: int| i + 2 <= k < e implies is_sym_cont_char(s[k]) by {
            assert(s[i + (k - i)] == t[k - i]);
            assert(is_sym_cont_char(t[k - i]));
        }
        lemma_sym_run_end(s, i + 2, e);
        assert(seq![':'] + s.subrange(i + 1, e) =~= t);
        assert(spec_read(s, i) == (Ok::<Form, PoseError>(Form::Sym(t)), e));
    } else {
        assert(crate::parser::is_word_first_char(t[0]) && t[0] != '+' && t[0] != '-');
        assert(!is_digit_char(s[i])) by {
            if is_digit_char(t[0]) {
                assert(48 <= t[0] as u32 <= 57);
                assert(('!' as u32) == 33 && ('$' as u32) == 36 && ('&' as u32) == 38);
                assert(('*' as u32) == 42 && ('/' as u32) == 47 && ('<' as u32) == 60);
                assert(('=' as u32) == 61 && ('>' as u32) == 62 && ('_' as u32) == 95);
            }
        }
        assert forall|k: int| i + 1 <= k < e implies is_sym_cont_char(s[k]) by {
            assert(s[i + (k - i)] == t[k - i]);
            assert(is_sym_cont_char(t[k - i]));
        }
        lemma_sym_run_end(s, i + 1, e);
        assert(s.subrange(i, e) =~= t);
        assert(spec_read(s, i) == (Ok::<Form, PoseError>(Form::Sym(t)), e));
    }
}

/// The texts of a nonempty sequence of forms: the first, then the rest.
proof fn lemma_items_head(items: Seq<Form>)
    requires
        items.len() > 0,
    ensures
        spec_format_items(items) == spec_format(items[0]) + spec_format_items(
            items.drop_first(),
        ),
    decreases items.len(),
{
    if items.len() == 1 {
        assert(items.drop_last() =~= Seq::<Form>::empty());
        assert(items.drop_first() =~= Seq::<Form>::empty());
        assert(items.last() == items[0]);
        assert(Seq::<char>::empty() + spec_format(items[0]) =~= spec_format(items[0])
            + Seq::<char>::empty());
    } else {
        let dl = items.drop_last();
        let df = items.drop_first();
        lemma_items_head(dl);
        assert(dl[0] == items[0]);
        assert(dl.drop_first() =~= df.drop_last());
        assert(df.last() == items.last());
        assert((spec_format(items[0]) + spec_format_items(df.drop_last())) + spec_format(
            df.last(),
        ) =~= spec_format(items[0]) + (spec_format_items(df.drop_last()) + spec_format(
            df.last(),
        )));
    }
}

/// Reading back the written text of a writable value, embedded at `i`,
/// yields the value and stops right after its text.
proof fn lemma_format_parses(s: Seq<char>, i: int, f: Form)
    requires
        writable(f),
        0 <= i,
        i + spec_format(f).len() <= s.len(),
        s.subrange(i, i + spec_format(f).len()) == spec_format(f),
        f is Sym ==> (i + spec_format(f).len() == s.len() || !is_sym_cont_char(
            s[i + spec_format(f).len()],
        )),
    ensures
        spec_read(s, i) == (Ok::<Form, PoseError>(f), i + spec_format(f).len()),
    decreases f,
{
    let txt = spec_format(f);
    let l = txt.len() as int;
    assert forall|k: int| 0 <= k < l implies s[i + k] == txt[k] by {
        assert(s.subrange(i, i + l)[k] == s[i + k]);
    }
    match f {
        Form::Str(tx) => {
            let et = escape_text(tx);
            assert(txt =~= seq!['"'] + et + seq!['"']);
            assert(s[i] == txt[0]) by {
                assert(s.subrange(i, i + l)[0] == s[i]);
            }
            assert(s[i] == '"');
            assert(skip_ws_end(s, i) == i);
            assert(s.subrange(i + 1, i + 1 + et.len()) =~= et) by {
                assert forall|k: int| 0 <= k < et.len() implies s.subrange(
                    i + 1,
                    i + 1 + et.len(),
                )[k] == et[k] by {
                    assert(s[i + (1 + k)] == txt[1 + k]);
                    assert(txt[1 + k] == et[k]);
                }
            }
            assert(s[i + (l - 1)] == txt[l - 1]);
            assert(txt[l - 1] == '"');
            lemma_escape_parses(s, i + 1, tx);
            assert(spec_read(s, i) == (Ok::<Form, PoseError>(f), i + l));
        },
        Form::Sym(tx) => {
            lemma_sym_token_parses(s, i, tx);
        },
        Form::List(items) => {
            let lt = spec_format_items(items).len() as int;
            assert(txt =~= seq!['('] + spec_format_items(items) + seq![')']);
            assert(l == lt + 2);
            assert(s[i] == txt[0]) by {
                assert(s.subrange(i, i + l)[0] == s[i]);
            }
            assert(s[i] == '(');
            assert(skip_ws_end(s, i) == i);
            assert(s.subrange(i + 1, i + 1 + lt) =~= spec_format_items(items)) by {
                assert forall|k: int| 0 <= k < lt implies s.subrange(i + 1, i + 1 + lt)[k]
                    == spec_format_items(items)[k] by {
                    assert(s[i + (1 + k)] == txt[1 + k]);
                    assert(txt[1 + k] == spec_format_items(items)[k]);
                }
            }
            assert(s[i + (l - 1)] == txt[l - 1]);
            assert(txt[l - 1] == ')');
            assert(decreases_to!(f => f->List_0));
            lemma_items_parse(s, i + 1, items);
            assert(spec_read(s, i) == (Ok::<Form, PoseError>(f), i + l));
        },
        _ => {},
    }
}

/// Reading back the written texts of writable list elements, embedded
/// side by side and followed by the closing parenthesis.
#[verifier::rlimit(100)]
proof fn lemma_items_parse(s: Seq<char>, i: int, items: Seq<Form>)
    requires
        items.len() > 0,
        writable_items(items),
        joinable(items),
        0 <= i,
        i + spec_format_items(items).len() + 1 <= s.len(),
        s.subrange(i, i + spec_format_items(items).len()) == spec_format_items(items),
        s[i + spec_format_items(items).len()] == ')',
    ensures
        spec_read_list(s, i) == (
            Ok::<Seq<Form>, PoseError>(items),
            i + spec_format_items(items).len() + 1,
        ),
    decreases items,
{
    let lt = spec_format_items(items).len() as int;
    lemma_items_head(items);
    lemma_writable_items_char(items);
    let f0 = items[0];
    let t0 = spec_format(f0);
    let l0 = t0.len() as int;
    lemma_format_lead(f0);
    assert forall|k: int| 0 <= k < lt implies s[i + k] == spec_format_items(items)[k] by {
        assert(s.subrange(i, i + lt)[k] == s[i + k]);
    }
    assert(s.subrange(i, i + l0) =~= t0) by {
        assert forall|k: int| 0 <= k < l0 implies s.subrange(i, i + l0)[k] == t0[k] by {
            assert(s[i + k] == spec_format_items(items)[k]);
            assert(spec_format_items(items)[k] == t0[k]);
        }
    }
    assert(!is_sym_cont_char(')')) by {
        assert((')' as u32) == 41);
    }
    if items.len() == 1 {
        assert(l0 == lt);
        assert(s[i + lt] == ')');
        lemma_format_parses(s, i, f0);
        assert(s[i + 0] == t0[0]);
        assert(skip_ws_end(s, i) == i);
        assert(f0 != Form::End);
        assert(skip_ws_end(s, i + l0) == i + l0) by {
            assert(!is_space_char(s[i + l0])) by {
                assert((')' as u32) == 41);
            }
        }
        assert(spec_read_list(s, i + l0) == (
            Ok::<Seq<Form>, PoseError>(Seq::empty()),
            i + l0 + 1,
        ));
        assert(seq![f0] + Seq::<Form>::empty() =~= items);
        assert(spec_read_list(s, i) == (Ok::<Seq<Form>, PoseError>(items), i + lt + 1));
    } else {
        let df = items.drop_first();
        let ltd = spec_format_items(df).len() as int;
        assert(l0 + ltd == lt);
        lemma_writable_items_char(df);
        assert forall|x: int| 0 <= x < df.len() implies writable(#[trigger] df[x]) by {
            assert(df[x] == items[x + 1]);
            assert(writable(items[x + 1]));
        }
        lemma_items_head(df);
        assert(df[0] == items[1]);
        lemma_format_lead(items[1]);
        assert(spec_format_items(items)[l0] == spec_format_items(df)[0]);
        assert(spec_format_items(df)[0] == spec_format(items[1])[0]);
        assert(s[i + l0] == spec_format(items[1])[0]);
        if f0 is Sym {
            assert(pair_ok(items[0], items[0int + 1]));
            assert(!is_sym_cont_char(s[i + l0]));
        }
        lemma_format_parses(s, i, f0);
        assert(skip_ws_end(s, i) == i);
        assert(f0 != Form::End);
        assert forall|x: int| 0 <= x < df.len() - 1 implies pair_ok(#[trigger] df[x], df[x + 1]) by {
            assert(df[x] == items[x + 1] && df[x + 1] == items[x + 2]);
            assert(pair_ok(items[x + 1], items[(x + 1) + 1]));
        }
        assert(s.subrange(i + l0, i + l0 + ltd) =~= spec_format_items(df)) by {
            assert forall|k: int| 0 <= k < ltd implies s.subrange(i + l0, i + l0 + ltd)[k]
                == spec_format_items(df)[k] by {
                assert(s[i + (l0 + k)] == spec_format_items(items)[l0 + k]);
                assert(spec_format_items(items)[l0 + k] == spec_format_items(df)[k]);
            }
        }
        assert(s[i + l0 + ltd] == ')');
        lemma_items_parse(s, i + l0, df);
        assert(seq![f0] + df =~= items);
        assert(spec_read_list(s, i) == (Ok::<Seq<Form>, PoseError>(items), i + lt + 1));
    }
}

/// Formatting negative zero still writes the sign, though the value
/// compares equal to zero.
pub proof fn lemma_negative_zero_sign()
    ensures
        spec_format(Form::Num { neg: true, digits: Seq::empty(), exp: 0 }) == seq!['-', '0'],
{
    assert(spec_format(Form::Num { neg: true, digits: Seq::<u8>::empty(), exp: 0 }) =~= seq![
        '-',
        '0',
    ]);
}

/// Reading back the written text of a writable value yields an equal
/// value: the round-trip law for strings, symbols and nonempty lists.
pub proof fn lemma_value_round_trip(f: Form)
    requires
        writable(f),
    ensures
        spec_parse_one(spec_format(f)) == Ok::<Form, PoseError>(f),
{
    let s = spec_format(f);
    assert(s.subrange(0, s.len() as int) =~= s);
    lemma_format_parses(s, 0, f);
    assert(skip_ws_end(s, s.len() as int) == s.len());
    assert(spec_read(s, s.len() as int).0 == Ok::<Form, PoseError>(Form::End));
}

} // verus!
