//! The writer: renders a value as canonical text.
//!
//! The numeric formatter chooses fixed-point or scientific form by the
//! magnitude of the value, keeps at most fifteen significant digits of
//! the fraction, and trims trailing zeros.

use vstd::prelude::*;

use crate::types::Form;
use crate::types::PoseNum;
use crate::types::PoseType;
use crate::types::form_wf;
use crate::types::forms_of;
use crate::types::forms_wf;
use crate::types::num_wf;

verus! {

broadcast use vstd::seq::axiom_seq_index_decreases, vstd::std_specs::vec::axiom_vec_decreases_to_view, vstd::std_specs::vec::axiom_vec_index_decreases;

/// The character of a digit value.
pub open spec fn char_of_digit(d: u8) -> char {
    if d == 0 {
        '0'
    } else if d == 1 {
        '1'
    } else if d == 2 {
        '2'
    } else if d == 3 {
        '3'
    } else if d == 4 {
        '4'
    } else if d == 5 {
        '5'
    } else if d == 6 {
        '6'
    } else if d == 7 {
        '7'
    } else if d == 8 {
        '8'
    } else {
        '9'
    }
}

/// The characters of a digit string.
pub open spec fn digit_chars(ds: Seq<u8>) -> Seq<char> {
    ds.map_values(|d: u8| char_of_digit(d))
}

/// `k` zero characters (none when `k` is not positive).
pub open spec fn zero_chars(k: int) -> Seq<char> {
    Seq::new(if k > 0 {
        k as nat
    } else {
        0
    }, |i: int| '0')
}

/// The decimal text of `n`.
pub open spec fn dec_digits(n: nat) -> Seq<char>
    decreases n,
{
    if n < 10 {
        seq![char_of_digit(n as u8)]
    } else {
        dec_digits(n / 10) + seq![char_of_digit((n % 10) as u8)]
    }
}

/// The decimal text of `v`, with a sign when negative.
pub open spec fn int_chars(v: int) -> Seq<char> {
    if v < 0 {
        seq!['-'] + dec_digits((-v) as nat)
    } else {
        dec_digits(v as nat)
    }
}

/// A digit string without its trailing zeros.
pub open spec fn trim_zeros(ds: Seq<u8>) -> Seq<u8>
    decreases ds,
{
    if ds.len() > 0 && ds.last() == 0 {
        trim_zeros(ds.drop_last())
    } else {
        ds
    }
}

/// `ceil(log10(v))` for the nonzero canonical decimal `v = ds * 10^exp`:
/// the power of ten at or just above `v`; the place of the most
/// significant digit.
pub open spec fn ceil_log10(ds: Seq<u8>, exp: int) -> int {
    if ds.len() == 1 && ds[0] == 1 {
        exp
    } else {
        exp + ds.len()
    }
}

/// Fixed-point text of the nonzero canonical decimal `ds * 10^exp`
/// (which must have no digits below the fifteen-digit fraction budget
/// open to it): integer part, then the fraction with trailing zeros
/// trimmed, omitted entirely when nothing remains.
pub open spec fn spec_fixed(ds: Seq<u8>, exp: int) -> Seq<char> {
    if exp >= 0 {
        digit_chars(ds) + zero_chars(exp)
    } else {
        let ip = ds.len() + exp;
        let intpart = if ip == 0 {
            seq!['0']
        } else {
            digit_chars(ds.take(ip))
        };
        let c = ceil_log10(ds, exp);
        let width = 15 - (if c >= 0 {
            c
        } else {
            0
        });
        let frac_full = ds.skip(ip);
        let frac_kept = if width < frac_full.len() {
            frac_full.take(width)
        } else {
            frac_full
        };
        let frac = trim_zeros(frac_kept);
        if frac.len() == 0 {
            intpart
        } else {
            intpart + seq!['.'] + digit_chars(frac)
        }
    }
}

/// Scientific text of the nonzero canonical decimal `ds * 10^exp`: a
/// fixed-point mantissa scaled to one leading digit, `e`, and the
/// exponent.
pub open spec fn spec_sci(ds: Seq<u8>, exp: int) -> Seq<char> {
    let c = ceil_log10(ds, exp);
    spec_fixed(ds, exp - (c - 1)) + seq!['e'] + int_chars(c - 1)
}

/// The text of a number: a sign when negative (negative zero keeps its
/// sign), then fixed-point form when at least a tenth in magnitude and
/// within the fifteen-digit budget, else scientific form.
pub open spec fn spec_format_num(neg: bool, ds: Seq<u8>, exp: int) -> Seq<char> {
    let sign: Seq<char> = if neg {
        seq!['-']
    } else {
        Seq::empty()
    };
    if ds.len() == 0 {
        sign + seq!['0']
    } else {
        let c = ceil_log10(ds, exp);
        if ds.len() + exp >= 0 && c <= 15 {
            sign + spec_fixed(ds, exp)
        } else {
            sign + spec_sci(ds, exp)
        }
    }
}

/// Text with each backslash or quote preceded by a backslash.
pub open spec fn escape_text(t: Seq<char>) -> Seq<char>
    decreases t.len(),
{
    if t.len() == 0 {
        Seq::empty()
    } else {
        let h: Seq<char> = if t[0] == '"' || t[0] == '\\' {
            seq!['\\', t[0]]
        } else {
            seq![t[0]]
        };
        h + escape_text(t.drop_first())
    }
}

/// The canonical text of a form.  A string is quoted and escaped, a
/// symbol is verbatim, a list is its elements side by side in
/// parentheses — an empty list keeps only the opening parenthesis — and
/// the end sentinel is the marker text.
pub open spec fn spec_format(f: Form) -> Seq<char>
    decreases f,
{
    match f {
        Form::Str(t) => seq!['"'] + escape_text(t) + seq!['"'],
        Form::Sym(t) => t,
        Form::Num { neg, digits, exp } => spec_format_num(neg, digits, exp),
        Form::List(items) => if items.len() == 0 {
            seq!['(']
        } else {
            seq!['('] + spec_format_items(items) + seq![')']
        },
        Form::End => seq!['E', 'O', 'F'],
    }
}

/// The texts of a sequence of forms, side by side.
pub open spec fn spec_format_items(items: Seq<Form>) -> Seq<char>
    decreases items,
{
    if items.len() == 0 {
        Seq::empty()
    } else {
        spec_format_items(items.drop_last()) + spec_format(items.last())
    }
}

/// Trimming trailing zeros takes the prefix before them.
pub proof fn lemma_trim_zeros_take(ds: Seq<u8>, b: int)
    requires
        0 <= b <= ds.len(),
        forall|j: int| b <= j < ds.len() ==> ds[j] == 0,
        b > 0 ==> ds[b - 1] != 0,
    ensures
        trim_zeros(ds) == ds.take(b),
    decreases ds.len(),
{
    if ds.len() == 0 {
        assert(ds.take(0) =~= ds);
    } else if ds.last() == 0 {
        assert(b < ds.len());
        lemma_trim_zeros_take(ds.drop_last(), b);
        assert(ds.drop_last().take(b) =~= ds.take(b));
    } else {
        assert(b == ds.len());
        assert(ds.take(b) =~= ds);
    }
}

fn digit_char(d: u8) -> (c: char)
    requires
        d <= 9,
    ensures
        c == char_of_digit(d),
{
    match d {
        0 => '0',
        1 => '1',
        2 => '2',
        3 => '3',
        4 => '4',
        5 => '5',
        6 => '6',
        7 => '7',
        8 => '8',
        _ => '9',
    }
}

/// Writes the decimal text of `v`.
fn int_into(v: i128, out: &mut Vec<char>)
    requires
        v > i128::MIN,
    ensures
        final(out)@ == old(out)@ + int_chars(v as int),
{
    let ghost entry = out@;
    let mut m: u128 = if v < 0 {
        out.push('-');
        (-v) as u128
    } else {
        v as u128
    };
    let ghost n0 = m as nat;
    if m == 0 {
        out.push('0');
        proof {
            assert(final(out)@ =~= old(out)@ + int_chars(v as int));
        }
        return;
    }
    let mut tmp: Vec<u8> = Vec::new();
    while m > 0
        invariant
            n0 > 0,
            forall|j: int| 0 <= j < tmp@.len() ==> tmp@[j] <= 9,
            m > 0 ==> dec_digits(n0) == dec_digits(m as nat) + digit_chars(tmp@.reverse()),
            m == 0 ==> dec_digits(n0) == digit_chars(tmp@.reverse()),
        decreases m,
    {
        let d = (m % 10) as u8;
        let ghost prevtmp = tmp@;
        let ghost prevm = m as nat;
        tmp.push(d);
        m = m / 10;
        proof {
            assert(tmp@.reverse() =~= seq![d] + prevtmp.reverse());
            assert(digit_chars(tmp@.reverse()) =~= seq![char_of_digit(d)] + digit_chars(
                prevtmp.reverse(),
            ));
            if prevm >= 10 {
                assert(dec_digits(prevm) == dec_digits(prevm / 10) + seq![
                    char_of_digit((prevm % 10) as u8),
                ]);
                assert(dec_digits(n0) =~= dec_digits(m as nat) + digit_chars(tmp@.reverse()));
            } else {
                assert(dec_digits(prevm) == seq![char_of_digit(prevm as u8)]);
                assert(dec_digits(n0) =~= digit_chars(tmp@.reverse()));
            }
        }
    }
    let ghost txt = dec_digits(n0);
    let total = tmp.len();
    let mut k: usize = 0;
    while k < total
        invariant
            total == tmp@.len(),
            0 <= k <= total,
            forall|j: int| 0 <= j < tmp@.len() ==> tmp@[j] <= 9,
            txt == digit_chars(tmp@.reverse()),
            out@ == entry + (if v < 0 {
                seq!['-']
            } else {
                Seq::<char>::empty()
            }) + txt.take(k as int),
        decreases total - k,
    {
        let d = tmp[total - 1 - k];
        out.push(digit_char(d));
        k += 1;
        proof {
            assert(tmp@.reverse()[k - 1] == tmp@[total - k]);
            assert(txt.take(k as int) =~= txt.take(k - 1).push(char_of_digit(tmp@[total - k])));
            assert(out@ =~= entry + (if v < 0 {
                seq!['-']
            } else {
                Seq::<char>::empty()
            }) + txt.take(k as int));
        }
    }
    proof {
        assert(txt.take(total as int) =~= txt);
        assert(out@ =~= entry + int_chars(v as int));
    }
}

/// Writes the fixed-point text of `ds * 10^exp`.
#[verifier::rlimit(60)]
fn fixed_into(ds: &Vec<u8>, exp: i128, out: &mut Vec<char>)
    requires
        num_wf(ds@, exp as int),
        ds@.len() > 0,
        ds@.len() + exp as int >= 0,
        exp >= 0 ==> exp <= 15,
        ceil_log10(ds@, exp as int) <= 15,
    ensures
        final(out)@ == old(out)@ + spec_fixed(ds@, exp as int),
{
    let ghost entry = out@;
    let n = ds.len();
    if exp >= 0 {
        let mut i: usize = 0;
        while i < n
            invariant
                entry == old(out)@,
                n == ds@.len(),
                0 <= i <= n,
                forall|j: int| 0 <= j < ds@.len() ==> ds@[j] <= 9,
                out@ == entry + digit_chars(ds@.subrange(0, i as int)),
            decreases n - i,
        {
            let d = ds[i];
            out.push(digit_char(d));
            i += 1;
            proof {
                assert(ds@.subrange(0, i as int) =~= ds@.subrange(0, i - 1).push(ds@[i - 1]));
                assert(digit_chars(ds@.subrange(0, i as int)) =~= digit_chars(
                    ds@.subrange(0, i - 1),
                ).push(char_of_digit(ds@[i - 1])));
            }
        }
        let mut z: i128 = 0;
        while z < exp
            invariant
                entry == old(out)@,
                n == ds@.len(),
                0 <= z <= exp <= 15,
                out@ == entry + digit_chars(ds@.subrange(0, n as int)) + zero_chars(z as int),
            decreases exp - z,
        {
            out.push('0');
            z += 1;
            proof {
                assert(zero_chars(z as int) =~= zero_chars(z - 1).push('0'));
            }
        }
        proof {
            assert(ds@.subrange(0, n as int) =~= ds@);
            assert(out@ =~= entry + (digit_chars(ds@) + zero_chars(exp as int)));
        }
    } else {
        let ipi: i128 = (n as i128) + exp;
        let ip: usize = ipi as usize;
        if ip == 0 {
            out.push('0');
        } else {
            let mut i: usize = 0;
            while i < ip
                invariant
                    entry == old(out)@,
                    n == ds@.len(),
                    0 <= i <= ip <= n,
                    forall|j: int| 0 <= j < ds@.len() ==> ds@[j] <= 9,
                    out@ == entry + digit_chars(ds@.subrange(0, i as int)),
                decreases ip - i,
            {
                let d = ds[i];
                out.push(digit_char(d));
                i += 1;
                proof {
                    assert(ds@.subrange(0, i as int) =~= ds@.subrange(0, i - 1).push(ds@[i - 1]));
                    assert(digit_chars(ds@.subrange(0, i as int)) =~= digit_chars(
                        ds@.subrange(0, i - 1),
                    ).push(char_of_digit(ds@[i - 1])));
                }
            }
        }
        let ghost ihead: Seq<char> = if ip == 0 {
            seq!['0']
        } else {
            digit_chars(ds@.subrange(0, ip as int))
        };
        assert(out@ == entry + ihead);
        let c: i128 = if n == 1 && ds[0] == 1 {
            exp
        } else {
            exp + n as i128
        };
        let p: i128 = if c >= 0 {
            c
        } else {
            0
        };
        let width: i128 = 15 - p;
        let width_u: usize = width as usize;
        let fr_end: usize = if n - ip > width_u {
            ip + width_u
        } else {
            n
        };
        let mut e2: usize = fr_end;
        let mut go = true;
        while go
            invariant
                n == ds@.len(),
                ip <= e2 <= fr_end <= n,
                forall|j: int| e2 <= j < fr_end ==> ds@[j] == 0,
                !go ==> e2 == ip || ds@[e2 - 1] != 0,
            decreases e2 + (if go { 1int } else { 0int }),
        {
            if e2 > ip {
                if ds[e2 - 1] == 0 {
                    e2 -= 1;
                } else {
                    go = false;
                }
            } else {
                go = false;
            }
        }
        if e2 > ip {
            out.push('.');
            let mut i2: usize = ip;
            while i2 < e2
                invariant
                    entry == old(out)@,
                    n == ds@.len(),
                    ip <= i2 <= e2 <= n,
                    forall|j: int| 0 <= j < ds@.len() ==> ds@[j] <= 9,
                    out@ == entry + ihead + seq!['.'] + digit_chars(
                        ds@.subrange(ip as int, i2 as int),
                    ),
                decreases e2 - i2,
            {
                let d = ds[i2];
                out.push(digit_char(d));
                i2 += 1;
                proof {
                    assert(ds@.subrange(ip as int, i2 as int) =~= ds@.subrange(
                        ip as int,
                        i2 - 1,
                    ).push(ds@[i2 - 1]));
                    assert(digit_chars(ds@.subrange(ip as int, i2 as int)) =~= digit_chars(
                        ds@.subrange(ip as int, i2 - 1),
                    ).push(char_of_digit(ds@[i2 - 1])));
                }
            }
        }
        proof {
            let dss = ds@;
            let expi = exp as int;
            let ipg = dss.len() + expi;
            let frac_full = dss.skip(ipg);
            let cg = ceil_log10(dss, expi);
            let widthg = 15 - (if cg >= 0 {
                cg
            } else {
                0
            });
            let frac_kept = if widthg < frac_full.len() {
                frac_full.take(widthg)
            } else {
                frac_full
            };
            assert(frac_kept =~= dss.subrange(ip as int, fr_end as int));
            assert forall|j: int| (e2 - ip) <= j < frac_kept.len() implies frac_kept[j] == 0 by {
                assert(frac_kept[j] == dss[ip + j]);
            }
            if e2 > ip {
                assert(frac_kept[e2 - ip - 1] == dss[e2 - 1]);
            }
            lemma_trim_zeros_take(frac_kept, e2 - ip);
            if e2 == ip {
                assert(trim_zeros(frac_kept) =~= Seq::<u8>::empty());
                assert(out@ =~= entry + spec_fixed(dss, expi));
            } else {
                assert(trim_zeros(frac_kept) =~= dss.subrange(ip as int, e2 as int));
                assert(out@ =~= entry + (ihead + seq!['.'] + digit_chars(
                    dss.subrange(ip as int, e2 as int),
                )));
                assert(out@ =~= entry + spec_fixed(dss, expi));
            }
        }
    }
}

/// Writes the text of a number.
fn format_num_into(nv: &PoseNum, out: &mut Vec<char>)
    requires
        nv.wf(),
    ensures
        final(out)@ == old(out)@ + spec_format_num(nv.neg, nv.digits@, nv.exp as int),
{
    let ghost entry = out@;
    if nv.neg {
        out.push('-');
    }
    let ghost sign: Seq<char> = if nv.neg {
        seq!['-']
    } else {
        Seq::empty()
    };
    assert(out@ =~= entry + sign);
    let n = nv.digits.len();
    if n == 0 {
        out.push('0');
        proof {
            assert(out@ =~= entry + (sign + seq!['0']));
        }
        return;
    }
    let c: i128 = if n == 1 && nv.digits[0] == 1 {
        nv.exp
    } else {
        nv.exp + n as i128
    };
    if (n as i128) + nv.exp >= 0 && c <= 15 {
        fixed_into(&nv.digits, nv.exp, out);
        proof {
            assert(out@ =~= entry + (sign + spec_fixed(nv.digits@, nv.exp as int)));
        }
    } else {
        let me: i128 = nv.exp - (c - 1);
        fixed_into(&nv.digits, me, out);
        out.push('e');
        int_into(c - 1, out);
        proof {
            assert(out@ =~= entry + (sign + (spec_fixed(nv.digits@, me as int) + seq!['e']
                + int_chars(c - 1))));
        }
    }
}

/// Writes the canonical text of a value.
fn format_into(v: &PoseType, out: &mut Vec<char>)
    requires
        form_wf(v@),
    ensures
        final(out)@ == old(out)@ + spec_format(v@),
    decreases v,
{
    let ghost entry = out@;
    match v {
        PoseType::String(t) => {
            out.push('"');
            let cs = crate::text::str_chars(t.as_str());
            proof {
                assert(cs@.skip(0) =~= cs@);
            }
            let n = cs.len();
            let mut i: usize = 0;
            while i < n
                invariant
                    entry == old(out)@,
                    n == cs@.len(),
                    cs@ == t@,
                    0 <= i <= n,
                    out@ + escape_text(cs@.skip(i as int)) == entry + seq!['"'] + escape_text(cs@),
                decreases n - i,
            {
                let c = cs[i];
                let ghost before = out@;
                if c == '"' || c == '\\' {
                    out.push('\\');
                    out.push(c);
                } else {
                    out.push(c);
                }
                i += 1;
                proof {
                    let rest = cs@.skip(i - 1);
                    assert(rest[0] == cs@[i - 1]);
                    assert(rest.drop_first() =~= cs@.skip(i as int));
                    if cs@[i - 1] == '"' || cs@[i - 1] == '\\' {
                        assert(out@ =~= before + seq!['\\', cs@[i - 1]]);
                        assert(out@ + escape_text(cs@.skip(i as int)) =~= before + escape_text(
                            rest,
                        ));
                    } else {
                        assert(out@ =~= before + seq![cs@[i - 1]]);
                        assert(out@ + escape_text(cs@.skip(i as int)) =~= before + escape_text(
                            rest,
                        ));
                    }
                }
            }
            out.push('"');
            proof {
                assert(escape_text(cs@.skip(n as int)) =~= Seq::<char>::empty());
                assert(out@ =~= entry + (seq!['"'] + escape_text(t@) + seq!['"']));
            }
        },
        PoseType::Number(nv) => {
            format_num_into(nv, out);
        },
        PoseType::Symbol(t) => {
            let cs = crate::text::str_chars(t.as_str());
            let n = cs.len();
            let mut i: usize = 0;
            while i < n
                invariant
                    entry == old(out)@,
                    n == cs@.len(),
                    cs@ == t@,
                    0 <= i <= n,
                    out@ == entry + cs@.subrange(0, i as int),
                decreases n - i,
            {
                let c = cs[i];
                out.push(c);
                i += 1;
                proof {
                    assert(cs@.subrange(0, i as int) =~= cs@.subrange(0, i - 1).push(cs@[i - 1]));
                }
            }
            proof {
                assert(cs@.subrange(0, n as int) =~= t@);
            }
        },
        PoseType::List(l) => {
            out.push('(');
            let n = l.len();
            if n > 0 {
                proof {
                    crate::types::lemma_forms_of_len(l@);
                    crate::types::lemma_forms_wf_index(forms_of(l@));
                    assert forall|j: int| 0 <= j < l@.len() implies form_wf(
                        #[trigger] crate::types::form_of(l@[j]),
                    ) by {
                        assert(forms_of(l@)[j] == crate::types::form_of(l@[j]));
                        assert(form_wf(forms_of(l@)[j]));
                    }
                    assert(forms_of(l@).subrange(0, 0) =~= Seq::<Form>::empty());
                }
                let mut i: usize = 0;
                while i < n
                    invariant
                        entry == old(out)@,
                        *v is List,
                        *l == v->List_0,
                        n == l@.len(),
                        n > 0,
                        0 <= i <= n,
                        forms_wf(forms_of(l@)),
                        forall|j: int| 0 <= j < l@.len() ==> form_wf(
                            #[trigger] crate::types::form_of(l@[j]),
                        ),
                        out@ == entry + seq!['('] + spec_format_items(
                            forms_of(l@).subrange(0, i as int),
                        ),
                    decreases n - i,
                {
                    let e = &l[i];
                    proof {
                        crate::types::lemma_forms_of_len(l@);
                        assert(form_wf(e@));
                        assert(decreases_to!(*v => v->List_0));
                        assert(decreases_to!(v->List_0 => v->List_0@));
                        assert(decreases_to!(v->List_0@ => v->List_0@[i as int]));
                        assert(decreases_to!(*v => l@[i as int]));
                    }
                    format_into(e, out);
                    i += 1;
                    proof {
                        crate::types::lemma_forms_of_len(l@);
                        let pre = forms_of(l@).subrange(0, i - 1);
                        let now = forms_of(l@).subrange(0, i as int);
                        assert(now.drop_last() =~= pre);
                        assert(now.last() == forms_of(l@)[i - 1]);
                        assert(spec_format_items(now) == spec_format_items(pre) + spec_format(
                            forms_of(l@)[i - 1],
                        ));
                    }
                }
                out.push(')');
                proof {
                    crate::types::lemma_forms_of_len(l@);
                    assert(forms_of(l@).subrange(0, n as int) =~= forms_of(l@));
                    assert(out@ =~= entry + (seq!['('] + spec_format_items(forms_of(l@)) + seq![
                        ')',
                    ]));
                }
            } else {
                proof {
                    assert(forms_of(l@) =~= Seq::<Form>::empty());
                    assert(out@ =~= entry + seq!['(']);
                }
            }
        },
        PoseType::End => {
            out.push('E');
            out.push('O');
            out.push('F');
            proof {
                assert(out@ =~= entry + seq!['E', 'O', 'F']);
            }
        },
    }
}

/// Renders a value as canonical text: reading it back yields an equal
/// value, within the numeric budget.
pub fn format(v: &PoseType) -> (r: String)
    requires
        form_wf(v@),
    ensures
        r@ == spec_format(v@),
{
    let mut out: Vec<char> = Vec::new();
    format_into(v, &mut out);
    proof {
        assert(out@ =~= spec_format(v@));
    }
    crate::text::chars_to_string(out)
}

} // verus!
