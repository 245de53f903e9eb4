//! The value model and the error taxonomy.

use vstd::prelude::*;

verus! {

broadcast use vstd::seq::axiom_seq_index_decreases, vstd::std_specs::vec::axiom_vec_decreases_to_view;

/// The mathematical form of a value: the view of `PoseType`.
///
/// A number is kept exactly as a sign, a digit string and a power-of-ten
/// exponent; the value denoted is `(-1)^neg * digits * 10^exp`, reading
/// `digits` as one integer.
pub enum Form {
    Str(Seq<char>),
    Num { neg: bool, digits: Seq<u8>, exp: int },
    Sym(Seq<char>),
    List(Seq<Form>),
    End,
}

/// An exact decimal number: `(-1)^neg * digits * 10^exp`, with `digits`
/// read as one integer, most significant digit first.
///
/// Canonical shape (`wf`): no leading or trailing zero digit, and zero
/// itself is the empty digit string with exponent zero (`neg` may still be
/// set: negative zero formats with a sign but compares equal to zero).
#[derive(Debug)]
pub struct PoseNum {
    pub neg: bool,
    pub digits: Vec<u8>,
    pub exp: i128,
}

/// One parsed value: an atom, a list, or the end-of-input sentinel.
#[derive(Debug)]
pub enum PoseType {
    String(String),
    Number(PoseNum),
    Symbol(String),
    List(Vec<PoseType>),
    End,
}

/// The grammar violations the reader can report.
#[derive(Clone, Copy, PartialEq, Eq, Structural, Debug)]
pub enum PoseError {
    InvalidString,
    InvalidNumber,
    InvalidSymbol,
    InvalidEnd,
    NothingClosingParenthesis,
    InvalidFirstLetter,
}

/// Canonical shape of an exact decimal `digits * 10^exp`: digit values
/// only, no leading or trailing zero digit, zero written as the empty
/// digit string with exponent zero, and the exponent within the room the
/// reader can ever produce.
pub open spec fn num_wf(digits: Seq<u8>, exp: int) -> bool {
    &&& forall|i: int| 0 <= i < digits.len() ==> digits[i] <= 9
    &&& digits.len() > 0 ==> digits[0] != 0
    &&& digits.len() > 0 ==> digits[digits.len() - 1] != 0
    &&& digits.len() == 0 ==> exp == 0
    &&& -0x1_0000_0000_0000_0000_0000 <= exp <= 0x1_0000_0000_0000_0000_0000
}

impl PoseNum {
    /// Canonical shape of an exact decimal.
    pub open spec fn wf(self) -> bool {
        num_wf(self.digits@, self.exp as int)
    }
}

/// Canonical shape of a form: every number in it is a canonical decimal.
pub open spec fn form_wf(f: Form) -> bool
    decreases f,
{
    match f {
        Form::Num { neg, digits, exp } => num_wf(digits, exp),
        Form::List(items) => forms_wf(items),
        _ => true,
    }
}

/// Canonical shape of every form in a sequence.
pub open spec fn forms_wf(s: Seq<Form>) -> bool
    decreases s,
{
    if s.len() == 0 {
        true
    } else {
        forms_wf(s.drop_last()) && form_wf(s.last())
    }
}

impl View for PoseNum {
    type V = Form;

    open spec fn view(&self) -> Form {
        Form::Num { neg: self.neg, digits: self.digits@, exp: self.exp as int }
    }
}

/// The form of one value, defined together with `forms_of` by structural
/// recursion.
pub open spec fn form_of(v: PoseType) -> Form
    decreases v,
{
    match v {
        PoseType::String(s) => Form::Str(s@),
        PoseType::Number(n) => n@,
        PoseType::Symbol(s) => Form::Sym(s@),
        PoseType::List(l) => Form::List(forms_of(l@)),
        PoseType::End => Form::End,
    }
}

/// The forms of a sequence of values, element by element.
pub open spec fn forms_of(s: Seq<PoseType>) -> Seq<Form>
    decreases s,
{
    if s.len() == 0 {
        Seq::empty()
    } else {
        forms_of(s.drop_last()).push(form_of(s.last()))
    }
}

impl View for PoseType {
    type V = Form;

    open spec fn view(&self) -> Form {
        form_of(*self)
    }
}

/// Equality of forms as values: structural, except that numbers compare
/// by numeric value, so negative zero equals zero.
pub open spec fn val_eq(a: Form, b: Form) -> bool
    decreases a,
{
    match (a, b) {
        (Form::Str(x), Form::Str(y)) => x == y,
        (Form::Sym(x), Form::Sym(y)) => x == y,
        (
            Form::Num { neg: n1, digits: d1, exp: e1 },
            Form::Num { neg: n2, digits: d2, exp: e2 },
        ) => d1 == d2 && e1 == e2 && (n1 == n2 || d1.len() == 0),
        (Form::List(x), Form::List(y)) => list_eq(x, y),
        (Form::End, Form::End) => true,
        _ => false,
    }
}

/// Elementwise value equality of form sequences.
pub open spec fn list_eq(x: Seq<Form>, y: Seq<Form>) -> bool
    decreases x,
{
    if x.len() != y.len() {
        false
    } else if x.len() == 0 {
        true
    } else {
        list_eq(x.drop_last(), y.drop_last()) && val_eq(x.last(), y.last())
    }
}

/// `list_eq` is length equality plus elementwise `val_eq`.
pub proof fn lemma_list_eq_char(x: Seq<Form>, y: Seq<Form>)
    ensures
        list_eq(x, y) == (x.len() == y.len() && forall|i: int|
            0 <= i < x.len() ==> val_eq(#[trigger] x[i], y[i])),
    decreases x,
{
    if x.len() == y.len() && x.len() > 0 {
        lemma_list_eq_char(x.drop_last(), y.drop_last());
        if list_eq(x, y) {
            assert forall|i: int| 0 <= i < x.len() implies val_eq(#[trigger] x[i], y[i]) by {
                if i < x.len() - 1 {
                    assert(x.drop_last()[i] == x[i] && y.drop_last()[i] == y[i]);
                } else {
                    assert(x[i] == x.last() && y[i] == y.last());
                }
            }
        }
        if x.len() == y.len() && forall|i: int|
            0 <= i < x.len() ==> val_eq(#[trigger] x[i], y[i]) {
            assert forall|i: int|
                0 <= i < x.drop_last().len() implies val_eq(
                #[trigger] x.drop_last()[i],
                y.drop_last()[i],
            ) by {
                assert(x.drop_last()[i] == x[i] && y.drop_last()[i] == y[i]);
            }
            assert(val_eq(x.last(), y.last()));
        }
    }
}

impl PoseType {
    /// Structural equality of two values, with numbers compared as
    /// values: negative zero equals zero.
    pub fn deep_eq(&self, other: &PoseType) -> (r: bool)
        ensures
            r == val_eq(self@, other@),
        decreases self,
    {
        match (self, other) {
            (PoseType::String(a), PoseType::String(b)) => String::eq(a, b),
            (PoseType::Symbol(a), PoseType::Symbol(b)) => String::eq(a, b),
            (PoseType::Number(a), PoseType::Number(b)) => {
                if a.exp != b.exp {
                    return false;
                }
                let n = a.digits.len();
                if n != b.digits.len() {
                    proof {
                        assert(a.digits@.len() != b.digits@.len());
                    }
                    return false;
                }
                let mut i: usize = 0;
                while i < n
                    invariant
                        *self == PoseType::Number(*a),
                        *other == PoseType::Number(*b),
                        a.exp == b.exp,
                        n == a.digits@.len() == b.digits@.len(),
                        0 <= i <= n,
                        forall|j: int| 0 <= j < i ==> a.digits@[j] == b.digits@[j],
                    decreases n - i,
                {
                    if a.digits[i] != b.digits[i] {
                        return false;
                    }
                    i += 1;
                }
                proof {
                    assert(a.digits@ =~= b.digits@);
                }
                a.neg == b.neg || n == 0
            },
            (PoseType::List(a), PoseType::List(b)) => {
                let n = a.len();
                if n != b.len() {
                    proof {
                        lemma_forms_of_len(a@);
                        lemma_forms_of_len(b@);
                        lemma_list_eq_char(forms_of(a@), forms_of(b@));
                    }
                    return false;
                }
                let mut i: usize = 0;
                while i < n
                    invariant
                        *self is List,
                        *a == self->List_0,
                        *other is List,
                        *b == other->List_0,
                        n == a@.len() == b@.len(),
                        0 <= i <= n,
                        forall|j: int| 0 <= j < i ==> val_eq(
                            #[trigger] form_of(a@[j]),
                            form_of(b@[j]),
                        ),
                    decreases n - i,
                {
                    let x = &a[i];
                    let y = &b[i];
                    proof {
                        assert(decreases_to!(*self => self->List_0));
                        assert(decreases_to!(self->List_0 => self->List_0@));
                        assert(decreases_to!(self->List_0@ => self->List_0@[i as int]));
                        assert(decreases_to!(*self => a@[i as int]));
                    }
                    if !x.deep_eq(y) {
                        proof {
                            lemma_forms_of_len(a@);
                            lemma_forms_of_len(b@);
                            assert(forms_of(a@)[i as int] == form_of(a@[i as int]));
                            assert(forms_of(b@)[i as int] == form_of(b@[i as int]));
                            assert(!val_eq(forms_of(a@)[i as int], forms_of(b@)[i as int]));
                            lemma_list_eq_char(forms_of(a@), forms_of(b@));
                            assert(!list_eq(forms_of(a@), forms_of(b@)));
                        }
                        return false;
                    }
                    i += 1;
                }
                proof {
                    lemma_forms_of_len(a@);
                    lemma_forms_of_len(b@);
                    lemma_list_eq_char(forms_of(a@), forms_of(b@));
                }
                true
            },
            (PoseType::End, PoseType::End) => true,
            _ => false,
        }
    }
}

pub proof fn lemma_forms_of_push(s: Seq<PoseType>, x: PoseType)
    ensures
        forms_of(s.push(x)) == forms_of(s).push(form_of(x)),
{
    assert(s.push(x).drop_last() =~= s);
    assert(s.push(x).last() == x);
}

pub proof fn lemma_forms_of_len(s: Seq<PoseType>)
    ensures
        forms_of(s).len() == s.len(),
        forall|i: int| 0 <= i < s.len() ==> forms_of(s)[i] == form_of(s[i]),
    decreases s,
{
    if s.len() > 0 {
        lemma_forms_of_len(s.drop_last());
    }
}

pub proof fn lemma_forms_wf_index(s: Seq<Form>)
    requires
        forms_wf(s),
    ensures
        forall|i: int| 0 <= i < s.len() ==> form_wf(#[trigger] s[i]),
    decreases s,
{
    if s.len() > 0 {
        lemma_forms_wf_index(s.drop_last());
        assert forall|i: int| 0 <= i < s.len() implies form_wf(#[trigger] s[i]) by {
            if i < s.len() - 1 {
                assert(s.drop_last()[i] == s[i]);
            } else {
                assert(s[i] == s.last());
            }
        }
    }
}

} // verus!
