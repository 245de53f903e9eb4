//! The reader: a recursive-descent parser over a character sequence.
//!
//! The grammar is stated by the `spec` functions in this module; the
//! executable reader is proved to return exactly what they describe.

use vstd::prelude::*;

use crate::types::Form;
use crate::types::PoseError;
use crate::types::PoseNum;
use crate::types::PoseType;

verus! {

broadcast use vstd::seq::axiom_seq_index_decreases, vstd::std_specs::vec::axiom_vec_decreases_to_view;

// ---------------------------------------------------------------------------
// Character classes
// ---------------------------------------------------------------------------

/// ASCII whitespace, plus vertical tab.
pub open spec fn is_space_char(c: char) -> bool {
    c == ' ' || c == '\t' || c == '\n' || c == '\x0c' || c == '\r' || c == '\x0b'
}

/// An ASCII decimal digit.
pub open spec fn is_digit_char(c: char) -> bool {
    48 <= c as u32 && c as u32 <= 57
}

/// The numeric value of an ASCII digit.
pub open spec fn digit_of(c: char) -> u8 {
    (c as u32 - 48) as u8
}

/// An ASCII lowercase letter.
pub open spec fn is_lower_char(c: char) -> bool {
    97 <= c as u32 && c as u32 <= 122
}

/// A character that may begin a symbol.
pub open spec fn is_word_first_char(c: char) -> bool {
    ||| is_lower_char(c)
    ||| c == '!' || c == '$' || c == '&' || c == '*' || c == '+' || c == '-'
    ||| c == '/' || c == '<' || c == '=' || c == '>' || c == '_'
}

/// A character that may follow a leading `+` or `-` in a symbol.
pub open spec fn is_sign_second_char(c: char) -> bool {
    is_word_first_char(c) || c == '.' || c == '?' || c == '@'
}

/// A character that may continue a symbol after its first character.
pub open spec fn is_sym_cont_char(c: char) -> bool {
    is_sign_second_char(c) || is_digit_char(c)
}

// ---------------------------------------------------------------------------
// Scanning helpers
// ---------------------------------------------------------------------------

/// The first position at or after `i` holding no whitespace.
pub open spec fn skip_ws_end(s: Seq<char>, i: int) -> int
    decreases s.len() - i,
{
    if 0 <= i < s.len() && is_space_char(s[i]) {
        skip_ws_end(s, i + 1)
    } else {
        i
    }
}

/// The position just after the line break that ends the line at `i`,
/// or the end of the input.
pub open spec fn after_line_end(s: Seq<char>, i: int) -> int
    decreases s.len() - i,
{
    if 0 <= i < s.len() {
        if s[i] == '\r' || s[i] == '\n' {
            i + 1
        } else {
            after_line_end(s, i + 1)
        }
    } else {
        i
    }
}

/// The end of the digit run beginning at `i`.
pub open spec fn digits_end(s: Seq<char>, i: int) -> int
    decreases s.len() - i,
{
    if 0 <= i < s.len() && is_digit_char(s[i]) {
        digits_end(s, i + 1)
    } else {
        i
    }
}

/// The end of the symbol-continuation run beginning at `i`.
pub open spec fn sym_end(s: Seq<char>, i: int) -> int
    decreases s.len() - i,
{
    if 0 <= i < s.len() && is_sym_cont_char(s[i]) {
        sym_end(s, i + 1)
    } else {
        i
    }
}

pub proof fn lemma_skip_ws_end(s: Seq<char>, i: int)
    requires
        0 <= i <= s.len(),
    ensures
        i <= skip_ws_end(s, i) <= s.len(),
        skip_ws_end(s, i) < s.len() ==> !is_space_char(s[skip_ws_end(s, i)]),
    decreases s.len() - i,
{
    if i < s.len() && is_space_char(s[i]) {
        lemma_skip_ws_end(s, i + 1);
    }
}

pub proof fn lemma_after_line_end(s: Seq<char>, i: int)
    requires
        0 <= i <= s.len(),
    ensures
        i <= after_line_end(s, i) <= s.len(),
    decreases s.len() - i,
{
    if i < s.len() && !(s[i] == '\r' || s[i] == '\n') {
        lemma_after_line_end(s, i + 1);
    }
}

pub proof fn lemma_digits_end(s: Seq<char>, i: int)
    requires
        0 <= i <= s.len(),
    ensures
        i <= digits_end(s, i) <= s.len(),
        digits_end(s, i) < s.len() ==> !is_digit_char(s[digits_end(s, i)]),
        forall|j: int| i <= j < digits_end(s, i) ==> is_digit_char(s[j]),
    decreases s.len() - i,
{
    if i < s.len() && is_digit_char(s[i]) {
        lemma_digits_end(s, i + 1);
    }
}

pub proof fn lemma_sym_end(s: Seq<char>, i: int)
    requires
        0 <= i <= s.len(),
    ensures
        i <= sym_end(s, i) <= s.len(),
        sym_end(s, i) < s.len() ==> !is_sym_cont_char(s[sym_end(s, i)]),
        forall|j: int| i <= j < sym_end(s, i) ==> is_sym_cont_char(s[j]),
    decreases s.len() - i,
{
    if i < s.len() && is_sym_cont_char(s[i]) {
        lemma_sym_end(s, i + 1);
    }
}

// ---------------------------------------------------------------------------
// String literals
// ---------------------------------------------------------------------------

/// The position just after the closing quote of the string body beginning
/// at `i`, or `None` when the body is unterminated or holds a bad escape.
pub open spec fn string_end(s: Seq<char>, i: int) -> Option<int>
    decreases s.len() - i,
{
    if !(0 <= i < s.len()) {
        None
    } else if s[i] == '"' {
        Some(i + 1)
    } else if s[i] == '\\' {
        if i + 1 < s.len() && (s[i + 1] == '\\' || s[i + 1] == '"') {
            string_end(s, i + 2)
        } else {
            None
        }
    } else {
        string_end(s, i + 1)
    }
}

/// The escape-decoded text of the string body beginning at `i`.
pub open spec fn string_content(s: Seq<char>, i: int) -> Seq<char>
    decreases s.len() - i,
{
    if !(0 <= i < s.len()) {
        Seq::empty()
    } else if s[i] == '"' {
        Seq::empty()
    } else if s[i] == '\\' {
        if i + 1 < s.len() && (s[i + 1] == '\\' || s[i + 1] == '"') {
            seq![s[i + 1]] + string_content(s, i + 2)
        } else {
            Seq::empty()
        }
    } else {
        seq![s[i]] + string_content(s, i + 1)
    }
}

pub proof fn lemma_string_end(s: Seq<char>, i: int)
    requires
        0 <= i <= s.len(),
    ensures
        string_end(s, i) matches Some(j) ==> i < j <= s.len(),
    decreases s.len() - i,
{
    if 0 <= i < s.len() && s[i] != '"' {
        if s[i] == '\\' {
            if i + 1 < s.len() && (s[i + 1] == '\\' || s[i + 1] == '"') {
                lemma_string_end(s, i + 2);
            }
        } else {
            lemma_string_end(s, i + 1);
        }
    }
}

// ---------------------------------------------------------------------------
// Number literals
// ---------------------------------------------------------------------------

/// The digit values of the digit characters `s[i..j]`.
pub open spec fn digit_seq(s: Seq<char>, i: int, j: int) -> Seq<u8> {
    Seq::new((j - i) as nat, |k: int| digit_of(s[i + k]))
}

/// The integer denoted by the digit characters `s[i..j]`.
pub open spec fn run_val(s: Seq<char>, i: int, j: int) -> int
    decreases j - i,
{
    if j <= i {
        0
    } else {
        run_val(s, i, j - 1) * 10 + digit_of(s[j - 1])
    }
}

/// Integer part: a single `0`, or a nonempty digit run not beginning
/// with `0`.  Yields its digits and the position after them.
pub open spec fn spec_int_part(s: Seq<char>, i: int) -> Option<(Seq<u8>, int)> {
    if 0 <= i < s.len() && is_digit_char(s[i]) {
        if s[i] == '0' {
            Some((seq![0u8], i + 1))
        } else {
            Some((digit_seq(s, i, digits_end(s, i)), digits_end(s, i)))
        }
    } else {
        None
    }
}

/// Decimal part: nothing, or `.` followed by one or more digits.
pub open spec fn spec_dec_part(s: Seq<char>, i: int) -> Option<(Seq<u8>, int)> {
    if 0 <= i < s.len() && s[i] == '.' {
        if i + 1 < s.len() && is_digit_char(s[i + 1]) {
            Some((digit_seq(s, i + 1, digits_end(s, i + 1)), digits_end(s, i + 1)))
        } else {
            None
        }
    } else {
        Some((Seq::empty(), i))
    }
}

/// A magnitude clamped to the largest signed 64-bit value: the reader
/// saturates exponents this far out, where any finite grammar value is
/// long since out of range.
pub open spec fn sat64(v: int) -> int {
    if v > i64::MAX as int {
        i64::MAX as int
    } else {
        v
    }
}

/// Exponent part: nothing, or `e`/`E`, an optional sign, and one or more
/// digits.  Yields the signed exponent (saturated) and the position after.
pub open spec fn spec_exp_part(s: Seq<char>, i: int) -> Option<(int, int)> {
    if 0 <= i < s.len() && (s[i] == 'e' || s[i] == 'E') {
        let neg = i + 1 < s.len() && s[i + 1] == '-';
        let k = if i + 1 < s.len() && (s[i + 1] == '+' || s[i + 1] == '-') {
            i + 2
        } else {
            i + 1
        };
        if k < s.len() && is_digit_char(s[k]) {
            let m = sat64(run_val(s, k, digits_end(s, k)));
            Some(((if neg { -m } else { m }), digits_end(s, k)))
        } else {
            None
        }
    } else {
        Some((0, i))
    }
}

/// Digits without leading zeros.
pub open spec fn strip_lead(ds: Seq<u8>) -> Seq<u8>
    decreases ds.len(),
{
    if ds.len() > 0 && ds[0] == 0 {
        strip_lead(ds.drop_first())
    } else {
        ds
    }
}

/// Digits without trailing zeros, each stripped zero raising the exponent;
/// zero itself becomes the empty digit string with exponent zero.
pub open spec fn strip_trail(ds: Seq<u8>, exp: int) -> (Seq<u8>, int)
    decreases ds.len(),
{
    if ds.len() == 0 {
        (ds, 0)
    } else if ds.last() == 0 {
        strip_trail(ds.drop_last(), exp + 1)
    } else {
        (ds, exp)
    }
}

/// The canonical decimal denoting `ds * 10^exp`.
pub open spec fn norm_num(ds: Seq<u8>, exp: int) -> (Seq<u8>, int) {
    strip_trail(strip_lead(ds), exp)
}

/// An unsigned number literal at `i`: integer part, then optional decimal
/// and exponent parts.  Yields the canonical decimal and the position after.
pub open spec fn spec_number(s: Seq<char>, i: int) -> Option<((Seq<u8>, int), int)> {
    match spec_int_part(s, i) {
        None => None,
        Some((ids, j)) => match spec_dec_part(s, j) {
            None => None,
            Some((fds, k)) => match spec_exp_part(s, k) {
                None => None,
                Some((e, m)) => Some((norm_num(ids + fds, e - fds.len()), m)),
            },
        },
    }
}

// ---------------------------------------------------------------------------
// One form
// ---------------------------------------------------------------------------

/// Reads one form at `i`: the result and the position after it.
/// On an error the position is where reading stopped.
pub open spec fn spec_read(s: Seq<char>, i: int) -> (Result<Form, PoseError>, int)
    decreases s.len() - i, 2int,
        when 0 <= i
    via spec_read_decreases
{
    let p = skip_ws_end(s, i);
    if p >= s.len() {
        (Ok(Form::End), p)
    } else if s[p] == ';' {
        spec_read(s, after_line_end(s, p + 1))
    } else if s[p] == '(' {
        match spec_read_list(s, p + 1) {
            (Ok(items), q) => (Ok(Form::List(items)), q),
            (Err(e), q) => (Err(e), q),
        }
    } else if s[p] == '"' {
        match string_end(s, p + 1) {
            Some(q) => (Ok(Form::Str(string_content(s, p + 1))), q),
            None => (Err(PoseError::InvalidString), p + 1),
        }
    } else if s[p] == '-' {
        if p + 1 < s.len() && is_digit_char(s[p + 1]) {
            match spec_number(s, p + 1) {
                Some(((ds, exp), q)) => (Ok(Form::Num { neg: true, digits: ds, exp }), q),
                None => (Err(PoseError::InvalidNumber), p + 1),
            }
        } else if p + 1 < s.len() && is_sign_second_char(s[p + 1]) {
            let q = sym_end(s, p + 2);
            (Ok(Form::Sym(seq!['-'] + s.subrange(p + 1, q))), q)
        } else {
            (Ok(Form::Sym(seq!['-'])), p + 1)
        }
    } else if s[p] == '+' {
        if p + 1 < s.len() && is_sign_second_char(s[p + 1]) {
            let q = sym_end(s, p + 2);
            (Ok(Form::Sym(seq!['+'] + s.subrange(p + 1, q))), q)
        } else {
            (Ok(Form::Sym(seq!['+'])), p + 1)
        }
    } else if is_digit_char(s[p]) {
        match spec_number(s, p) {
            Some(((ds, exp), q)) => (Ok(Form::Num { neg: false, digits: ds, exp }), q),
            None => (Err(PoseError::InvalidNumber), p),
        }
    } else if is_word_first_char(s[p]) {
        let q = sym_end(s, p + 1);
        (Ok(Form::Sym(s.subrange(p, q))), q)
    } else if s[p] == ':' {
        if p + 1 < s.len() && is_word_first_char(s[p + 1]) {
            let q = sym_end(s, p + 2);
            (Ok(Form::Sym(seq![':'] + s.subrange(p + 1, q))), q)
        } else {
            (Err(PoseError::InvalidSymbol), p + 1)
        }
    } else {
        (Err(PoseError::InvalidFirstLetter), p)
    }
}

/// Reads list elements at `i` up to and including the closing parenthesis:
/// the elements and the position after it.
pub open spec fn spec_read_list(s: Seq<char>, i: int) -> (Result<Seq<Form>, PoseError>, int)
    decreases s.len() - i, 3int,
        when 0 <= i
    via spec_read_list_decreases
{
    let p = skip_ws_end(s, i);
    if p >= s.len() {
        (Err(PoseError::NothingClosingParenthesis), p)
    } else if s[p] == ')' {
        (Ok(Seq::empty()), p + 1)
    } else {
        match spec_read(s, p) {
            (Ok(Form::End), q) => (Err(PoseError::NothingClosingParenthesis), q),
            (Ok(f), q) => if p < q <= s.len() {
                match spec_read_list(s, q) {
                    (Ok(rest), q2) => (Ok(seq![f] + rest), q2),
                    (Err(e), q2) => (Err(e), q2),
                }
            } else {
                (Err(PoseError::NothingClosingParenthesis), q)
            },
            (Err(e), q) => (Err(e), q),
        }
    }
}

#[via_fn]
proof fn spec_read_decreases(s: Seq<char>, i: int) {
    lemma_skip_ws_end_raw(s, i);
    let p = skip_ws_end(s, i);
    if 0 <= p + 1 <= s.len() {
        lemma_after_line_end(s, p + 1);
    }
}

#[via_fn]
proof fn spec_read_list_decreases(s: Seq<char>, i: int) {
    lemma_skip_ws_end_raw(s, i);
}

/// As `lemma_skip_ws_end`, for any starting position.
pub proof fn lemma_skip_ws_end_raw(s: Seq<char>, i: int)
    ensures
        i <= skip_ws_end(s, i),
        i <= s.len() ==> skip_ws_end(s, i) <= s.len(),
    decreases s.len() - i,
{
    if 0 <= i < s.len() && is_space_char(s[i]) {
        lemma_skip_ws_end_raw(s, i + 1);
    }
}

pub proof fn lemma_number_bounds(s: Seq<char>, i: int)
    requires
        0 <= i <= s.len(),
    ensures
        spec_number(s, i) matches Some((_, q)) ==> i < q <= s.len(),
{
    if let Some((ids, j)) = spec_int_part(s, i) {
        lemma_digits_end(s, i);
        assert(i < j <= s.len());
        if let Some((fds, k)) = spec_dec_part(s, j) {
            if j < s.len() && s[j] == '.' {
                lemma_digits_end(s, j + 1);
            }
            assert(j <= k <= s.len());
            if let Some((e, m)) = spec_exp_part(s, k) {
                if k < s.len() && (s[k] == 'e' || s[k] == 'E') {
                    let k2 = if k + 1 < s.len() && (s[k + 1] == '+' || s[k + 1] == '-') {
                        k + 2
                    } else {
                        k + 1
                    };
                    lemma_digits_end(s, k2);
                }
                assert(k <= m <= s.len());
            }
        }
    }
}

/// Reading one form never moves the cursor backwards nor past the end,
/// and reading anything but the end sentinel consumes at least one
/// character beyond the leading whitespace.
pub proof fn lemma_read_progress(s: Seq<char>, i: int)
    requires
        0 <= i <= s.len(),
    ensures
        i <= spec_read(s, i).1 <= s.len(),
        spec_read(s, i).0 matches Ok(f) && f != Form::End ==> spec_read(s, i).1 > skip_ws_end(
            s,
            i,
        ),
    decreases s.len() - i, 2int,
{
    lemma_skip_ws_end(s, i);
    let p = skip_ws_end(s, i);
    if p >= s.len() {
    } else if s[p] == ';' {
        lemma_after_line_end(s, p + 1);
        lemma_read_progress(s, after_line_end(s, p + 1));
    } else if s[p] == '(' {
        lemma_read_list_progress(s, p + 1);
    } else if s[p] == '"' {
        lemma_string_end(s, p + 1);
    } else if s[p] == '-' {
        if p + 1 < s.len() && is_digit_char(s[p + 1]) {
            lemma_number_bounds(s, p + 1);
        } else if p + 1 < s.len() && is_sign_second_char(s[p + 1]) {
            lemma_sym_end(s, p + 2);
        }
    } else if s[p] == '+' {
        if p + 1 < s.len() && is_sign_second_char(s[p + 1]) {
            lemma_sym_end(s, p + 2);
        }
    } else if is_digit_char(s[p]) {
        lemma_number_bounds(s, p);
    } else if is_word_first_char(s[p]) {
        lemma_sym_end(s, p + 1);
    } else if s[p] == ':' {
        if p + 1 < s.len() && is_word_first_char(s[p + 1]) {
            lemma_sym_end(s, p + 2);
        }
    }
}

/// Reading the whole of `s`: one form, after which only the end sentinel
/// may remain.
pub open spec fn spec_parse_one(s: Seq<char>) -> Result<Form, PoseError> {
    let (r, q) = spec_read(s, 0);
    match r {
        Err(e) => Err(e),
        Ok(f) => match spec_read(s, q) {
            (Ok(g), _) => if g == Form::End {
                Ok(f)
            } else {
                Err(PoseError::InvalidEnd)
            },
            (Err(e), _) => Err(e),
        },
    }
}

/// Reading a list body keeps the cursor in bounds, and consumes at least
/// one character when it succeeds.
pub proof fn lemma_read_list_progress(s: Seq<char>, i: int)
    requires
        0 <= i <= s.len(),
    ensures
        i <= spec_read_list(s, i).1 <= s.len(),
        spec_read_list(s, i).0 matches Ok(_) ==> spec_read_list(s, i).1 > i,
    decreases s.len() - i, 3int,
{
    lemma_skip_ws_end(s, i);
    let p = skip_ws_end(s, i);
    if p >= s.len() {
    } else if s[p] == ')' {
    } else {
        lemma_read_progress(s, p);
        let (r, q) = spec_read(s, p);
        match r {
            Ok(f) => {
                if f != Form::End {
                    assert(skip_ws_end(s, p) == p);
                    assert(p < q <= s.len());
                    lemma_read_list_progress(s, q);
                }
            },
            Err(_) => {},
        }
    }
}

// ---------------------------------------------------------------------------
// The reader
// ---------------------------------------------------------------------------

/// A reader over a character sequence, with a cursor owned by the reader.
pub struct Pose {
    src: Vec<char>,
    pos: usize,
}

/// The result of one read: a form, or the grammar violation found.
pub type PoseResult = Result<PoseType, PoseError>;

impl Pose {
    /// The character sequence the reader was given.
    pub closed spec fn input(&self) -> Seq<char> {
        self.src@
    }

    /// The cursor position: everything before it has been consumed.
    pub closed spec fn at(&self) -> int {
        self.pos as int
    }

    /// The cursor never leaves the input.
    pub closed spec fn wf(&self) -> bool {
        self.pos <= self.src@.len()
    }

    /// A fresh reader, at the start of `src`.
    pub fn new(src: Vec<char>) -> (p: Pose)
        ensures
            p.wf(),
            p.input() == src@,
            p.at() == 0,
    {
        Pose { src, pos: 0 }
    }

    fn is_signsym_2nd(ch: &char) -> (r: bool)
        ensures
            r == is_sign_second_char(*ch),
    {
        let u = *ch as u32;
        (97 <= u && u <= 122) || *ch == '!' || *ch == '$' || *ch == '&' || *ch == '*' || *ch == '+'
            || *ch == '-' || *ch == '/' || *ch == '<' || *ch == '=' || *ch == '>' || *ch == '_'
            || *ch == '.' || *ch == '?' || *ch == '@'
    }

    fn is_signsym_cont(ch: &char) -> (r: bool)
        ensures
            r == is_sym_cont_char(*ch),
    {
        let u = *ch as u32;
        Self::is_signsym_2nd(ch) || (48 <= u && u <= 57)
    }

    fn is_wordsym_1st(ch: &char) -> (r: bool)
        ensures
            r == is_word_first_char(*ch),
    {
        let u = *ch as u32;
        (97 <= u && u <= 122) || *ch == '!' || *ch == '$' || *ch == '&' || *ch == '*' || *ch == '+'
            || *ch == '-' || *ch == '/' || *ch == '<' || *ch == '=' || *ch == '>' || *ch == '_'
    }

    fn is_space(ch: &char) -> (r: bool)
        ensures
            r == is_space_char(*ch),
    {
        *ch == ' ' || *ch == '\t' || *ch == '\n' || *ch == '\x0c' || *ch == '\r' || *ch == '\x0b'
    }

    fn is_digit(ch: &char) -> (r: bool)
        ensures
            r == is_digit_char(*ch),
    {
        let u = *ch as u32;
        48 <= u && u <= 57
    }

    fn skip_space(&mut self)
        requires
            old(self).wf(),
        ensures
            final(self).wf(),
            final(self).input() == old(self).input(),
            final(self).at() == skip_ws_end(old(self).input(), old(self).at()),
    {
        let mut go = true;
        while go
            invariant
                self.src@ == old(self).src@,
                old(self).pos <= self.pos <= self.src@.len(),
                skip_ws_end(self.src@, old(self).pos as int) == skip_ws_end(
                    self.src@,
                    self.pos as int,
                ),
                !go ==> self.pos == self.src@.len() || !is_space_char(self.src@[self.pos as int]),
            decreases self.src@.len() - self.pos + (if go { 1int } else { 0int }),
        {
            if self.pos < self.src.len() {
                let c = self.src[self.pos];
                if Self::is_space(&c) {
                    self.pos += 1;
                } else {
                    go = false;
                }
            } else {
                go = false;
            }
        }
    }

    fn read_string(&mut self) -> (r: Option<String>)
        requires
            old(self).wf(),
        ensures
            final(self).wf(),
            final(self).input() == old(self).input(),
            match r {
                Some(t) => {
                    &&& string_end(old(self).input(), old(self).at()) == Some(final(self).at())
                    &&& t@ == string_content(old(self).input(), old(self).at())
                },
                None => string_end(old(self).input(), old(self).at()) is None,
            },
    {
        let ghost s = self.src@;
        let ghost start = self.pos as int;
        let mut buf: Vec<char> = Vec::new();
        loop
            invariant
                s == old(self).src@,
                start == old(self).pos as int,
                self.src@ == s,
                start <= self.pos <= s.len(),
                string_end(s, start) == string_end(s, self.pos as int),
                string_content(s, start) == buf@ + string_content(s, self.pos as int),
            decreases s.len() - self.pos,
        {
            if self.pos >= self.src.len() {
                return None;
            }
            let c = self.src[self.pos];
            let ghost here = self.pos as int;
            self.pos += 1;
            if c == '"' {
                proof {
                    assert(string_content(s, here) =~= Seq::<char>::empty());
                    assert(string_content(s, start) =~= buf@);
                }
                return Some(crate::text::chars_to_string(buf));
            } else if c == '\\' {
                if self.pos >= self.src.len() {
                    return None;
                }
                let e = self.src[self.pos];
                if e == '\\' || e == '"' {
                    self.pos += 1;
                    buf.push(e);
                    proof {
                        assert(string_content(s, start) =~= buf@ + string_content(
                            s,
                            self.pos as int,
                        ));
                    }
                } else {
                    return None;
                }
            } else {
                buf.push(c);
                proof {
                    assert(string_content(s, start) =~= buf@ + string_content(s, self.pos as int));
                }
            }
        }
    }

    fn read_wordsym(&mut self) -> (r: Option<String>)
        requires
            old(self).wf(),
        ensures
            final(self).wf(),
            final(self).input() == old(self).input(),
            match r {
                Some(t) => {
                    &&& old(self).at() < old(self).input().len()
                    &&& is_word_first_char(old(self).input()[old(self).at()])
                    &&& final(self).at() == sym_end(old(self).input(), old(self).at() + 1)
                    &&& t@ == old(self).input().subrange(old(self).at(), final(self).at())
                },
                None => {
                    &&& final(self).at() == old(self).at()
                    &&& !(old(self).at() < old(self).input().len() && is_word_first_char(
                        old(self).input()[old(self).at()],
                    ))
                },
            },
    {
        let ghost s = self.src@;
        let ghost start = self.pos as int;
        if self.pos >= self.src.len() {
            return None;
        }
        let first = self.src[self.pos];
        if !Self::is_wordsym_1st(&first) {
            return None;
        }
        self.pos += 1;
        let mut buf: Vec<char> = Vec::new();
        buf.push(first);
        proof {
            assert(buf@ =~= s.subrange(start, self.pos as int));
        }
        let mut go = true;
        while go
            invariant
                s == old(self).src@,
                start == old(self).pos as int,
                self.src@ == s,
                start < self.pos <= s.len(),
                buf@ == s.subrange(start, self.pos as int),
                sym_end(s, start + 1) == sym_end(s, self.pos as int),
                !go ==> self.pos == s.len() || !is_sym_cont_char(s[self.pos as int]),
            decreases s.len() - self.pos + (if go { 1int } else { 0int }),
        {
            if self.pos < self.src.len() {
                let c = self.src[self.pos];
                if Self::is_signsym_cont(&c) {
                    self.pos += 1;
                    buf.push(c);
                    proof {
                        assert(s.subrange(start, self.pos as int) =~= s.subrange(
                            start,
                            self.pos - 1,
                        ).push(s[self.pos - 1]));
                    }
                } else {
                    go = false;
                }
            } else {
                go = false;
            }
        }
        Some(crate::text::chars_to_string(buf))
    }

    fn read_integer_part(&mut self) -> (r: Option<Vec<u8>>)
        requires
            old(self).wf(),
        ensures
            final(self).wf(),
            final(self).input() == old(self).input(),
            match r {
                Some(ds) => spec_int_part(old(self).input(), old(self).at()) == Some(
                    (ds@, final(self).at()),
                ),
                None => spec_int_part(old(self).input(), old(self).at()) is None,
            },
    {
        let ghost s = self.src@;
        let ghost start = self.pos as int;
        if self.pos >= self.src.len() {
            return None;
        }
        let c = self.src[self.pos];
        if !Self::is_digit(&c) {
            return None;
        }
        self.pos += 1;
        let mut buf: Vec<u8> = Vec::new();
        if c == '0' {
            buf.push(0);
            proof {
                assert(buf@ =~= seq![0u8]);
            }
            return Some(buf);
        }
        buf.push((c as u32 - 48) as u8);
        proof {
            assert(buf@ =~= digit_seq(s, start, self.pos as int));
        }
        let mut go = true;
        while go
            invariant
                s == old(self).src@,
                start == old(self).pos as int,
                self.src@ == s,
                start < self.pos <= s.len(),
                buf@ == digit_seq(s, start, self.pos as int),
                digits_end(s, start) == digits_end(s, self.pos as int),
                !go ==> self.pos == s.len() || !is_digit_char(s[self.pos as int]),
            decreases s.len() - self.pos + (if go { 1int } else { 0int }),
        {
            if self.pos < self.src.len() {
                let c2 = self.src[self.pos];
                if Self::is_digit(&c2) {
                    self.pos += 1;
                    buf.push((c2 as u32 - 48) as u8);
                    proof {
                        assert(buf@ =~= digit_seq(s, start, self.pos as int));
                    }
                } else {
                    go = false;
                }
            } else {
                go = false;
            }
        }
        Some(buf)
    }

    fn read_decimal_part(&mut self) -> (r: Option<Vec<u8>>)
        requires
            old(self).wf(),
        ensures
            final(self).wf(),
            final(self).input() == old(self).input(),
            match r {
                Some(ds) => spec_dec_part(old(self).input(), old(self).at()) == Some(
                    (ds@, final(self).at()),
                ),
                None => spec_dec_part(old(self).input(), old(self).at()) is None,
            },
    {
        let ghost s = self.src@;
        if self.pos >= self.src.len() || self.src[self.pos] != '.' {
            let empty: Vec<u8> = Vec::new();
            proof {
                assert(empty@ =~= Seq::<u8>::empty());
            }
            return Some(empty);
        }
        self.pos += 1;
        let ghost dstart = self.pos as int;
        if self.pos >= self.src.len() {
            return None;
        }
        let c = self.src[self.pos];
        if !Self::is_digit(&c) {
            return None;
        }
        self.pos += 1;
        let mut buf: Vec<u8> = Vec::new();
        buf.push((c as u32 - 48) as u8);
        proof {
            assert(buf@ =~= digit_seq(s, dstart, self.pos as int));
        }
        let mut go = true;
        while go
            invariant
                s == old(self).src@,
                old(self).at() < dstart,
                self.src@ == s,
                dstart < self.pos <= s.len(),
                buf@ == digit_seq(s, dstart, self.pos as int),
                digits_end(s, dstart) == digits_end(s, self.pos as int),
                dstart == old(self).at() + 1,
                s[old(self).at()] == '.',
                is_digit_char(s[dstart]),
                !go ==> self.pos == s.len() || !is_digit_char(s[self.pos as int]),
            decreases s.len() - self.pos + (if go { 1int } else { 0int }),
        {
            if self.pos < self.src.len() {
                let c2 = self.src[self.pos];
                if Self::is_digit(&c2) {
                    self.pos += 1;
                    buf.push((c2 as u32 - 48) as u8);
                    proof {
                        assert(buf@ =~= digit_seq(s, dstart, self.pos as int));
                    }
                } else {
                    go = false;
                }
            } else {
                go = false;
            }
        }
        Some(buf)
    }

    fn read_exp_part(&mut self) -> (r: Option<i64>)
        requires
            old(self).wf(),
        ensures
            final(self).wf(),
            final(self).input() == old(self).input(),
            match r {
                Some(v) => spec_exp_part(old(self).input(), old(self).at()) == Some(
                    (v as int, final(self).at()),
                ),
                None => spec_exp_part(old(self).input(), old(self).at()) is None,
            },
    {
        let ghost s = self.src@;
        if self.pos >= self.src.len() || (self.src[self.pos] != 'e' && self.src[self.pos]
            != 'E') {
            return Some(0);
        }
        self.pos += 1;
        let mut neg = false;
        if self.pos < self.src.len() && (self.src[self.pos] == '+' || self.src[self.pos] == '-') {
            neg = self.src[self.pos] == '-';
            self.pos += 1;
        }
        let ghost dstart = self.pos as int;
        if self.pos >= self.src.len() {
            return None;
        }
        let c = self.src[self.pos];
        if !Self::is_digit(&c) {
            return None;
        }
        self.pos += 1;
        let mut num: i64 = (c as u32 - 48) as i64;
        proof {
            assert(run_val(s, dstart, dstart) == 0);
            assert(run_val(s, dstart, dstart + 1) == digit_of(s[dstart]));
        }
        let mut go = true;
        while go
            invariant
                s == old(self).src@,
                self.src@ == s,
                dstart < self.pos <= s.len(),
                0 <= num,
                num as int == sat64(run_val(s, dstart, self.pos as int)),
                digits_end(s, dstart) == digits_end(s, self.pos as int),
                !go ==> self.pos == s.len() || !is_digit_char(s[self.pos as int]),
            decreases s.len() - self.pos + (if go { 1int } else { 0int }),
        {
            if self.pos < self.src.len() {
                let c2 = self.src[self.pos];
                if Self::is_digit(&c2) {
                    self.pos += 1;
                    let d = (c2 as u32 - 48) as i64;
                    proof {
                        lemma_run_val_nonneg(s, dstart, self.pos - 1);
                        lemma_sat64_step(run_val(s, dstart, self.pos - 1), digit_of(c2) as int);
                    }
                    num = match num.checked_mul(10) {
                        Some(t) => match t.checked_add(d) {
                            Some(v) => v,
                            None => i64::MAX,
                        },
                        None => i64::MAX,
                    };
                } else {
                    go = false;
                }
            } else {
                go = false;
            }
        }
        if neg {
            num = -num;
        }
        Some(num)
    }

    #[verifier::rlimit(60)]
    fn read_number(&mut self) -> (r: Option<PoseNum>)
        requires
            old(self).wf(),
        ensures
            final(self).wf(),
            final(self).input() == old(self).input(),
            match r {
                Some(n) => {
                    &&& n.neg == false
                    &&& n.wf()
                    &&& spec_number(old(self).input(), old(self).at()) == Some(
                        ((n.digits@, n.exp as int), final(self).at()),
                    )
                },
                None => spec_number(old(self).input(), old(self).at()) is None,
            },
    {
        let ghost s = self.src@;
        let ghost start = self.pos as int;
        let ids = match self.read_integer_part() {
            Some(v) => v,
            None => {
                return None;
            },
        };
        let ghost j = self.pos as int;
        let fds = match self.read_decimal_part() {
            Some(v) => v,
            None => {
                return None;
            },
        };
        let ghost k = self.pos as int;
        let fl = fds.len();
        let e = match self.read_exp_part() {
            Some(v) => v,
            None => {
                return None;
            },
        };
        let exp_base: i128 = (e as i128) - (fl as i128);
        let ghost exp0 = e as int - fl as int;
        let mut m = ids;
        let mut tail = fds;
        m.append(&mut tail);
        proof {
            lemma_digits_end(s, start);
            if start < s.len() && s[start] == '0' {
            } else {
                lemma_digit_seq_bounds(s, start, digits_end(s, start));
            }
            if j < s.len() && s[j] == '.' {
                lemma_digits_end(s, j + 1);
                lemma_digit_seq_bounds(s, j + 1, digits_end(s, j + 1));
            }
            assert(forall|i: int| 0 <= i < m@.len() ==> m@[i] <= 9);
        }
        let n = m.len();
        let mut a: usize = 0;
        let mut go = true;
        while go
            invariant
                0 <= a <= m@.len(),
                forall|q: int| 0 <= q < a ==> m@[q] == 0,
                !go ==> a == m@.len() || m@[a as int] != 0,
            decreases m@.len() - a + (if go { 1int } else { 0int }),
        {
            if a < m.len() {
                if m[a] == 0 {
                    a += 1;
                } else {
                    go = false;
                }
            } else {
                go = false;
            }
        }
        let mut b: usize = m.len();
        let mut go2 = true;
        while go2
            invariant
                a <= b <= m@.len(),
                forall|q: int| 0 <= q < a ==> m@[q] == 0,
                a == m@.len() || m@[a as int] != 0,
                forall|q: int| b <= q < m@.len() ==> m@[q] == 0,
                !go2 ==> b == a || m@[b - 1] != 0,
            decreases b + (if go2 { 1int } else { 0int }),
        {
            if b > a {
                if m[b - 1] == 0 {
                    b -= 1;
                } else {
                    go2 = false;
                }
            } else {
                go2 = false;
            }
        }
        if a == b {
            assert(a == m@.len());
            let zero_digits: Vec<u8> = Vec::new();
            proof {
                lemma_strip_lead_skip(m@, a as int);
                assert(m@.skip(a as int) =~= Seq::<u8>::empty());
                lemma_strip_trail_take(Seq::<u8>::empty(), exp0, 0);
                assert(zero_digits@ =~= Seq::<u8>::empty());
            }
            return Some(PoseNum { neg: false, digits: zero_digits, exp: 0 });
        }
        let mut ds: Vec<u8> = Vec::new();
        let mut idx = a;
        while idx < b
            invariant
                a <= idx <= b <= m@.len(),
                ds@ == m@.subrange(a as int, idx as int),
            decreases b - idx,
        {
            ds.push(m[idx]);
            idx += 1;
            proof {
                assert(ds@ =~= m@.subrange(a as int, idx as int));
            }
        }
        let trail = n - b;
        let expv: i128 = exp_base + (trail as i128);
        proof {
            lemma_strip_lead_skip(m@, a as int);
            let sl = m@.skip(a as int);
            assert(sl[b - a - 1] == m@[b - 1]);
            assert forall|q: int| (b - a) <= q < sl.len() implies sl[q] == 0 by {
                assert(sl[q] == m@[q + a]);
            }
            lemma_strip_trail_take(sl, exp0, b - a);
            assert(sl.take(b - a) =~= m@.subrange(a as int, b as int));
        }
        Some(PoseNum { neg: false, digits: ds, exp: expv })
    }

    /// Reads one form, leaving the cursor just after it.  At the end of
    /// the input it returns the `End` sentinel, on every call.  On an
    /// error the cursor position is unspecified.
    pub fn read(&mut self) -> (r: PoseResult)
        requires
            old(self).wf(),
        ensures
            final(self).wf(),
            final(self).input() == old(self).input(),
            match r {
                Ok(v) => spec_read(old(self).input(), old(self).at()) == (
                    Ok::<Form, PoseError>(v@),
                    final(self).at(),
                ),
                Err(e) => spec_read(old(self).input(), old(self).at()).0 == Err::<
                    Form,
                    PoseError,
                >(e),
            },
        decreases old(self).input().len() - old(self).at(),
    {
        let ghost s = self.src@;
        let ghost i0 = self.pos as int;
        self.skip_space();
        let ghost p = self.pos as int;
        proof {
            lemma_skip_ws_end(s, i0);
        }
        if self.pos >= self.src.len() {
            return Ok(PoseType::End);
        }
        let c = self.src[self.pos];
        if c == ';' {
            self.pos += 1;
            let mut done = false;
            while !done && self.pos < self.src.len()
                invariant
                    s == old(self).src@,
                    i0 == old(self).pos as int,
                    0 <= i0 <= s.len(),
                    p == skip_ws_end(s, i0),
                    i0 <= p < s.len(),
                    s[p] == ';',
                    self.src@ == s,
                    p + 1 <= self.pos <= s.len(),
                    !done ==> after_line_end(s, p + 1) == after_line_end(s, self.pos as int),
                    done ==> after_line_end(s, p + 1) == self.pos as int,
                decreases s.len() - self.pos + (if done { 0int } else { 1int }),
            {
                let ch = self.src[self.pos];
                self.pos += 1;
                if ch == '\r' || ch == '\n' {
                    done = true;
                }
            }
            return self.read();
        }
        if c == '(' {
            self.pos += 1;
            let mut items: Vec<PoseType> = Vec::new();
            loop
                invariant
                    s == old(self).src@,
                    i0 == old(self).pos as int,
                    0 <= i0 <= s.len(),
                    p == skip_ws_end(s, i0),
                    i0 <= p < s.len(),
                    s[p] == '(',
                    self.src@ == s,
                    p + 1 <= self.pos <= s.len(),
                    ({
                        let (r0, q0) = spec_read_list(s, p + 1);
                        let (r1, q1) = spec_read_list(s, self.pos as int);
                        match r1 {
                            Ok(rest) => r0 == Ok::<Seq<Form>, PoseError>(
                                crate::types::forms_of(items@) + rest,
                            ) && q0 == q1,
                            Err(e) => r0 == Err::<Seq<Form>, PoseError>(e),
                        }
                    }),
                decreases s.len() - self.pos,
            {
                let ghost cur = self.pos as int;
                self.skip_space();
                let ghost pe = self.pos as int;
                proof {
                    lemma_skip_ws_end(s, cur);
                }
                if self.pos < self.src.len() && self.src[self.pos] == ')' {
                    self.pos += 1;
                    proof {
                        assert(crate::types::forms_of(items@) + Seq::<Form>::empty()
                            =~= crate::types::forms_of(items@));
                    }
                    return Ok(PoseType::List(items));
                }
                let item = match self.read() {
                    Ok(v) => v,
                    Err(e) => {
                        return Err(e);
                    },
                };
                if let PoseType::End = item {
                    return Err(PoseError::NothingClosingParenthesis);
                }
                proof {
                    lemma_read_progress(s, pe);
                    assert(skip_ws_end(s, pe) == pe);
                }
                let ghost q = self.pos as int;
                let ghost prev = items@;
                items.push(item);
                proof {
                    crate::types::lemma_forms_of_push(prev, item);
                    let (r1, q1) = spec_read_list(s, q);
                    if let Ok(rest) = r1 {
                        assert(crate::types::forms_of(prev) + (seq![
                            crate::types::form_of(item),
                        ] + rest) =~= crate::types::forms_of(prev.push(item)) + rest);
                    }
                }
            }
        }
        if c == '"' {
            self.pos += 1;
            return match self.read_string() {
                Some(t) => Ok(PoseType::String(t)),
                None => Err(PoseError::InvalidString),
            };
        }
        if c == '-' {
            self.pos += 1;
            if self.pos < self.src.len() {
                let nc = self.src[self.pos];
                if Self::is_digit(&nc) {
                    return match self.read_number() {
                        Some(nv) => Ok(
                            PoseType::Number(
                                PoseNum { neg: true, digits: nv.digits, exp: nv.exp },
                            ),
                        ),
                        None => Err(PoseError::InvalidNumber),
                    };
                }
                if Self::is_signsym_2nd(&nc) {
                    self.pos += 1;
                    let t = self.read_signsym_tail('-', nc);
                    return Ok(PoseType::Symbol(t));
                }
            }
            let mut buf: Vec<char> = Vec::new();
            buf.push('-');
            proof {
                assert(buf@ =~= seq!['-']);
            }
            return Ok(PoseType::Symbol(crate::text::chars_to_string(buf)));
        }
        if c == '+' {
            self.pos += 1;
            if self.pos < self.src.len() {
                let nc = self.src[self.pos];
                if Self::is_signsym_2nd(&nc) {
                    self.pos += 1;
                    let t = self.read_signsym_tail('+', nc);
                    return Ok(PoseType::Symbol(t));
                }
            }
            let mut buf: Vec<char> = Vec::new();
            buf.push('+');
            proof {
                assert(buf@ =~= seq!['+']);
            }
            return Ok(PoseType::Symbol(crate::text::chars_to_string(buf)));
        }
        if Self::is_digit(&c) {
            return match self.read_number() {
                Some(nv) => Ok(PoseType::Number(nv)),
                None => Err(PoseError::InvalidNumber),
            };
        }
        if Self::is_wordsym_1st(&c) {
            return match self.read_wordsym() {
                Some(t) => Ok(PoseType::Symbol(t)),
                None => Err(PoseError::InvalidSymbol),
            };
        }
        if c == ':' {
            self.pos += 1;
            return match self.read_wordsym() {
                Some(t) => {
                    let mut buf: Vec<char> = Vec::new();
                    buf.push(':');
                    proof {
                        assert(buf@ =~= seq![':']);
                    }
                    let mut out = crate::text::chars_to_string(buf);
                    out.append(t.as_str());
                    Ok(PoseType::Symbol(out))
                },
                None => Err(PoseError::InvalidSymbol),
            };
        }
        Err(PoseError::InvalidFirstLetter)
    }

    /// The rest of a symbol begun by a sign character and one more
    /// character, both already consumed.
    fn read_signsym_tail(&mut self, sign: char, second: char) -> (t: String)
        requires
            old(self).wf(),
            old(self).at() >= 2,
            old(self).input().len() >= old(self).at(),
            old(self).input()[old(self).at() - 2] == sign,
            old(self).input()[old(self).at() - 1] == second,
        ensures
            final(self).wf(),
            final(self).input() == old(self).input(),
            final(self).at() == sym_end(old(self).input(), old(self).at()),
            t@ == seq![sign] + old(self).input().subrange(
                old(self).at() - 1,
                final(self).at(),
            ),
    {
        let ghost s = self.src@;
        let ghost start = self.pos as int;
        let mut buf: Vec<char> = Vec::new();
        buf.push(sign);
        buf.push(second);
        proof {
            assert(buf@ =~= seq![sign] + s.subrange(start - 1, start));
        }
        let mut go = true;
        while go
            invariant
                s == old(self).src@,
                start == old(self).pos as int,
                2 <= start <= self.pos <= s.len(),
                self.src@ == s,
                s[start - 1] == second,
                buf@ == seq![sign] + s.subrange(start - 1, self.pos as int),
                sym_end(s, start) == sym_end(s, self.pos as int),
                !go ==> self.pos == s.len() || !is_sym_cont_char(s[self.pos as int]),
            decreases s.len() - self.pos + (if go { 1int } else { 0int }),
        {
            if self.pos < self.src.len() {
                let c = self.src[self.pos];
                if Self::is_signsym_cont(&c) {
                    self.pos += 1;
                    buf.push(c);
                    proof {
                        assert(buf@ =~= seq![sign] + s.subrange(start - 1, self.pos as int));
                    }
                } else {
                    go = false;
                }
            } else {
                go = false;
            }
        }
        crate::text::chars_to_string(buf)
    }

    /// Reads the next form as one step of an iteration: the end sentinel
    /// becomes `None`, any other result `Some`.
    pub fn next(&mut self) -> (r: Option<PoseResult>)
        requires
            old(self).wf(),
        ensures
            final(self).wf(),
            final(self).input() == old(self).input(),
            match r {
                None => spec_read(old(self).input(), old(self).at()) == (
                    Ok::<Form, PoseError>(Form::End),
                    final(self).at(),
                ),
                Some(Ok(v)) => spec_read(old(self).input(), old(self).at()) == (
                    Ok::<Form, PoseError>(v@),
                    final(self).at(),
                ) && v@ != Form::End,
                Some(Err(e)) => spec_read(old(self).input(), old(self).at()).0 == Err::<
                    Form,
                    PoseError,
                >(e),
            },
    {
        match self.read() {
            Ok(PoseType::End) => None,
            Ok(v) => Some(Ok(v)),
            Err(e) => Some(Err(e)),
        }
    }
}

/// The digits of a digit run are digit values.
pub proof fn lemma_digit_seq_bounds(s: Seq<char>, i: int, j: int)
    requires
        0 <= i <= j <= s.len(),
        forall|k: int| i <= k < j ==> is_digit_char(s[k]),
    ensures
        forall|k: int| 0 <= k < j - i ==> digit_seq(s, i, j)[k] <= 9,
{
    assert forall|k: int| 0 <= k < j - i implies digit_seq(s, i, j)[k] <= 9 by {
        assert(is_digit_char(s[i + k]));
    }
}

/// Stripping leading zeros takes the suffix after them.
pub proof fn lemma_strip_lead_skip(ds: Seq<u8>, k: int)
    requires
        0 <= k <= ds.len(),
        forall|j: int| 0 <= j < k ==> ds[j] == 0,
        k < ds.len() ==> ds[k] != 0,
    ensures
        strip_lead(ds) == ds.skip(k),
    decreases k,
{
    if k == 0 {
        assert(ds.skip(0) =~= ds);
    } else {
        assert(ds[0] == 0);
        lemma_strip_lead_skip(ds.drop_first(), k - 1);
        assert(ds.drop_first().skip(k - 1) =~= ds.skip(k));
    }
}

/// Stripping trailing zeros takes the prefix before them and raises the
/// exponent by their count.
pub proof fn lemma_strip_trail_take(ds: Seq<u8>, exp: int, b: int)
    requires
        0 <= b <= ds.len(),
        forall|j: int| b <= j < ds.len() ==> ds[j] == 0,
        b > 0 ==> ds[b - 1] != 0,
    ensures
        strip_trail(ds, exp) == if b == 0 {
            (Seq::<u8>::empty(), 0int)
        } else {
            (ds.take(b), exp + ds.len() - b)
        },
    decreases ds.len(),
{
    if ds.len() == 0 {
        assert(ds =~= Seq::<u8>::empty());
    } else if ds.last() == 0 {
        assert(b < ds.len());
        lemma_strip_trail_take(ds.drop_last(), exp + 1, b);
        if b > 0 {
            assert(ds.drop_last().take(b) =~= ds.take(b));
        }
    } else {
        assert(b == ds.len());
        assert(ds.take(b) =~= ds);
    }
}

/// A digit run denotes a nonnegative value.
pub proof fn lemma_run_val_nonneg(s: Seq<char>, i: int, j: int)
    ensures
        0 <= run_val(s, i, j),
    decreases j - i,
{
    if j > i {
        lemma_run_val_nonneg(s, i, j - 1);
    }
}

/// Saturated accumulation steps agree with saturating the exact value.
proof fn lemma_sat64_step(v: int, d: int)
    requires
        0 <= v,
        0 <= d <= 9,
    ensures
        sat64(sat64(v) * 10 + d) == sat64(v * 10 + d),
{
}

/// Parses exactly one form from `text`, after which only the end
/// sentinel may remain; trailing content is `InvalidEnd`.
pub fn parse_one(text: &str) -> (r: Result<PoseType, PoseError>)
    ensures
        match r {
            Ok(v) => spec_parse_one(text@) == Ok::<Form, PoseError>(v@),
            Err(e) => spec_parse_one(text@) == Err::<Form, PoseError>(e),
        },
{
    let chars = crate::text::str_chars(text);
    let mut parser = Pose::new(chars);
    let first = parser.read();
    match first {
        Err(e) => Err(e),
        Ok(v) => {
            let second = parser.read();
            match second {
                Err(e) => Err(e),
                Ok(PoseType::End) => Ok(v),
                Ok(_) => Err(PoseError::InvalidEnd),
            }
        },
    }
}

} // verus!
