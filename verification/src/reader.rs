use vstd::prelude::*;
use crate::chars::{CharClass, in_class, is_space_char, is_digit_char, is_head_char, is_tail_char};
use crate::chars::{class_contains, is_symbol_head, is_symbol_tail, is_digit, is_whitespace_char};
use crate::numbers::{i64_of_text, parse_int, is_int_text, int_text_val, all_digits, is_float_text};
use crate::text::{byte_off, byte_pos, owned_msg, char_msg, push_char};
use crate::value::{Value, Ratio, FormModel, models_of, floats_ok, floats_ok_seq, lemma_floats_ok_seq_cons};

verus! {

/// A diagnostic for text that cannot be read as a form: the source name, the
/// byte offsets of the offending span, and a message.
#[derive(Debug, PartialEq)]
pub struct ReadError {
    pub name: String,
    pub start: usize,
    pub end: usize,
    pub message: String,
}

pub open spec fn msg_unexpected(c: char) -> Seq<char> {
    "unexpected char '"@ + seq![c] + "'"@
}

pub open spec fn msg_invalid_rational() -> Seq<char> {
    "invalid rational"@
}

pub open spec fn msg_invalid_number() -> Seq<char> {
    "invalid number"@
}

pub open spec fn msg_bad_escape(c: char) -> Seq<char> {
    "invalid string escape `\\"@ + seq![c] + "`"@
}

pub open spec fn msg_unterminated_string() -> Seq<char> {
    "expected closing `\"`, found EOF"@
}

pub open spec fn msg_unterminated_escape() -> Seq<char> {
    "unterminated escape sequence"@
}

pub open spec fn msg_unclosed(open: char) -> Seq<char> {
    "unclosed `"@ + seq![open] + "`"@
}

/// The span and message of one diagnostic, before the source name is attached.
pub struct Diag {
    pub start: usize,
    pub end: usize,
    pub msg: Seq<char>,
}

/// What one read step yields: clean end of input, a form together with the
/// character position after it, or a diagnostic together with the character
/// position the cursor stops at.
pub enum Step {
    End,
    Form(FormModel, int),
    Fail(Diag, int),
}

/// The elements of one list body: the element models and the position after
/// the closing delimiter, or the diagnostic that ended the list.
pub enum Items {
    Elems(Seq<FormModel>, int),
    Abort(Diag, int),
}

/// The three list kinds, told apart only by their delimiter pair.
#[derive(Clone, Copy, PartialEq, Eq, Structural)]
pub enum Delim {
    Paren,
    Bracket,
    Brace,
}

pub open spec fn open_of(d: Delim) -> char {
    match d {
        Delim::Paren => '(',
        Delim::Bracket => '[',
        Delim::Brace => '{',
    }
}

pub open spec fn close_of(d: Delim) -> char {
    match d {
        Delim::Paren => ')',
        Delim::Bracket => ']',
        Delim::Brace => '}',
    }
}

pub open spec fn wrap_list(d: Delim, es: Seq<FormModel>) -> FormModel {
    match d {
        Delim::Paren => FormModel::ListParen(es),
        Delim::Bracket => FormModel::ListBracket(es),
        Delim::Brace => FormModel::ListBrace(es),
    }
}

/// The end of the maximal run of class-`k` characters that starts at `i`.
pub open spec fn run_end(s: Seq<char>, i: int, k: CharClass) -> int
    decreases s.len() - i when 0 <= i <= s.len()
{
    if i < s.len() && in_class(k, s[i]) {
        run_end(s, i + 1, k)
    } else {
        i
    }
}

pub proof fn lemma_run_end(s: Seq<char>, i: int, k: CharClass)
    requires
        0 <= i <= s.len(),
    ensures
        i <= run_end(s, i, k) <= s.len(),
        run_end(s, i, k) < s.len() ==> !in_class(k, s[run_end(s, i, k)]),
        forall|j: int| i <= j < run_end(s, i, k) ==> in_class(k, #[trigger] s[j]),
    decreases s.len() - i,
{
    if i < s.len() && in_class(k, s[i]) {
        lemma_run_end(s, i + 1, k);
    }
}

/// Where the next form can start: after the maximal run of whitespace and
/// line comments that begins at `i`.
pub open spec fn skip_ws_end(s: Seq<char>, i: int) -> int
    decreases s.len() - i when 0 <= i <= s.len() via skip_ws_end_dec
{
    let j = run_end(s, i, CharClass::Space);
    if j < s.len() && s[j] == ';' {
        let k = run_end(s, j, CharClass::NotNewline);
        if k < s.len() {
            skip_ws_end(s, k + 1)
        } else {
            s.len() as int
        }
    } else {
        j
    }
}

#[via_fn]
proof fn skip_ws_end_dec(s: Seq<char>, i: int) {
    lemma_run_end(s, i, CharClass::Space);
    let j = run_end(s, i, CharClass::Space);
    if j < s.len() && s[j] == ';' {
        lemma_run_end(s, j, CharClass::NotNewline);
    }
}

pub proof fn lemma_skip_ws_end(s: Seq<char>, i: int)
    requires
        0 <= i <= s.len(),
    ensures
        i <= skip_ws_end(s, i) <= s.len(),
    decreases s.len() - i,
{
    lemma_run_end(s, i, CharClass::Space);
    let j = run_end(s, i, CharClass::Space);
    if j < s.len() && s[j] == ';' {
        lemma_run_end(s, j, CharClass::NotNewline);
        let k = run_end(s, j, CharClass::NotNewline);
        if k < s.len() {
            lemma_skip_ws_end(s, k + 1);
        }
    }
}

pub open spec fn is_escape_code(c: char) -> bool {
    c == 't' || c == 'r' || c == 'n' || c == '\\' || c == '"'
}

/// The character an escape code stands for.
pub open spec fn escape_char(c: char) -> char {
    if c == 't' {
        '\t'
    } else if c == 'r' {
        '\r'
    } else if c == 'n' {
        '\n'
    } else {
        c
    }
}

/// How a scan of a string literal's body ends.
pub enum StrScan {
    /// The accumulated content and the position after the closing quote.
    Done(Seq<char>, int),
    /// An unknown escape code, at the given character position.
    BadEscape(int),
    /// End of input before the closing quote.
    NoClose,
    /// A backslash, at the given position, as the very last character.
    EofEscape(int),
}

/// Scans a string literal's body from `i` (just after the opening quote).
pub open spec fn string_body(s: Seq<char>, i: int) -> StrScan
    decreases s.len() - i when 0 <= i <= s.len()
{
    if i >= s.len() {
        StrScan::NoClose
    } else if s[i] == '"' {
        StrScan::Done(Seq::empty(), i + 1)
    } else if s[i] == '\\' {
        if i + 1 >= s.len() {
            StrScan::EofEscape(i)
        } else if is_escape_code(s[i + 1]) {
            match string_body(s, i + 2) {
                StrScan::Done(content, e) => StrScan::Done(
                    seq![escape_char(s[i + 1])] + content,
                    e,
                ),
                other => other,
            }
        } else {
            StrScan::BadEscape(i + 1)
        }
    } else {
        match string_body(s, i + 1) {
            StrScan::Done(content, e) => StrScan::Done(seq![s[i]] + content, e),
            other => other,
        }
    }
}

/// What reading a string literal whose opening quote stands at `j` yields.
pub open spec fn string_step(s: Seq<char>, j: int) -> Step {
    match string_body(s, j + 1) {
        StrScan::Done(content, e) => Step::Form(FormModel::Str(content), e),
        StrScan::BadEscape(p) => Step::Fail(
            Diag { start: byte_off(s, p - 1), end: byte_off(s, p + 1), msg: msg_bad_escape(s[p]) },
            p + 1,
        ),
        StrScan::NoClose => Step::Fail(
            Diag {
                start: byte_off(s, j),
                end: byte_off(s, s.len() as int),
                msg: msg_unterminated_string(),
            },
            s.len() as int,
        ),
        StrScan::EofEscape(p) => Step::Fail(
            Diag {
                start: byte_off(s, p),
                end: byte_off(s, s.len() as int),
                msg: msg_unterminated_escape(),
            },
            s.len() as int,
        ),
    }
}

/// What the rest of a number yields, after the leading digit run. `start` is
/// where the literal's span begins (a `-` sign or the first digit) and `dend`
/// is the end of the leading digit run.
pub open spec fn number_step(s: Seq<char>, start: int, dend: int) -> Step {
    if dend < s.len() && s[dend] == '.' {
        let e = run_end(s, dend + 1, CharClass::Digit);
        Step::Form(FormModel::Float(s.subrange(start, e)), e)
    } else if dend < s.len() && s[dend] == '/' {
        let e = run_end(s, dend + 1, CharClass::Digit);
        match (i64_of_text(s.subrange(start, dend)), i64_of_text(s.subrange(dend + 1, e))) {
            (Some(n), Some(d)) => Step::Form(FormModel::Rational(n as int, d as int), e),
            _ => Step::Fail(
                Diag {
                    start: byte_off(s, start),
                    end: byte_off(s, e),
                    msg: msg_invalid_rational(),
                },
                e,
            ),
        }
    } else {
        match i64_of_text(s.subrange(start, dend)) {
            Some(v) => Step::Form(FormModel::Int(v as int), dend),
            None => Step::Fail(
                Diag {
                    start: byte_off(s, start),
                    end: byte_off(s, dend),
                    msg: msg_invalid_number(),
                },
                dend,
            ),
        }
    }
}

/// What a leading `+` or `-` at position `j` yields: a number when a digit
/// follows, a symbol when a symbol character, whitespace, end of input or a
/// closing delimiter follows, and a diagnostic otherwise.
pub open spec fn sign_step(s: Seq<char>, j: int) -> Step {
    if j + 1 < s.len() && is_digit_char(s[j + 1]) {
        let start = if s[j] == '+' {
            j + 1
        } else {
            j
        };
        number_step(s, start, run_end(s, j + 1, CharClass::Digit))
    } else if j + 1 < s.len() && is_tail_char(s[j + 1]) {
        let e = run_end(s, j + 1, CharClass::Tail);
        Step::Form(FormModel::Symbol(Seq::empty(), s.subrange(j, e)), e)
    } else if j + 1 >= s.len() || is_space_char(s[j + 1]) {
        Step::Form(FormModel::Symbol(Seq::empty(), seq![s[j]]), j + 1)
    } else if s[j + 1] == ')' || s[j + 1] == ']' || s[j + 1] == '}' {
        Step::Form(FormModel::Symbol(Seq::empty(), seq![s[j]]), j + 1)
    } else {
        Step::Fail(
            Diag { start: byte_off(s, j), end: byte_off(s, j), msg: msg_unexpected(s[j + 1]) },
            j + 1,
        )
    }
}

/// The diagnostic for a list whose opening delimiter, at `open`, is never
/// closed.
pub open spec fn unclosed_diag(s: Seq<char>, open: int) -> Diag {
    Diag {
        start: byte_off(s, open),
        end: byte_off(s, s.len() as int),
        msg: msg_unclosed(s[open]),
    }
}

/// What one call of `read` yields on source `s` with the cursor at character
/// position `i`.
pub open spec fn next_form(s: Seq<char>, i: int) -> Step
    decreases s.len() - i, 1int when 0 <= i <= s.len() via next_form_dec
{
    let j = skip_ws_end(s, i);
    if j >= s.len() {
        Step::End
    } else {
        let c = s[j];
        if is_digit_char(c) {
            number_step(s, j, run_end(s, j, CharClass::Digit))
        } else if c == '+' || c == '-' {
            sign_step(s, j)
        } else if c == '"' {
            string_step(s, j)
        } else if c == ':' {
            let e = run_end(s, j + 1, CharClass::Tail);
            Step::Form(FormModel::Keyword(Seq::empty(), s.subrange(j + 1, e)), e)
        } else if c == '(' {
            list_step(s, j, Delim::Paren)
        } else if c == '[' {
            list_step(s, j, Delim::Bracket)
        } else if c == '{' {
            list_step(s, j, Delim::Brace)
        } else if is_head_char(c) {
            let e = run_end(s, j + 1, CharClass::Tail);
            Step::Form(FormModel::Symbol(Seq::empty(), s.subrange(j, e)), e)
        } else if c == '/' {
            Step::Form(FormModel::Symbol(Seq::empty(), seq!['/']), j + 1)
        } else {
            Step::Fail(
                Diag { start: byte_off(s, j), end: byte_off(s, j), msg: msg_unexpected(c) },
                j,
            )
        }
    }
}

#[via_fn]
proof fn next_form_dec(s: Seq<char>, i: int) {
    lemma_skip_ws_end(s, i);
}

/// What reading a list body yields: `open` is the opening delimiter's
/// position and `i` the position just after it; elements are read with
/// `next_form` until the matching closer, end of input, or a nested
/// diagnostic.
pub open spec fn list_elems(s: Seq<char>, open: int, i: int, d: Delim) -> Items
    decreases s.len() - i, 2int when 0 <= open < i <= s.len() via list_elems_dec
{
    let k = skip_ws_end(s, i);
    if k >= s.len() {
        Items::Abort(unclosed_diag(s, open), s.len() as int)
    } else if s[k] == close_of(d) {
        Items::Elems(Seq::empty(), k + 1)
    } else {
        match next_form(s, k) {
            Step::End => Items::Abort(unclosed_diag(s, open), s.len() as int),
            Step::Form(f, e) => if k < e <= s.len() {
                match list_elems(s, open, e, d) {
                    Items::Elems(rest, end) => Items::Elems(seq![f] + rest, end),
                    abort => abort,
                }
            } else {
                Items::Abort(unclosed_diag(s, open), s.len() as int)
            },
            Step::Fail(g, p) => Items::Abort(g, p),
        }
    }
}

#[via_fn]
proof fn list_elems_dec(s: Seq<char>, open: int, i: int, d: Delim) {
    lemma_skip_ws_end(s, i);
}

/// What a list whose opening delimiter stands at `j` yields.
pub open spec fn list_step(s: Seq<char>, j: int, d: Delim) -> Step
    decreases s.len() - j, 0int when 0 <= j < s.len()
{
    match list_elems(s, j, j + 1, d) {
        Items::Elems(es, e) => Step::Form(wrap_list(d, es), e),
        Items::Abort(g, p) => Step::Fail(g, p),
    }
}


/// How an executable read result relates to one spec `Step`: a form yields
/// `Ok` of a value with that model, a diagnostic yields `Err` carrying the
/// reader's source name and that span and message, and in both cases the
/// cursor stops at the step's position.
pub open spec fn step_result(
    name: Seq<char>,
    st: Step,
    r: Result<Value, ReadError>,
    endpos: int,
) -> bool {
    match st {
        Step::End => false,
        Step::Form(f, e) => (r matches Ok(v) && v.model() == f) && endpos == e,
        Step::Fail(g, p) => (r matches Err(er) && er.name@ == name && er.start == g.start
            && er.end == g.end && er.message@ == g.msg) && endpos == p,
    }
}

/// A cursor over one named source text. `read` yields one form at a time
/// until the text is exhausted.
pub struct Reader<'a> {
    pub name: &'a str,
    content: &'a str,
    pos: usize,
    nchars: usize,
}

impl<'a> Reader<'a> {
    /// The source text, as its characters.
    pub closed spec fn src(&self) -> Seq<char> {
        self.content@
    }

    /// The cursor, as a character position into `src`.
    pub closed spec fn at(&self) -> int {
        self.pos as int
    }

    /// The source name carried into diagnostics.
    pub closed spec fn src_name(&self) -> Seq<char> {
        self.name@
    }

    pub closed spec fn wf(&self) -> bool {
        self.pos <= self.content@.len() && self.nchars == self.content@.len()
    }

    pub fn new(name: &'a str, content: &'a str) -> (r: Reader<'a>)
        ensures
            r.wf(),
            r.src() == content@,
            r.at() == 0,
            r.src_name() == name@,
    {
        let n = content.unicode_len();
        Reader { name, content, pos: 0, nchars: n }
    }

    pub fn peek(&self) -> (r: Option<char>)
        requires
            self.wf(),
        ensures
            r == (if self.at() < self.src().len() {
                Some(self.src()[self.at()])
            } else {
                None::<char>
            }),
    {
        if self.pos < self.nchars {
            Some(self.content.get_char(self.pos))
        } else {
            None
        }
    }

    /// Consumes the maximal run of class-`k` characters at the cursor and
    /// returns the position after it.
    pub fn advance_while(&mut self, k: CharClass) -> (end: usize)
        requires
            old(self).wf(),
        ensures
            final(self).wf(),
            final(self).src() == old(self).src(),
            final(self).src_name() == old(self).src_name(),
            final(self).at() == run_end(old(self).src(), old(self).at(), k),
            end as int == final(self).at(),
    {
        let ghost orig = *old(self);
        loop
            invariant
                self.wf(),
                self.content == orig.content,
                self.name == orig.name,
                self.nchars == orig.nchars,
                orig.at() <= self.at(),
                run_end(orig.src(), self.at(), k) == run_end(orig.src(), orig.at(), k),
            ensures
                self.wf(),
                self.content == orig.content,
                self.name == orig.name,
                self.nchars == orig.nchars,
                orig.at() <= self.at(),
                self.at() == run_end(orig.src(), orig.at(), k),
            decreases self.nchars - self.pos,
        {
            if self.pos < self.nchars {
                let c = self.content.get_char(self.pos);
                if class_contains(k, c) {
                    self.pos = self.pos + 1;
                } else {
                    proof {
                        assert(run_end(orig.src(), self.at(), k) == self.at());
                    }
                    break;
                }
            } else {
                proof {
                    assert(run_end(orig.src(), self.at(), k) == self.at());
                }
                break;
            }
        }
        self.pos
    }

    /// Skips whitespace and line comments, stopping where the next form (or
    /// the end of input) begins.
    pub fn skip_whitespace(&mut self)
        requires
            old(self).wf(),
        ensures
            final(self).wf(),
            final(self).src() == old(self).src(),
            final(self).src_name() == old(self).src_name(),
            final(self).at() == skip_ws_end(old(self).src(), old(self).at()),
            final(self).at() >= old(self).at(),
    {
        let ghost orig = *old(self);
        loop
            invariant
                self.wf(),
                self.src() == orig.src(),
                self.src_name() == orig.src_name(),
                self.nchars == orig.nchars,
                orig.at() <= self.at(),
                skip_ws_end(orig.src(), self.at()) == skip_ws_end(orig.src(), orig.at()),
            ensures
                self.wf(),
                self.src() == orig.src(),
                self.src_name() == orig.src_name(),
                self.nchars == orig.nchars,
                orig.at() <= self.at(),
                self.at() == skip_ws_end(orig.src(), orig.at()),
            decreases self.nchars - self.pos,
        {
            let ghost s = orig.src();
            let ghost head = self.at();
            self.advance_while(CharClass::Space);
            let ghost j = run_end(s, head, CharClass::Space);
            proof {
                lemma_run_end(s, head, CharClass::Space);
            }
            let at_comment = match self.peek() {
                Some(c) => c == ';',
                None => false,
            };
            if at_comment {
                self.advance_while(CharClass::NotNewline);
                let ghost k = run_end(s, j, CharClass::NotNewline);
                proof {
                    lemma_run_end(s, j, CharClass::NotNewline);
                }
                if self.pos < self.nchars {
                    self.pos = self.pos + 1;
                    proof {
                        assert(skip_ws_end(s, head) == skip_ws_end(s, k + 1));
                    }
                } else {
                    proof {
                        assert(skip_ws_end(s, head) == s.len());
                        assert(skip_ws_end(s, self.at()) == self.at());
                    }
                }
            } else {
                proof {
                    assert(skip_ws_end(s, head) == j);
                }
                break;
            }
        }
    }
}

impl<'a> Reader<'a> {
    /// The same source text and name: what every read step preserves.
    pub open spec fn same_source(&self, o: &Reader<'a>) -> bool {
        self.src() == o.src() && self.src_name() == o.src_name()
    }

    /// Reads the rest of a number literal whose span began at `start` and
    /// whose leading digit run ended at `dend` (the cursor's position).
    fn read_number_rest(&mut self, start: usize, dend: usize) -> (r: Result<Value, ReadError>)
        requires
            old(self).wf(),
            start < dend,
            old(self).at() == dend,
        ensures
            final(self).wf(),
            final(self).same_source(old(self)),
            final(self).at() > start as int,
            step_result(
                old(self).src_name(),
                number_step(old(self).src(), start as int, dend as int),
                r,
                final(self).at(),
            ),
    {
        let ghost s = old(self).src();
        match self.peek() {
            Some('.') => {
                self.pos = self.pos + 1;
                let e = self.advance_while(CharClass::Digit);
                proof {
                    lemma_run_end(s, dend + 1, CharClass::Digit);
                }
                let lit = self.content.substring_char(start, e);
                Ok(Value::Float(lit.to_owned()))
            },
            Some('/') => {
                self.pos = self.pos + 1;
                let e = self.advance_while(CharClass::Digit);
                proof {
                    lemma_run_end(s, dend + 1, CharClass::Digit);
                }
                let numer_txt = self.content.substring_char(start, dend);
                let denom_txt = self.content.substring_char(dend + 1, e);
                let n = parse_int(numer_txt);
                let d = parse_int(denom_txt);
                match (n, d) {
                    (Some(nv), Some(dv)) => Ok(Value::Rational(Ratio::new(nv, dv))),
                    _ => {
                        let bs = byte_pos(self.content, start);
                        let be = byte_pos(self.content, e);
                        Err(ReadError {
                            name: self.name.to_owned(),
                            start: bs,
                            end: be,
                            message: owned_msg("invalid rational"),
                        })
                    },
                }
            },
            _ => {
                let lit = self.content.substring_char(start, dend);
                match parse_int(lit) {
                    Some(v) => Ok(Value::Int(v)),
                    None => {
                        let bs = byte_pos(self.content, start);
                        let be = byte_pos(self.content, dend);
                        Err(ReadError {
                            name: self.name.to_owned(),
                            start: bs,
                            end: be,
                            message: owned_msg("invalid number"),
                        })
                    },
                }
            },
        }
    }

    /// Reads a number literal that begins with a digit at `start`.
    fn read_number(&mut self, start: usize) -> (r: Result<Value, ReadError>)
        requires
            old(self).wf(),
            old(self).at() == start < old(self).src().len(),
            is_digit_char(old(self).src()[start as int]),
        ensures
            final(self).wf(),
            final(self).same_source(old(self)),
            final(self).at() > start as int,
            step_result(
                old(self).src_name(),
                number_step(
                    old(self).src(),
                    start as int,
                    run_end(old(self).src(), start as int, CharClass::Digit),
                ),
                r,
                final(self).at(),
            ),
    {
        let ghost s = old(self).src();
        let end = self.advance_while(CharClass::Digit);
        proof {
            assert(run_end(s, start as int, CharClass::Digit) == run_end(
                s,
                start + 1,
                CharClass::Digit,
            ));
            lemma_run_end(s, start + 1, CharClass::Digit);
        }
        self.read_number_rest(start, end)
    }

    /// Reads a symbol token that begins at `start`.
    fn read_symbol(&mut self, start: usize) -> (r: Result<Value, ReadError>)
        requires
            old(self).wf(),
            old(self).at() == start < old(self).src().len(),
        ensures
            final(self).wf(),
            final(self).same_source(old(self)),
            final(self).at() == run_end(old(self).src(), start + 1, CharClass::Tail),
            final(self).at() > start as int,
            (r matches Ok(v) && v.model() == FormModel::Symbol(
                Seq::empty(),
                old(self).src().subrange(
                    start as int,
                    run_end(old(self).src(), start + 1, CharClass::Tail),
                ),
            )),
    {
        self.pos = self.pos + 1;
        let e = self.advance_while(CharClass::Tail);
        proof {
            lemma_run_end(old(self).src(), start + 1, CharClass::Tail);
        }
        let text = self.content.substring_char(start, e);
        Ok(Value::Symbol(String::new(), text.to_owned()))
    }

    /// Reads a keyword: a `:` at `start`, then a symbol-tail run.
    fn read_keyword(&mut self, start: usize) -> (r: Result<Value, ReadError>)
        requires
            old(self).wf(),
            old(self).at() == start < old(self).src().len(),
        ensures
            final(self).wf(),
            final(self).same_source(old(self)),
            final(self).at() == run_end(old(self).src(), start + 1, CharClass::Tail),
            final(self).at() > start as int,
            (r matches Ok(v) && v.model() == FormModel::Keyword(
                Seq::empty(),
                old(self).src().subrange(
                    start + 1,
                    run_end(old(self).src(), start + 1, CharClass::Tail),
                ),
            )),
    {
        self.pos = self.pos + 1;
        let e = self.advance_while(CharClass::Tail);
        proof {
            lemma_run_end(old(self).src(), start + 1, CharClass::Tail);
        }
        let text = self.content.substring_char(start + 1, e);
        Ok(Value::Keyword(String::new(), text.to_owned()))
    }

    /// Reads what a leading `+` or `-` at `start` begins: a number, a symbol,
    /// or a diagnostic.
    fn read_number_or_symbol(&mut self, start: usize, c: char) -> (r: Result<Value, ReadError>)
        requires
            old(self).wf(),
            old(self).at() == start < old(self).src().len(),
            old(self).src()[start as int] == c,
            c == '+' || c == '-',
        ensures
            final(self).wf(),
            final(self).same_source(old(self)),
            final(self).at() > start as int,
            step_result(
                old(self).src_name(),
                sign_step(old(self).src(), start as int),
                r,
                final(self).at(),
            ),
    {
        let ghost s = old(self).src();
        self.pos = self.pos + 1;
        match self.peek() {
            Some(c2) => {
                if is_digit(c2) {
                    let nstart = if c == '+' {
                        start + 1
                    } else {
                        start
                    };
                    let end = self.advance_while(CharClass::Digit);
                    proof {
                        assert(run_end(s, start + 1, CharClass::Digit) == run_end(
                            s,
                            start + 2,
                            CharClass::Digit,
                        ));
                        lemma_run_end(s, start + 2, CharClass::Digit);
                    }
                    self.read_number_rest(nstart, end)
                } else if is_symbol_tail(c2) {
                    let e = self.advance_while(CharClass::Tail);
                    proof {
                        lemma_run_end(s, start + 1, CharClass::Tail);
                    }
                    let text = self.content.substring_char(start, e);
                    Ok(Value::Symbol(String::new(), text.to_owned()))
                } else if is_whitespace_char(c2) {
                    let text = self.content.substring_char(start, start + 1);
                    proof {
                        assert(s.subrange(start as int, start + 1) =~= seq![s[start as int]]);
                    }
                    Ok(Value::Symbol(String::new(), text.to_owned()))
                } else if c2 == ')' || c2 == ']' || c2 == '}' {
                    let text = self.content.substring_char(start, start + 1);
                    proof {
                        assert(s.subrange(start as int, start + 1) =~= seq![s[start as int]]);
                    }
                    Ok(Value::Symbol(String::new(), text.to_owned()))
                } else {
                    let b = byte_pos(self.content, start);
                    Err(ReadError {
                        name: self.name.to_owned(),
                        start: b,
                        end: b,
                        message: char_msg("unexpected char '", c2, "'"),
                    })
                }
            },
            None => {
                let text = self.content.substring_char(start, start + 1);
                proof {
                    assert(s.subrange(start as int, start + 1) =~= seq![s[start as int]]);
                }
                Ok(Value::Symbol(String::new(), text.to_owned()))
            },
        }
    }
}

impl<'a> Reader<'a> {
    /// Reads a string literal whose opening quote stands at `start`.
    #[verifier::loop_isolation(false)]
    fn read_string(&mut self, start: usize) -> (r: Result<Value, ReadError>)
        requires
            old(self).wf(),
            old(self).at() == start < old(self).src().len(),
            old(self).src()[start as int] == '"',
        ensures
            final(self).wf(),
            final(self).same_source(old(self)),
            final(self).at() > start as int,
            step_result(
                old(self).src_name(),
                string_step(old(self).src(), start as int),
                r,
                final(self).at(),
            ),
    {
        let ghost orig = *old(self);
        let ghost s = orig.src();
        self.pos = self.pos + 1;
        let mut buf = String::new();
        loop
            invariant
                self.wf(),
                self.src() == s,
                self.src_name() == orig.src_name(),
                self.src_name() == orig.src_name(),
                self.nchars == s.len(),
                start < self.at() <= s.len(),
                (match string_body(s, self.at()) {
                    StrScan::Done(c, e) => string_body(s, start + 1) == StrScan::Done(buf@ + c, e),
                    other => string_body(s, start + 1) == other,
                }),
            decreases self.nchars - self.pos,
        {
            let ghost here = self.at();
            if self.pos >= self.nchars {
                let bs = byte_pos(self.content, start);
                let be = byte_pos(self.content, self.nchars);
                return Err(ReadError {
                    name: self.name.to_owned(),
                    start: bs,
                    end: be,
                    message: owned_msg("expected closing `\"`, found EOF"),
                });
            }
            let c = self.content.get_char(self.pos);
            if c == '"' {
                self.pos = self.pos + 1;
                proof {
                    assert(buf@ + Seq::<char>::empty() =~= buf@);
                }
                return Ok(Value::String(buf));
            } else if c == '\\' {
                if self.pos + 1 >= self.nchars {
                    let bs = byte_pos(self.content, self.pos);
                    let be = byte_pos(self.content, self.nchars);
                    self.pos = self.nchars;
                    return Err(ReadError {
                        name: self.name.to_owned(),
                        start: bs,
                        end: be,
                        message: owned_msg("unterminated escape sequence"),
                    });
                }
                let c2 = self.content.get_char(self.pos + 1);
                let mapped: char = if c2 == 't' {
                    '\t'
                } else if c2 == 'r' {
                    '\r'
                } else if c2 == 'n' {
                    '\n'
                } else if c2 == '\\' {
                    '\\'
                } else if c2 == '"' {
                    '"'
                } else {
                    let bs = byte_pos(self.content, self.pos);
                    let be = byte_pos(self.content, self.pos + 2);
                    self.pos = self.pos + 2;
                    return Err(ReadError {
                        name: self.name.to_owned(),
                        start: bs,
                        end: be,
                        message: char_msg("invalid string escape `\\", c2, "`"),
                    });
                };
                let ghost b0 = buf@;
                push_char(&mut buf, mapped);
                self.pos = self.pos + 2;
                proof {
                    assert(is_escape_code(s[here + 1]) && escape_char(s[here + 1]) == mapped);
                    if let StrScan::Done(c3, e3) = string_body(s, self.at()) {
                        assert((b0 + (seq![mapped] + c3)) =~= (buf@ + c3));
                    }
                }
            } else {
                let ghost b0 = buf@;
                push_char(&mut buf, c);
                self.pos = self.pos + 1;
                proof {
                    if let StrScan::Done(c3, e3) = string_body(s, self.at()) {
                        assert((b0 + (seq![c] + c3)) =~= (buf@ + c3));
                    }
                }
            }
        }
    }
}

/// The closing delimiter of a list kind.
pub fn close_char(d: Delim) -> (c: char)
    ensures
        c == close_of(d),
{
    match d {
        Delim::Paren => ')',
        Delim::Bracket => ']',
        Delim::Brace => '}',
    }
}

/// The opening delimiter of a list kind.
pub fn open_char(d: Delim) -> (c: char)
    ensures
        c == open_of(d),
{
    match d {
        Delim::Paren => '(',
        Delim::Bracket => '[',
        Delim::Brace => '{',
    }
}

impl<'a> Reader<'a> {
    /// Reads the next form. Yields `None` at clean end of input, one parsed
    /// form, or a diagnostic; `next_form` on the source at the old cursor
    /// says exactly which, and where the cursor stops. On an unexpected
    /// character the cursor deliberately does not move past it, so a caller
    /// that goes on reading sees the same diagnostic again.
    #[verifier::loop_isolation(false)]
    pub fn read(&mut self) -> (r: Option<Result<Value, ReadError>>)
        requires
            old(self).wf(),
        ensures
            final(self).wf(),
            final(self).same_source(old(self)),
            final(self).at() >= old(self).at(),
            (match next_form(old(self).src(), old(self).at()) {
                Step::End => r is None && final(self).at() == old(self).src().len(),
                Step::Form(f, e) => (r matches Some(Ok(v)) && v.model() == f) && final(self).at()
                    == e && e > old(self).at(),
                Step::Fail(g, p) => (r matches Some(Err(er)) && er.name@ == old(self).src_name()
                    && er.start == g.start && er.end == g.end && er.message@ == g.msg)
                    && final(self).at() == p,
            }),
        decreases self.src().len() - self.at(), 1int,
    {
        let ghost s = old(self).src();
        let ghost i = old(self).at();
        self.skip_whitespace();
        proof {
            lemma_skip_ws_end(s, i);
        }
        let ghost j = self.at();
        match self.peek() {
            None => None,
            Some(c) => {
                let start = self.pos;
                let res: Result<Value, ReadError> = if is_digit(c) {
                    self.read_number(start)
                } else if c == '+' || c == '-' {
                    self.read_number_or_symbol(start, c)
                } else if c == '"' {
                    self.read_string(start)
                } else if c == ':' {
                    self.read_keyword(start)
                } else if c == '(' {
                    self.read_list(start, Delim::Paren)
                } else if c == '[' {
                    self.read_list(start, Delim::Bracket)
                } else if c == '{' {
                    self.read_list(start, Delim::Brace)
                } else if is_symbol_head(c) {
                    self.read_symbol(start)
                } else if c == '/' {
                    self.pos = self.pos + 1;
                    proof {
                        reveal_strlit("/");
                        assert("/"@ =~= seq!['/']);
                    }
                    Ok(Value::Symbol(String::new(), owned_msg("/")))
                } else {
                    let b = byte_pos(self.content, start);
                    Err(ReadError {
                        name: self.name.to_owned(),
                        start: b,
                        end: b,
                        message: char_msg("unexpected char '", c, "'"),
                    })
                };
                Some(res)
            },
        }
    }

    /// Reads a list whose opening delimiter stands at `start`: elements until
    /// the matching closer, a nested diagnostic, or an unclosed-list
    /// diagnostic at end of input.
    #[verifier::loop_isolation(false)]
    fn read_list(&mut self, start: usize, d: Delim) -> (r: Result<Value, ReadError>)
        requires
            old(self).wf(),
            old(self).at() == start < old(self).src().len(),
            old(self).src()[start as int] == open_of(d),
        ensures
            final(self).wf(),
            final(self).same_source(old(self)),
            final(self).at() >= start as int,
            (r is Ok ==> final(self).at() > start as int),
            step_result(
                old(self).src_name(),
                list_step(old(self).src(), start as int, d),
                r,
                final(self).at(),
            ),
        decreases self.src().len() - self.at(), 0int,
    {
        let ghost orig = *old(self);
        let ghost s = old(self).src();
        self.pos = self.pos + 1;
        let close = close_char(d);
        let mut items: Vec<Value> = Vec::new();
        loop
            invariant
                self.wf(),
                self.src() == s,
                self.src_name() == orig.src_name(),
                self.nchars == s.len(),
                start < self.at() <= s.len(),
                (match list_elems(s, start as int, self.at(), d) {
                    Items::Elems(rest, end) => list_elems(s, start as int, start + 1, d)
                        == Items::Elems(models_of(items@) + rest, end),
                    abort => list_elems(s, start as int, start + 1, d) == abort,
                }),
            decreases s.len() - self.at(),
        {
            let ghost here = self.at();
            self.skip_whitespace();
            proof {
                lemma_skip_ws_end(s, here);
            }
            let ghost k = self.at();
            let at_close = match self.peek() {
                Some(c2) => c2 == close,
                None => false,
            };
            if at_close {
                self.pos = self.pos + 1;
                proof {
                    assert(list_elems(s, start as int, here, d) == Items::Elems(
                        Seq::<FormModel>::empty(),
                        k + 1,
                    ));
                    assert(models_of(items@) + Seq::<FormModel>::empty() =~= models_of(items@));
                }
                let v = match d {
                    Delim::Paren => Value::ListParen(items),
                    Delim::Bracket => Value::ListBracket(items),
                    Delim::Brace => Value::ListBrace(items),
                };
                return Ok(v);
            }
            match self.read() {
                None => {
                    let bs = byte_pos(self.content, start);
                    let be = byte_pos(self.content, self.nchars);
                    let oc = open_char(d);
                    return Err(ReadError {
                        name: self.name.to_owned(),
                        start: bs,
                        end: be,
                        message: char_msg("unclosed `", oc, "`"),
                    });
                },
                Some(Ok(v)) => {
                    let ghost q0 = items@;
                    let ghost m0 = models_of(items@);
                    let ghost vm = v.model();
                    items.push(v);
                    proof {
                        assert(items@.drop_last() =~= q0);
                        assert(items@.last() == v);
                        assert(models_of(items@) == m0.push(vm));
                        if let Items::Elems(rest, end) = list_elems(s, start as int, self.at(), d) {
                            assert((m0.push(vm)) + rest =~= m0 + (seq![vm] + rest));
                        }
                    }
                },
                Some(Err(er)) => {
                    return Err(er);
                },
            }
        }
    }
}

/// Law: a well-formed integer text whose value fits in 64 bits, read on its
/// own, yields exactly that integer form, and a further read yields end of
/// stream.
pub proof fn lemma_read_integer_text(s: Seq<char>)
    requires
        is_int_text(s),
        i64::MIN <= int_text_val(s) <= i64::MAX,
    ensures
        next_form(s, 0) == Step::Form(FormModel::Int(int_text_val(s)), s.len() as int),
        next_form(s, s.len() as int) == Step::End,
{
    let n = s.len() as int;
    let signed = s[0] == '+' || s[0] == '-';
    let b: int = if signed {
        1
    } else {
        0
    };
    assert(all_digits(s, b, n));
    assert(is_digit_char(s[b]));
    assert(skip_ws_end(s, 0) == 0);
    lemma_run_end(s, b, CharClass::Digit);
    if run_end(s, b, CharClass::Digit) < n {
        assert(is_digit_char(s[run_end(s, b, CharClass::Digit)]));
        assert(false);
    }
    if signed {
        assert(run_end(s, 1, CharClass::Digit) == n);
        if s[0] == '+' {
            assert(s.subrange(1, n) =~= s.skip(1));
            assert(is_int_text(s.skip(1)));
            assert(int_text_val(s.skip(1)) == int_text_val(s));
            assert(number_step(s, 1, n) == Step::Form(FormModel::Int(int_text_val(s)), n));
        } else {
            assert(s.subrange(0, n) =~= s);
            assert(number_step(s, 0, n) == Step::Form(FormModel::Int(int_text_val(s)), n));
        }
        assert(next_form(s, 0) == sign_step(s, 0));
    } else {
        assert(run_end(s, 0, CharClass::Digit) == run_end(s, 1, CharClass::Digit));
        assert(run_end(s, 0, CharClass::Digit) == n);
        assert(s.subrange(0, n) =~= s);
        assert(number_step(s, 0, n) == Step::Form(FormModel::Int(int_text_val(s)), n));
    }
    assert(skip_ws_end(s, n) == n);
}

proof fn lemma_number_step_floats(s: Seq<char>, start: int, dend: int)
    requires
        0 <= start < dend <= s.len(),
        s[start] == '-' ==> start + 1 < dend,
        all_digits(s, start + (if s[start] == '-' { 1int } else { 0int }), dend),
    ensures
        (number_step(s, start, dend) matches Step::Form(f, e) ==> floats_ok(f)),
{
    let b: int = if s[start] == '-' {
        1
    } else {
        0
    };
    if dend < s.len() && s[dend] == '.' {
        let e = run_end(s, dend + 1, CharClass::Digit);
        lemma_run_end(s, dend + 1, CharClass::Digit);
        let t = s.subrange(start, e);
        let d = dend - start;
        assert(t[0] == s[start]);
        assert(t[d] == '.');
        assert forall|k: int| b <= k < d implies crate::chars::is_digit_char(#[trigger] t[k]) by {
            assert(t[k] == s[start + k]);
        }
        assert forall|k: int| d + 1 <= k < t.len() implies crate::chars::is_digit_char(
            #[trigger] t[k],
        ) by {
            assert(t[k] == s[start + k]);
        }
        assert(all_digits(t, b, d));
        assert(all_digits(t, d + 1, t.len() as int));
        assert(is_float_text(t));
    }
}

/// Law: every `Float` form the reader yields carries a text of the
/// float-literal shape `-? digit+ . digit*`, nested lists included.
pub proof fn lemma_next_form_floats(s: Seq<char>, i: int)
    requires
        0 <= i <= s.len(),
    ensures
        (next_form(s, i) matches Step::Form(f, e) ==> floats_ok(f)),
    decreases s.len() - i, 1int,
{
    lemma_skip_ws_end(s, i);
    let j = skip_ws_end(s, i);
    if j < s.len() {
        let c = s[j];
        if is_digit_char(c) {
            let dend = run_end(s, j, CharClass::Digit);
            assert(run_end(s, j, CharClass::Digit) == run_end(s, j + 1, CharClass::Digit));
            lemma_run_end(s, j + 1, CharClass::Digit);
            lemma_number_step_floats(s, j, dend);
        } else if c == '+' || c == '-' {
            if j + 1 < s.len() && is_digit_char(s[j + 1]) {
                let start = if c == '+' {
                    j + 1
                } else {
                    j
                };
                let dend = run_end(s, j + 1, CharClass::Digit);
                assert(run_end(s, j + 1, CharClass::Digit) == run_end(
                    s,
                    j + 2,
                    CharClass::Digit,
                ));
                lemma_run_end(s, j + 2, CharClass::Digit);
                lemma_number_step_floats(s, start, dend);
            }
        } else if c == '(' {
            lemma_list_elems_floats(s, j, j + 1, Delim::Paren);
        } else if c == '[' {
            lemma_list_elems_floats(s, j, j + 1, Delim::Bracket);
        } else if c == '{' {
            lemma_list_elems_floats(s, j, j + 1, Delim::Brace);
        }
    }
}

proof fn lemma_list_elems_floats(s: Seq<char>, open: int, i: int, d: Delim)
    requires
        0 <= open < i <= s.len(),
    ensures
        (list_elems(s, open, i, d) matches Items::Elems(es, e) ==> floats_ok_seq(es)),
    decreases s.len() - i, 2int,
{
    lemma_skip_ws_end(s, i);
    let k = skip_ws_end(s, i);
    if k < s.len() && s[k] != close_of(d) {
        lemma_next_form_floats(s, k);
        if let Step::Form(f, e) = next_form(s, k) {
            if k < e <= s.len() {
                lemma_list_elems_floats(s, open, e, d);
                if let Items::Elems(rest, end) = list_elems(s, open, e, d) {
                    lemma_floats_ok_seq_cons(f, rest);
                }
            }
        }
    }
}

/// Law: at or past the end of the source, a read yields end of stream; in
/// particular empty input yields no forms and no diagnostic, and end of
/// stream stays end of stream on repeated reads.
pub proof fn lemma_end_of_stream(s: Seq<char>)
    ensures
        next_form(s, s.len() as int) == Step::End,
{
    assert(skip_ws_end(s, s.len() as int) == s.len());
}

} // verus!
