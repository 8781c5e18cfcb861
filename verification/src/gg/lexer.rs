//! The position-tracked lexer.
//!
//! `next` classifies characters into tokens (names, numbers, single-character
//! punctuation, a repeatable synthetic `End`), skipping `*`-to-end-of-line
//! comments and runs of ASCII whitespace, and reports an unrecognized
//! character as a located error. `push_next` pushes one token back so the
//! next call returns it unread.
//!
//! The whole behaviour is captured by the spec functions `sp_scan` and
//! `sp_next` over `LexerModel`, the view of a `Lexer`.

use unicode_categories::UnicodeCategories;
use vstd::prelude::*;
use vstd::string::StringExecFns;

verus! {

// ---------------------------------------------------------------------------
// Character classes
// ---------------------------------------------------------------------------

/// Whether `c` is a Unicode letter.
pub uninterp spec fn unicode_letter(c: char) -> bool;

/// Whether `c` is a Unicode number character.
pub uninterp spec fn unicode_number(c: char) -> bool;

/// Whether `c` is a Unicode mark character.
pub uninterp spec fn unicode_mark(c: char) -> bool;

/// Whether `c` is a Unicode punctuation character.
pub uninterp spec fn unicode_punctuation(c: char) -> bool;

/// Whether `c` is a Unicode symbol character.
pub uninterp spec fn unicode_symbol(c: char) -> bool;

/// Relies on unicode_categories' `UnicodeCategories::is_letter` for `char`:
/// whether the character is in a Unicode letter category, a function of the
/// character alone.
#[verifier::external_body]
fn char_is_letter(c: char) -> (r: bool)
    ensures
        r == unicode_letter(c),
{
    c.is_letter()
}

/// Relies on unicode_categories' `UnicodeCategories::is_number` for `char`:
/// whether the character is in a Unicode number category, a function of the
/// character alone.
#[verifier::external_body]
fn char_is_number(c: char) -> (r: bool)
    ensures
        r == unicode_number(c),
{
    c.is_number()
}

/// Relies on unicode_categories' `UnicodeCategories::is_mark` for `char`:
/// whether the character is in a Unicode mark category, a function of the
/// character alone.
#[verifier::external_body]
fn char_is_mark(c: char) -> (r: bool)
    ensures
        r == unicode_mark(c),
{
    c.is_mark()
}

/// Relies on unicode_categories' `UnicodeCategories::is_punctuation` for
/// `char`: whether the character is in a Unicode punctuation category, a
/// function of the character alone.
#[verifier::external_body]
fn char_is_punctuation(c: char) -> (r: bool)
    ensures
        r == unicode_punctuation(c),
{
    c.is_punctuation()
}

/// Relies on unicode_categories' `UnicodeCategories::is_symbol` for `char`:
/// whether the character is in a Unicode symbol category, a function of the
/// character alone.
#[verifier::external_body]
fn char_is_symbol(c: char) -> (r: bool)
    ensures
        r == unicode_symbol(c),
{
    c.is_symbol()
}

/// Relies on `String`'s `FromIterator` implementation (via `collect`): the
/// string holding exactly the given characters.
#[verifier::external_body]
pub(crate) fn chars_to_string(v: &Vec<char>) -> (s: String)
    ensures
        s@ == v@,
{
    v.iter().collect()
}

/// The `Debug` rendering of a character.
pub uninterp spec fn char_debug(c: char) -> Seq<char>;

/// Relies on core's `Debug` formatting for `char` (via `format!`): the
/// rendering depends on the character alone.
#[verifier::external_body]
fn debug_char(c: char) -> (r: String)
    ensures
        r@ == char_debug(c),
{
    format!("{:#?}", c)
}

/// The `Debug` rendering of a string.
pub uninterp spec fn string_debug(s: Seq<char>) -> Seq<char>;

/// Relies on core's `Debug` formatting for `String` (via `format!`): the
/// rendering depends on the characters alone.
#[verifier::external_body]
fn debug_string(s: &String) -> (r: String)
    ensures
        r@ == string_debug(s@),
{
    format!("{:#?}", s)
}

/// The character for one decimal digit.
pub open spec fn dec_digit(n: int) -> char {
    if n == 0 {
        '0'
    } else if n == 1 {
        '1'
    } else if n == 2 {
        '2'
    } else if n == 3 {
        '3'
    } else if n == 4 {
        '4'
    } else if n == 5 {
        '5'
    } else if n == 6 {
        '6'
    } else if n == 7 {
        '7'
    } else if n == 8 {
        '8'
    } else {
        '9'
    }
}

/// The decimal rendering of a non-negative integer, most significant digit
/// first.
pub open spec fn dec_digits(n: int) -> Seq<char>
    decreases n,
{
    if n < 10 {
        seq![dec_digit(if n < 0 { 0int } else { n })]
    } else {
        dec_digits(n / 10).push(dec_digit(n % 10))
    }
}

/// The decimal rendering of a signed integer.
pub open spec fn dec_i64(n: int) -> Seq<char> {
    if n < 0 {
        seq!['-'] + dec_digits(-n)
    } else {
        dec_digits(n)
    }
}

/// Relies on std's `ToString` for `i64`: the decimal rendering of the value,
/// with a leading `-` when negative.
#[verifier::external_body]
fn i64_to_string(n: i64) -> (r: String)
    ensures
        r@ == dec_i64(n as int),
{
    n.to_string()
}

/// Continuation class of a name token: letter, number, mark, or `-`.
pub open spec fn name_cont(c: char) -> bool {
    unicode_letter(c) || unicode_number(c) || unicode_mark(c) || c == '-'
}

/// Character class of a number token: `-` or an ASCII digit.
pub open spec fn number_char(c: char) -> bool {
    c == '-' || ('0' <= c && c <= '9')
}

/// A Unicode punctuation or symbol character.
pub open spec fn punct_char(c: char) -> bool {
    unicode_punctuation(c) || unicode_symbol(c)
}

/// ASCII whitespace: space, tab, line feed, form feed, carriage return.
pub open spec fn ascii_ws(c: char) -> bool {
    c == ' ' || c == '\t' || c == '\n' || c == '\u{000C}' || c == '\r'
}

fn char_name_cont(c: char) -> (r: bool)
    ensures
        r == name_cont(c),
{
    char_is_letter(c) || char_is_number(c) || char_is_mark(c) || c == '-'
}

fn is_number(c: char) -> (r: bool)
    ensures
        r == number_char(c),
{
    c == '-' || ('0' <= c && c <= '9')
}

fn char_ascii_ws(c: char) -> (r: bool)
    ensures
        r == ascii_ws(c),
{
    c == ' ' || c == '\t' || c == '\n' || c == '\u{000C}' || c == '\r'
}

// ---------------------------------------------------------------------------
// Tokens, locations, errors
// ---------------------------------------------------------------------------

/// A zero-based source position; its display form is `"row:col"`.
#[derive(Copy, Clone, Debug, PartialEq, Eq, Structural)]
pub struct Location {
    pub row: i64,
    pub col: i64,
}

impl Location {
    /// The display form `"row:col"`.
    pub fn render(&self) -> (r: String)
        ensures
            r@ == dec_i64(self.row as int) + ":"@ + dec_i64(self.col as int),
    {
        let r = i64_to_string(self.row).concat(":");
        r.concat(i64_to_string(self.col).as_str())
    }
}

/// A lexing failure: an unrecognized character at a location.
#[derive(Debug)]
pub enum Error {
    Tokenizing(String, Location),
}

/// The token kinds; `End` is the synthetic, repeatable end-of-input token.
#[derive(Clone, Debug, PartialEq, Eq, Structural)]
pub enum TokenKind {
    Name,
    Number,
    Punctuation,
    End,
}

/// A token: its kind and its text (empty for `End`).
#[derive(Clone, Debug, PartialEq)]
pub struct Token {
    pub kind: TokenKind,
    pub value: String,
}

/// The model of a token.
#[verifier::ext_equal]
pub struct TokenModel {
    pub kind: TokenKind,
    pub text: Seq<char>,
}

impl View for Token {
    type V = TokenModel;

    open spec fn view(&self) -> TokenModel {
        TokenModel { kind: self.kind, text: self.value@ }
    }
}

/// The rendering of a token inside an error message.
pub open spec fn render_token(t: TokenModel) -> Seq<char> {
    match t.kind {
        TokenKind::Name => string_debug(t.text),
        TokenKind::Number => t.text,
        TokenKind::Punctuation => "'"@ + t.text + "'"@,
        TokenKind::End => "<end>"@,
    }
}

impl Token {
    /// The rendering used inside error messages: a name is shown in its
    /// `Debug` form, a number as its text, punctuation quoted, `End` as
    /// `"<end>"`.
    pub fn render(&self) -> (r: String)
        ensures
            r@ == render_token(self@),
    {
        match self.kind {
            TokenKind::Name => debug_string(&self.value),
            TokenKind::Number => self.value.clone(),
            TokenKind::Punctuation => {
                let r = String::from_str("'").concat(self.value.as_str());
                r.concat("'")
            },
            TokenKind::End => String::from_str("<end>"),
        }
    }
}

/// The message reported for an unrecognized character.
pub open spec fn lex_err_msg(c: char) -> Seq<char> {
    "unexpected character: "@ + char_debug(c)
}

// ---------------------------------------------------------------------------
// The lexer model
// ---------------------------------------------------------------------------

/// The state of a lexer: the input, the position of the next unread
/// character, the current row and column, and the pushback stack.
#[verifier::ext_equal]
pub struct LexerModel {
    pub input: Seq<char>,
    pub pos: int,
    pub row: int,
    pub col: int,
    pub stack: Seq<(TokenModel, (int, int))>,
}

/// The state of a fresh lexer over `input`.
pub open spec fn lexer_init(input: Seq<char>) -> LexerModel {
    LexerModel { input: input, pos: 0, row: 0, col: 0, stack: Seq::empty() }
}

/// Consuming one character: a newline moves to the start of the next row,
/// any other character moves one column right.
pub open spec fn lm_advance(m: LexerModel) -> LexerModel {
    if m.input[m.pos] == '\n' {
        LexerModel { pos: m.pos + 1, row: m.row + 1, col: 0, ..m }
    } else {
        LexerModel { pos: m.pos + 1, col: m.col + 1, ..m }
    }
}

/// One scan outcome: a token with the location of its first character and
/// the state after it, or an unrecognized character with its location.
pub enum LexStep {
    Tok(TokenModel, int, int, LexerModel),
    Fail(char, int, int),
}

/// The longest prefix of name-continuation characters from `m`, and the
/// state after consuming it.
pub open spec fn sp_collect_name(m: LexerModel) -> (Seq<char>, LexerModel)
    decreases m.input.len() - m.pos,
{
    if m.pos < m.input.len() && name_cont(m.input[m.pos]) {
        let r = sp_collect_name(lm_advance(m));
        (seq![m.input[m.pos]] + r.0, r.1)
    } else {
        (Seq::empty(), m)
    }
}

/// The longest prefix of number characters from `m`, and the state after
/// consuming it.
pub open spec fn sp_collect_num(m: LexerModel) -> (Seq<char>, LexerModel)
    decreases m.input.len() - m.pos,
{
    if m.pos < m.input.len() && number_char(m.input[m.pos]) {
        let r = sp_collect_num(lm_advance(m));
        (seq![m.input[m.pos]] + r.0, r.1)
    } else {
        (Seq::empty(), m)
    }
}

/// Scanning for the next token from the source, in priority order: end of
/// input, comment, name, number, punctuation, whitespace, failure.
pub open spec fn sp_scan(m: LexerModel) -> LexStep
    decreases m.input.len() - m.pos, 1int,
{
    if m.pos >= m.input.len() {
        LexStep::Tok(TokenModel { kind: TokenKind::End, text: Seq::empty() }, m.row, m.col, m)
    } else {
        let c = m.input[m.pos];
        if c == '*' {
            sp_comment(lm_advance(m))
        } else if unicode_letter(c) {
            let r = sp_collect_name(m);
            LexStep::Tok(TokenModel { kind: TokenKind::Name, text: r.0 }, m.row, m.col, r.1)
        } else if number_char(c) {
            let r = sp_collect_num(m);
            LexStep::Tok(TokenModel { kind: TokenKind::Number, text: r.0 }, m.row, m.col, r.1)
        } else if punct_char(c) {
            LexStep::Tok(
                TokenModel { kind: TokenKind::Punctuation, text: seq![c] },
                m.row,
                m.col,
                lm_advance(m),
            )
        } else if ascii_ws(c) {
            sp_scan(lm_advance(m))
        } else {
            LexStep::Fail(c, m.row, m.col)
        }
    }
}

/// Scanning inside a comment: everything up to, and excluding, the next
/// newline or the end of input is discarded.
pub open spec fn sp_comment(m: LexerModel) -> LexStep
    decreases m.input.len() - m.pos, 2int,
{
    if m.pos >= m.input.len() || m.input[m.pos] == '\n' {
        sp_scan(m)
    } else {
        sp_comment(lm_advance(m))
    }
}

/// The next token: the top of the pushback stack if any, otherwise the next
/// token scanned from the source. The second component is the state after
/// a successful call.
pub open spec fn sp_next(m: LexerModel) -> (
    Result<(TokenModel, int, int), (char, int, int)>,
    LexerModel,
) {
    if m.stack.len() > 0 {
        let t = m.stack.last();
        (Ok((t.0, t.1.0, t.1.1)), LexerModel { stack: m.stack.drop_last(), ..m })
    } else {
        match sp_scan(m) {
            LexStep::Tok(t, r, c, m2) => (Ok((t, r, c)), m2),
            LexStep::Fail(ch, r, c) => (Err((ch, r, c)), m),
        }
    }
}

// ---------------------------------------------------------------------------
// Termination measure
// ---------------------------------------------------------------------------

/// Weight of a stacked token: an `End` token consumed no characters, so it
/// counts for nothing.
pub open spec fn tok_weight(t: TokenModel) -> nat {
    if t.kind == TokenKind::End {
        0nat
    } else {
        1nat
    }
}

/// Total weight of the pushback stack.
pub open spec fn stack_weight(s: Seq<(TokenModel, (int, int))>) -> nat
    decreases s.len(),
{
    if s.len() == 0 {
        0nat
    } else {
        (stack_weight(s.drop_last()) + tok_weight(s.last().0)) as nat
    }
}

/// The decoder's termination measure: unread characters plus the weight of
/// the pushback stack. A successful `next` never increases it, and strictly
/// decreases it whenever the token returned is not `End`.
pub open spec fn lm_measure(m: LexerModel) -> int {
    (m.input.len() - m.pos) + stack_weight(m.stack)
}

/// A well-formed lexer state: position within bounds, row and column
/// non-negative and bounded by the position.
pub open spec fn lm_wf(m: LexerModel) -> bool {
    &&& 0 <= m.pos <= m.input.len() <= i64::MAX as int
    &&& 0 <= m.row <= m.pos
    &&& 0 <= m.col <= m.pos
}

pub proof fn lemma_stack_weight_bounds(s: Seq<(TokenModel, (int, int))>)
    ensures
        0 <= stack_weight(s) <= s.len(),
    decreases s.len(),
{
    if s.len() > 0 {
        lemma_stack_weight_bounds(s.drop_last());
    }
}

/// Pushing a token onto the stack adds its weight to the stack's.
pub proof fn lemma_stack_weight_push(s: Seq<(TokenModel, (int, int))>, e: (TokenModel, (int, int)))
    ensures
        stack_weight(s.push(e)) == stack_weight(s) + tok_weight(e.0),
{
    assert(s.push(e).drop_last() =~= s);
    assert(s.push(e).last() == e);
}

proof fn lemma_collect_name_bounds(m: LexerModel)
    requires
        0 <= m.pos <= m.input.len(),
    ensures
        ({
            let r = sp_collect_name(m);
            r.1.input == m.input && r.1.stack == m.stack && m.pos <= r.1.pos <= m.input.len()
        }),
    decreases m.input.len() - m.pos,
{
    if m.pos < m.input.len() && name_cont(m.input[m.pos]) {
        lemma_collect_name_bounds(lm_advance(m));
    }
}

proof fn lemma_collect_num_bounds(m: LexerModel)
    requires
        0 <= m.pos <= m.input.len(),
    ensures
        ({
            let r = sp_collect_num(m);
            r.1.input == m.input && r.1.stack == m.stack && m.pos <= r.1.pos <= m.input.len()
        }),
    decreases m.input.len() - m.pos,
{
    if m.pos < m.input.len() && number_char(m.input[m.pos]) {
        lemma_collect_num_bounds(lm_advance(m));
    }
}

proof fn lemma_scan_wf(m: LexerModel)
    requires
        lm_wf(m),
    ensures
        (match sp_scan(m) {
            LexStep::Tok(t, r, c, m2) => {
                &&& lm_wf(m2)
                &&& m2.input == m.input
                &&& m2.stack == m.stack
                &&& m.pos <= m2.pos
                &&& (t.kind != TokenKind::End ==> m.pos < m2.pos)
            },
            LexStep::Fail(ch, r, c) => true,
        }),
    decreases m.input.len() - m.pos, 1int,
{
    if m.pos < m.input.len() {
        let c = m.input[m.pos];
        if c == '*' {
            lemma_comment_wf(lm_advance(m));
        } else if unicode_letter(c) {
            lemma_collect_name_wf(m);
            assert(sp_collect_name(m).1.pos > m.pos);
        } else if number_char(c) {
            lemma_collect_num_wf(m);
            assert(sp_collect_num(m).1.pos > m.pos);
        } else if punct_char(c) {
        } else if ascii_ws(c) {
            lemma_scan_wf(lm_advance(m));
        }
    }
}

proof fn lemma_comment_wf(m: LexerModel)
    requires
        lm_wf(m),
    ensures
        (match sp_comment(m) {
            LexStep::Tok(t, r, c, m2) => {
                &&& lm_wf(m2)
                &&& m2.input == m.input
                &&& m2.stack == m.stack
                &&& m.pos <= m2.pos
            },
            LexStep::Fail(ch, r, c) => true,
        }),
    decreases m.input.len() - m.pos, 2int,
{
    if m.pos >= m.input.len() || m.input[m.pos] == '\n' {
        lemma_scan_wf(m);
    } else {
        lemma_comment_wf(lm_advance(m));
    }
}

proof fn lemma_collect_name_wf(m: LexerModel)
    requires
        lm_wf(m),
    ensures
        ({
            let r = sp_collect_name(m);
            lm_wf(r.1) && r.1.input == m.input && r.1.stack == m.stack && m.pos <= r.1.pos
                <= m.input.len() && (m.pos < m.input.len() && name_cont(m.input[m.pos]) ==> m.pos
                < r.1.pos)
        }),
    decreases m.input.len() - m.pos,
{
    if m.pos < m.input.len() && name_cont(m.input[m.pos]) {
        lemma_collect_name_wf(lm_advance(m));
    }
}

proof fn lemma_collect_num_wf(m: LexerModel)
    requires
        lm_wf(m),
    ensures
        ({
            let r = sp_collect_num(m);
            lm_wf(r.1) && r.1.input == m.input && r.1.stack == m.stack && m.pos <= r.1.pos
                <= m.input.len() && (m.pos < m.input.len() && number_char(m.input[m.pos]) ==> m.pos
                < r.1.pos)
        }),
    decreases m.input.len() - m.pos,
{
    if m.pos < m.input.len() && number_char(m.input[m.pos]) {
        lemma_collect_num_wf(lm_advance(m));
    }
}

/// What one successful `next` step does to the termination measure: it
/// never increases it, and strictly decreases it when the token returned is
/// not `End`.
pub proof fn lemma_sp_next_measure(m: LexerModel)
    requires
        lm_wf(m),
    ensures
        (match sp_next(m).0 {
            Ok((t, _, _)) => {
                let m2 = sp_next(m).1;
                &&& lm_wf(m2)
                &&& m2.input == m.input
                &&& lm_measure(m2) <= lm_measure(m)
                &&& (t.kind != TokenKind::End ==> lm_measure(m2) < lm_measure(m))
            },
            Err(_) => true,
        }),
{
    lemma_stack_weight_bounds(m.stack);
    if m.stack.len() > 0 {
        lemma_stack_weight_bounds(m.stack.drop_last());
        assert(stack_weight(m.stack) == stack_weight(m.stack.drop_last()) + tok_weight(
            m.stack.last().0,
        ));
    } else {
        lemma_scan_wf(m);
    }
}

// ---------------------------------------------------------------------------
// The executable lexer
// ---------------------------------------------------------------------------

/// The lexer: owns the character source, the current position, and the
/// pushback stack.
pub struct Lexer {
    chars: Vec<char>,
    pos: usize,
    next_loc: Location,
    next_stack: Vec<(Token, Location)>,
}

impl View for Lexer {
    type V = LexerModel;

    closed spec fn view(&self) -> LexerModel {
        LexerModel {
            input: self.chars@,
            pos: self.pos as int,
            row: self.next_loc.row as int,
            col: self.next_loc.col as int,
            stack: Seq::new(
                self.next_stack@.len(),
                |i: int|
                    (
                        self.next_stack@[i].0@,
                        (self.next_stack@[i].1.row as int, self.next_stack@[i].1.col as int),
                    ),
            ),
        }
    }
}

impl Lexer {
    /// A fresh lexer over the given characters, positioned at row 0, col 0.
    pub fn new(chars: Vec<char>) -> (l: Lexer)
        requires
            chars@.len() <= i64::MAX as int,
        ensures
            l@ == lexer_init(chars@),
            lm_wf(l@),
    {
        let l = Lexer { chars, pos: 0, next_loc: Location { row: 0, col: 0 }, next_stack: Vec::new() };
        proof {
            assert(l@.stack =~= lexer_init(l.chars@).stack);
            assert(l@ =~= lexer_init(l.chars@));
        }
        l
    }

    /// Consume the character under the cursor, updating row and column.
    fn discard(&mut self)
        requires
            lm_wf(old(self)@),
            old(self)@.pos < old(self)@.input.len(),
        ensures
            final(self)@ == lm_advance(old(self)@),
            lm_wf(final(self)@),
    {
        proof {
            assert(self.chars.len() == self.chars@.len());
            assert(self.pos < self.chars@.len());
        }
        let c = self.chars[self.pos];
        if c == '\n' {
            self.next_loc = Location { row: self.next_loc.row + 1, col: 0 };
        } else {
            self.next_loc = Location { row: self.next_loc.row, col: self.next_loc.col + 1 };
        }
        self.pos = self.pos + 1;
        proof {
            assert(self@.stack =~= lm_advance(old(self)@).stack);
            assert(self@ =~= lm_advance(old(self)@));
        }
    }

    /// Peek at the character under the cursor; the flag says whether one
    /// exists.
    fn peek_a_bool(&self) -> (r: (char, bool))
        ensures
            r.1 == (self@.pos < self@.input.len()),
            r.1 ==> r.0 == self@.input[self@.pos],
    {
        if self.pos < self.chars.len() {
            (self.chars[self.pos], true)
        } else {
            ('0', false)
        }
    }

    /// Collect a name or number token: the run of characters in the token's
    /// continuation class, starting at the cursor.
    fn collect_token(&mut self, kind: TokenKind, name_mode: bool) -> (r: (Token, Location))
        requires
            lm_wf(old(self)@),
        ensures
            ({
                let col = if name_mode {
                    sp_collect_name(old(self)@)
                } else {
                    sp_collect_num(old(self)@)
                };
                &&& final(self)@ == col.1
                &&& r.0@ =~= (TokenModel { kind: kind, text: col.0 })
                &&& r.1.row as int == old(self)@.row
                &&& r.1.col as int == old(self)@.col
            }),
    {
        let loc = self.next_loc;
        let mut buf: Vec<char> = Vec::new();
        loop
            invariant
                lm_wf(self@),
                ({
                    let col0 = if name_mode {
                        sp_collect_name(old(self)@)
                    } else {
                        sp_collect_num(old(self)@)
                    };
                    let col = if name_mode {
                        sp_collect_name(self@)
                    } else {
                        sp_collect_num(self@)
                    };
                    col0.0 == buf@ + col.0 && col0.1 == col.1
                }),
            ensures
                ({
                    let col0 = if name_mode {
                        sp_collect_name(old(self)@)
                    } else {
                        sp_collect_num(old(self)@)
                    };
                    col0.0 == buf@ && col0.1 == self@
                }),
            decreases self@.input.len() - self@.pos,
        {
            let (c, ok) = self.peek_a_bool();
            let cont = ok && (if name_mode {
                char_name_cont(c)
            } else {
                is_number(c)
            });
            if !cont {
                proof {
                    let col0 = if name_mode {
                        sp_collect_name(old(self)@)
                    } else {
                        sp_collect_num(old(self)@)
                    };
                    assert(col0.0 =~= buf@);
                }
                break ;
            }
            buf.push(c);
            self.discard();
        }
        let tok = Token { kind, value: chars_to_string(&buf) };
        (tok, loc)
    }

    /// Push one token back; the next `next` call returns it unread.
    pub fn push_next(&mut self, token: Token, loc: Location)
        requires
            lm_wf(old(self)@),
        ensures
            lm_wf(final(self)@),
            final(self)@ == (LexerModel {
                stack: old(self)@.stack.push((token@, (loc.row as int, loc.col as int))),
                ..old(self)@
            }),
    {
        self.next_stack.push((token, loc));
        proof {
            let target = LexerModel {
                stack: old(self)@.stack.push((token@, (loc.row as int, loc.col as int))),
                ..old(self)@
            };
            assert(self@.stack =~= target.stack);
            assert(self@ =~= target);
        }
    }

    /// The next token and the location of its first character, or a located
    /// error on an unrecognized character. Behaves as `sp_next` on the
    /// lexer's model.
    pub fn next(&mut self) -> (r: Result<(Token, Location), Error>)
        requires
            lm_wf(old(self)@),
        ensures
            (match (r, sp_next(old(self)@).0) {
                (Ok((tok, loc)), Ok((tm, rr, cc))) => {
                    &&& final(self)@ == sp_next(old(self)@).1
                    &&& tok@ == tm
                    &&& loc.row as int == rr
                    &&& loc.col as int == cc
                },
                (Err(Error::Tokenizing(msg, loc)), Err((ch, rr, cc))) => {
                    &&& msg@ == lex_err_msg(ch)
                    &&& loc.row as int == rr
                    &&& loc.col as int == cc
                },
                _ => false,
            }),
    {
        if let Some(r) = self.next_stack.pop() {
            proof {
                let m = old(self)@;
                assert(m.stack.len() > 0);
                assert(m.stack.last() == (r.0@, (r.1.row as int, r.1.col as int)));
                assert(self@.stack =~= m.stack.drop_last());
                assert(self@ =~= sp_next(m).1);
            }
            return Ok(r);
        }
        proof {
            assert(old(self)@.stack.len() == 0);
            assert(self@.stack =~= old(self)@.stack);
            assert(self@ =~= old(self)@);
        }
        loop
            invariant
                lm_wf(self@),
                old(self)@.stack.len() == 0,
                self@.stack == old(self)@.stack,
                self@.input == old(self)@.input,
                sp_scan(self@) == sp_scan(old(self)@),
            decreases self@.input.len() - self@.pos,
        {
            let ghost m_iter = self@;
            let (c, ok) = self.peek_a_bool();
            if !ok {
                let tok = Token { kind: TokenKind::End, value: String::new() };
                let loc = self.next_loc;
                proof {
                    assert(tok@ =~= (TokenModel { kind: TokenKind::End, text: Seq::empty() }));
                }
                return Ok((tok, loc));
            } else if c == '*' {
                self.discard();
                // discard the comment body, up to and excluding the next
                // newline or the end of input
                loop
                    invariant
                        lm_wf(self@),
                        self@.stack == m_iter.stack,
                        self@.input == m_iter.input,
                        self@.pos > m_iter.pos,
                        sp_comment(self@) == sp_scan(m_iter),
                    ensures
                        sp_scan(self@) == sp_scan(m_iter),
                        self@.stack == m_iter.stack,
                        self@.input == m_iter.input,
                        self@.pos > m_iter.pos,
                        lm_wf(self@),
                    decreases self@.input.len() - self@.pos,
                {
                    let (c2, ok2) = self.peek_a_bool();
                    if !ok2 || c2 == '\n' {
                        break ;
                    }
                    self.discard();
                }
            } else if char_is_letter(c) {
                let r = self.collect_token(TokenKind::Name, true);
                return Ok(r);
            } else if is_number(c) {
                let r = self.collect_token(TokenKind::Number, false);
                return Ok(r);
            } else if char_is_punctuation(c) || char_is_symbol(c) {
                let loc = self.next_loc;
                self.discard();
                let mut buf: Vec<char> = Vec::new();
                buf.push(c);
                let tok = Token { kind: TokenKind::Punctuation, value: chars_to_string(&buf) };
                proof {
                    assert(tok@.text =~= seq![c]);
                    assert(tok@ =~= (TokenModel { kind: TokenKind::Punctuation, text: seq![c] }));
                }
                return Ok((tok, loc));
            } else if char_ascii_ws(c) {
                self.discard();
            } else {
                let d = debug_char(c);
                let msg = String::from_str("unexpected character: ").concat(d.as_str());
                let loc = self.next_loc;
                return Err(Error::Tokenizing(msg, loc));
            }
        }
    }
}

} // verus!
