//! The lexer: turns source text into tokens.
//!
//! At each position the longest match of the token patterns is taken; spaces,
//! tabs and form feeds are skipped. A quote that is never closed, and a
//! character that starts no token, are errors that carry their position.
use vstd::prelude::*;
use std::ops::Range;
use crate::text::{is_digit, digits_value, all_digits, digit_of, lemma_digits_step, lemma_digits_nonneg, push_char, string_of_range, string_from_str, chars_of};
use vstd::utf8::{encode_scalar, encode_utf8};
use crate::token::{Keyword, KeywordV, Math, Relational, Side, Token, TokenV};

verus! {

/// A lexical error: its message, line and column (both from 1; the column
/// counts bytes), and its byte range in the input.
#[derive(Debug)]
pub struct LexicalError {
    /// The error message
    pub message: String,
    /// The line of the error token
    pub line: usize,
    /// The column of the error token
    pub column: usize,
    /// The byte range of the error token
    pub span: Range<usize>,
}

/// Classes of characters that tokens are runs of.
#[derive(Clone, Copy)]
pub enum CharClass {
    Blank,
    Newline,
    Alnum,
    Digit,
    NotNewline,
    NotQuote,
    Apostrophe,
}

pub open spec fn is_alpha(c: char) -> bool {
    ('a' <= c && c <= 'z') || ('A' <= c && c <= 'Z')
}

pub open spec fn is_hex(c: char) -> bool {
    is_digit(c) || ('a' <= c && c <= 'f') || ('A' <= c && c <= 'F')
}

pub open spec fn in_class(c: char, k: CharClass) -> bool {
    match k {
        CharClass::Blank => c == ' ' || c == '\t' || c == '\x0C',
        CharClass::Newline => c == '\n',
        CharClass::Alnum => is_alpha(c) || is_digit(c),
        CharClass::Digit => is_digit(c),
        CharClass::NotNewline => c != '\n',
        CharClass::NotQuote => c != '"',
        CharClass::Apostrophe => c == '\'',
    }
}

/// The end of the longest run of characters of class `k` that starts at `i`.
pub open spec fn run_end(s: Seq<char>, i: int, k: CharClass) -> int
    decreases s.len() - i,
{
    if 0 <= i < s.len() && in_class(s[i], k) {
        run_end(s, i + 1, k)
    } else {
        i
    }
}

/// An escape that stands for one character after a backslash.
pub open spec fn is_simple_escape(c: char) -> bool {
    c == '"' || c == '\\' || c == 'b' || c == 'n' || c == 'f' || c == 'r' || c == 't' || c == '/'
}

/// Scanning the body of a string literal from `j`: the end of the literal
/// just after its closing quote, or `None` when the body holds a control
/// character or a bad escape, or has no closing quote.
pub open spec fn string_close(s: Seq<char>, j: int) -> Option<int>
    decreases s.len() - j,
{
    if j < 0 || j >= s.len() {
        None
    } else if s[j] == '"' {
        Some(j + 1)
    } else if s[j] == '\\' {
        if j + 1 < s.len() && is_simple_escape(s[j + 1]) {
            string_close(s, j + 2)
        } else if j + 5 < s.len() && s[j + 1] == 'u' && is_hex(s[j + 2]) && is_hex(s[j + 3])
            && is_hex(s[j + 4]) && is_hex(s[j + 5]) {
            string_close(s, j + 6)
        } else {
            None
        }
    } else if ' ' > s[j] {
        None
    } else {
        string_close(s, j + 1)
    }
}

/// `c` is the ASCII letter `u` in either case (`u` is an upper-case letter).
pub open spec fn ci(c: char, u: char) -> bool {
    c == u || (c as int) == (u as int) + 32
}

/// `w` spells `kw` up to ASCII case.
pub open spec fn word_is(w: Seq<char>, kw: Seq<char>) -> bool {
    w.len() == kw.len() && forall|j: int| 0 <= j < w.len() ==> #[trigger] ci(w[j], kw[j])
}

pub open spec fn spell_let() -> Seq<char> { seq!['L', 'E', 'T'] }
pub open spec fn spell_print() -> Seq<char> { seq!['P', 'R', 'I', 'N', 'T'] }
pub open spec fn spell_input() -> Seq<char> { seq!['I', 'N', 'P', 'U', 'T'] }
pub open spec fn spell_if() -> Seq<char> { seq!['I', 'F'] }
pub open spec fn spell_then() -> Seq<char> { seq!['T', 'H', 'E', 'N'] }
pub open spec fn spell_goto() -> Seq<char> { seq!['G', 'O', 'T', 'O'] }
pub open spec fn spell_end() -> Seq<char> { seq!['E', 'N', 'D'] }
pub open spec fn spell_mod() -> Seq<char> { seq!['M', 'O', 'D'] }

/// The keyword that a word spells, ignoring ASCII case.
pub open spec fn keyword_word(w: Seq<char>) -> Option<KeywordV> {
    if word_is(w, spell_let()) { Some(KeywordV::Let) }
    else if word_is(w, spell_print()) { Some(KeywordV::Print) }
    else if word_is(w, spell_input()) { Some(KeywordV::Input) }
    else if word_is(w, spell_if()) { Some(KeywordV::If) }
    else if word_is(w, spell_then()) { Some(KeywordV::Then) }
    else if word_is(w, spell_goto()) { Some(KeywordV::Goto) }
    else if word_is(w, spell_end()) { Some(KeywordV::End) }
    else { None }
}

/// A remark starts at `i`: `REM` in any case, then a blank.
pub open spec fn rem_at(s: Seq<char>, i: int) -> bool {
    0 <= i && i + 3 < s.len() && ci(s[i], 'R') && ci(s[i + 1], 'E') && ci(s[i + 2], 'M')
        && in_class(s[i + 3], CharClass::Blank)
}

/// Where the text of a remark starts: every leading `"REM "` (exactly so
/// spelled) is dropped.
pub open spec fn rem_text_start(s: Seq<char>, j: int, e: int) -> int
    decreases e - j,
{
    if 0 <= j && j + 4 <= e && e <= s.len() && s[j] == 'R' && s[j + 1] == 'E' && s[j + 2] == 'M'
        && s[j + 3] == ' ' {
        rem_text_start(s, j + 4, e)
    } else {
        j
    }
}

/// What the scanner makes of the text at one position.
pub enum LexemeV {
    /// Blanks, which are skipped.
    Skip,
    Tok(TokenV),
    /// A quote that is not closed.
    Unterminated,
    /// A character that starts no token.
    Invalid,
    /// A run of digits whose value does not fit in `u32`.
    Overflow,
}

/// The lexeme that starts with a letter at `i`, and its end.
pub open spec fn scan_word(s: Seq<char>, i: int) -> (LexemeV, int) {
    if rem_at(s, i) {
        let e = run_end(s, i, CharClass::NotNewline);
        (LexemeV::Tok(TokenV::Keyword(KeywordV::Rem(s.subrange(rem_text_start(s, i, e), e)))), e)
    } else {
        let e = run_end(s, i, CharClass::Alnum);
        let w = s.subrange(i, e);
        match keyword_word(w) {
            Some(k) => (LexemeV::Tok(TokenV::Keyword(k)), e),
            None => if w == spell_mod() {
                (LexemeV::Tok(TokenV::Operator(Math::Modulo)), e)
            } else {
                (LexemeV::Tok(TokenV::Identifier(w)), e)
            },
        }
    }
}

/// The lexeme that starts at `i` (the longest match of the token patterns),
/// and the position just after it.
pub open spec fn scan(s: Seq<char>, i: int) -> (LexemeV, int) {
    let c = s[i];
    if in_class(c, CharClass::Blank) {
        (LexemeV::Skip, run_end(s, i, CharClass::Blank))
    } else if c == '\n' {
        (LexemeV::Tok(TokenV::Newline), run_end(s, i, CharClass::Newline))
    } else if c == '\'' {
        let e = run_end(s, i, CharClass::NotNewline);
        (LexemeV::Tok(TokenV::Comment(s.subrange(run_end(s, i, CharClass::Apostrophe), e))), e)
    } else if c == '"' {
        match string_close(s, i + 1) {
            Some(e) => (LexemeV::Tok(TokenV::String(s.subrange(i, e))), e),
            None => (LexemeV::Unterminated, run_end(s, i + 1, CharClass::NotQuote)),
        }
    } else if is_digit(c) {
        let e = run_end(s, i, CharClass::Digit);
        let v = digits_value(s.subrange(i, e));
        if v <= u32::MAX {
            (LexemeV::Tok(TokenV::Integer(v as u32)), e)
        } else {
            (LexemeV::Overflow, e)
        }
    } else if is_alpha(c) {
        scan_word(s, i)
    } else if c == '+' {
        (LexemeV::Tok(TokenV::Operator(Math::Plus)), i + 1)
    } else if c == '-' {
        (LexemeV::Tok(TokenV::Operator(Math::Minus)), i + 1)
    } else if c == '/' {
        (LexemeV::Tok(TokenV::Operator(Math::Division)), i + 1)
    } else if c == '*' {
        if i + 1 < s.len() && s[i + 1] == '*' {
            (LexemeV::Tok(TokenV::Operator(Math::Power)), i + 2)
        } else {
            (LexemeV::Tok(TokenV::Operator(Math::Times)), i + 1)
        }
    } else if c == '<' {
        if i + 1 < s.len() && s[i + 1] == '=' {
            (LexemeV::Tok(TokenV::Relational(Relational::LtEq)), i + 2)
        } else if i + 1 < s.len() && s[i + 1] == '>' {
            (LexemeV::Tok(TokenV::Relational(Relational::NotEq)), i + 2)
        } else {
            (LexemeV::Tok(TokenV::Relational(Relational::Lt)), i + 1)
        }
    } else if c == '>' {
        if i + 1 < s.len() && s[i + 1] == '=' {
            (LexemeV::Tok(TokenV::Relational(Relational::GtEq)), i + 2)
        } else {
            (LexemeV::Tok(TokenV::Relational(Relational::Gt)), i + 1)
        }
    } else if c == '(' {
        (LexemeV::Tok(TokenV::Paran(Side::Left)), i + 1)
    } else if c == ')' {
        (LexemeV::Tok(TokenV::Paran(Side::Right)), i + 1)
    } else if c == '=' {
        (LexemeV::Tok(TokenV::Equal), i + 1)
    } else {
        (LexemeV::Invalid, i + 1)
    }
}

proof fn lemma_run_end(s: Seq<char>, i: int, k: CharClass)
    requires
        0 <= i <= s.len(),
    ensures
        i <= run_end(s, i, k) <= s.len(),
        i < s.len() && in_class(s[i], k) ==> i < run_end(s, i, k),
        forall|j: int| i <= j < run_end(s, i, k) ==> #[trigger] in_class(s[j], k),
        run_end(s, i, k) < s.len() ==> !in_class(s[run_end(s, i, k)], k),
    decreases s.len() - i,
{
    if i < s.len() && in_class(s[i], k) {
        lemma_run_end(s, i + 1, k);
    }
}

proof fn lemma_string_close(s: Seq<char>, j: int)
    ensures
        string_close(s, j) matches Some(e) ==> 0 <= j < e <= s.len(),
    decreases s.len() - j,
{
    if 0 <= j < s.len() && s[j] != '"' {
        if s[j] == '\\' {
            if j + 1 < s.len() && is_simple_escape(s[j + 1]) {
                lemma_string_close(s, j + 2);
            } else if j + 5 < s.len() {
                lemma_string_close(s, j + 6);
            }
        } else {
            lemma_string_close(s, j + 1);
        }
    }
}

proof fn lemma_rem_text_start(s: Seq<char>, j: int, e: int)
    requires
        0 <= j <= e <= s.len(),
    ensures
        j <= rem_text_start(s, j, e) <= e,
    decreases e - j,
{
    if j + 4 <= e && s[j] == 'R' && s[j + 1] == 'E' && s[j + 2] == 'M' && s[j + 3] == ' ' {
        lemma_rem_text_start(s, j + 4, e);
    }
}

/// Every lexeme consumes at least one character and stays within the input.
pub proof fn lemma_scan_advances(s: Seq<char>, i: int)
    requires
        0 <= i < s.len(),
    ensures
        i < scan(s, i).1 <= s.len(),
{
    lemma_run_end(s, i, CharClass::Blank);
    lemma_run_end(s, i, CharClass::Newline);
    lemma_run_end(s, i, CharClass::NotNewline);
    lemma_run_end(s, i, CharClass::Digit);
    lemma_run_end(s, i, CharClass::Alnum);
    lemma_run_end(s, i + 1, CharClass::NotQuote);
    lemma_string_close(s, i + 1);
}

/// The ASCII upper case of a character, as a number.
pub open spec fn ascii_upper(c: char) -> int {
    if 'a' <= c && c <= 'z' { (c as int) - 32 } else { c as int }
}

proof fn lemma_word_is_upper(w: Seq<char>, kw: Seq<char>)
    requires
        forall|j: int| 0 <= j < kw.len() ==> 'A' <= #[trigger] kw[j] && kw[j] <= 'Z',
    ensures
        word_is(w, kw) == (w.len() == kw.len() && forall|j: int|
            0 <= j < w.len() ==> ascii_upper(#[trigger] w[j]) == kw[j] as int),
{
    if w.len() == kw.len() {
        if word_is(w, kw) {
            assert forall|j: int| 0 <= j < w.len() implies ascii_upper(#[trigger] w[j]) == kw[j] as int by {
                assert(ci(w[j], kw[j]));
                assert('A' <= kw[j] && kw[j] <= 'Z');
            }
        }
        if forall|j: int| 0 <= j < w.len() ==> ascii_upper(#[trigger] w[j]) == kw[j] as int {
            assert forall|j: int| 0 <= j < w.len() implies #[trigger] ci(w[j], kw[j]) by {
                assert(ascii_upper(w[j]) == kw[j] as int);
                assert('A' <= kw[j] && kw[j] <= 'Z');
            }
        }
    }
}

/// Keywords ignore case: two words that differ only in the case of their
/// ASCII letters spell the same keyword, or none.
pub proof fn law_keywords_ignore_case(w1: Seq<char>, w2: Seq<char>)
    requires
        w1.len() == w2.len(),
        forall|j: int| 0 <= j < w1.len() ==> #[trigger] ascii_upper(w1[j]) == ascii_upper(w2[j]),
    ensures
        keyword_word(w1) == keyword_word(w2),
{
    let kws = seq![spell_let(), spell_print(), spell_input(), spell_if(), spell_then(), spell_goto(), spell_end()];
    assert forall|k: int| 0 <= k < kws.len() implies word_is(w1, #[trigger] kws[k]) == word_is(w2, kws[k]) by {
        let kw = kws[k];
        assert(forall|j: int| 0 <= j < kw.len() ==> 'A' <= #[trigger] kw[j] && kw[j] <= 'Z');
        lemma_word_is_upper(w1, kw);
        lemma_word_is_upper(w2, kw);
        if word_is(w1, kw) {
            assert forall|j: int| 0 <= j < w2.len() implies ascii_upper(#[trigger] w2[j]) == kw[j] as int by {
                assert(ascii_upper(w1[j]) == ascii_upper(w2[j]));
            }
        }
        if word_is(w2, kw) {
            assert forall|j: int| 0 <= j < w1.len() implies ascii_upper(#[trigger] w1[j]) == kw[j] as int by {
                assert(ascii_upper(w1[j]) == ascii_upper(w2[j]));
            }
        }
    }
    assert(kws[0] == spell_let());
    assert(kws[1] == spell_print());
    assert(kws[2] == spell_input());
    assert(kws[3] == spell_if());
    assert(kws[4] == spell_then());
    assert(kws[5] == spell_goto());
    assert(kws[6] == spell_end());
}

/// A run of newlines is one newline token: the lexeme at a newline is a
/// newline token, and it ends where the newlines end.
pub proof fn law_newlines_merge(s: Seq<char>, i: int)
    requires
        0 <= i < s.len(),
        s[i] == '\n',
    ensures
        scan(s, i).0 == LexemeV::Tok(TokenV::Newline),
        scan(s, i).1 == s.len() || s[scan(s, i).1] != '\n',
        forall|j: int| i <= j < scan(s, i).1 ==> s[j] == '\n',
{
    lemma_run_end(s, i, CharClass::Newline);
    assert forall|j: int| i <= j < scan(s, i).1 implies s[j] == '\n' by {
        assert(in_class(s[j], CharClass::Newline));
    }
}

/// A letter or digit of ASCII.
pub open spec fn ascii_alnum(c: char) -> bool {
    ('a' <= c && c <= 'z') || ('A' <= c && c <= 'Z') || ('0' <= c && c <= '9')
}

proof fn lemma_run_end_all(s: Seq<char>, i: int, k: CharClass)
    requires
        0 <= i <= s.len(),
        forall|j: int| i <= j < s.len() ==> #[trigger] in_class(s[j], k),
    ensures
        run_end(s, i, k) == s.len(),
    decreases s.len() - i,
{
    if i < s.len() {
        lemma_run_end_all(s, i + 1, k);
    }
}

/// An identifier is the longest run of ASCII letters and digits that starts
/// with a letter: a word made of a letter and then letters and digits, that
/// is no keyword and not `MOD`, is one identifier token, the whole word.
pub proof fn law_identifier_word(w: Seq<char>)
    requires
        w.len() > 0,
        ('a' <= w[0] && w[0] <= 'z') || ('A' <= w[0] && w[0] <= 'Z'),
        forall|j: int| 0 <= j < w.len() ==> #[trigger] ascii_alnum(w[j]),
        keyword_word(w) is None,
        w != spell_mod(),
    ensures
        lex(w) == seq![Lexed { lexeme: LexemeV::Tok(TokenV::Identifier(w)), start: 0, end: w.len() as int }],
{
    assert forall|j: int| 0 <= j < w.len() implies #[trigger] in_class(w[j], CharClass::Alnum) by {
        assert(ascii_alnum(w[j]));
    }
    lemma_run_end_all(w, 0, CharClass::Alnum);
    if w.len() > 3 {
        assert(ascii_alnum(w[3]));
    }
    assert(!rem_at(w, 0));
    assert(w.subrange(0, w.len() as int) =~= w);
    assert(scan(w, 0) == (LexemeV::Tok(TokenV::Identifier(w)), w.len() as int));
    assert(lex_from(w, w.len() as int) =~= Seq::<Lexed>::empty());
    assert(lex(w) =~= seq![Lexed { lexeme: LexemeV::Tok(TokenV::Identifier(w)), start: 0, end: w.len() as int }]);
}

/// A run of decimal digits whose value fits in `u32` is one integer token
/// with that value.
pub proof fn law_integer_digits(w: Seq<char>)
    requires
        w.len() > 0,
        forall|j: int| 0 <= j < w.len() ==> '0' <= #[trigger] w[j] && w[j] <= '9',
        digits_value(w) <= u32::MAX,
    ensures
        lex(w) == seq![Lexed { lexeme: LexemeV::Tok(TokenV::Integer(digits_value(w) as u32)), start: 0, end: w.len() as int }],
{
    assert forall|j: int| 0 <= j < w.len() implies #[trigger] in_class(w[j], CharClass::Digit) by {
        assert('0' <= w[j] && w[j] <= '9');
    }
    lemma_run_end_all(w, 0, CharClass::Digit);
    assert('0' <= w[0] && w[0] <= '9');
    assert(w.subrange(0, w.len() as int) =~= w);
    assert(lex_from(w, w.len() as int) =~= Seq::<Lexed>::empty());
    assert(lex(w) =~= seq![Lexed { lexeme: LexemeV::Tok(TokenV::Integer(digits_value(w) as u32)), start: 0, end: w.len() as int }]);
}

/// One lexeme with its character range.
pub struct Lexed {
    pub lexeme: LexemeV,
    pub start: int,
    pub end: int,
}

/// The lexemes of `s` from position `i` to the end.
pub open spec fn lex_from(s: Seq<char>, i: int) -> Seq<Lexed>
    decreases s.len() - i,
{
    if i < 0 || i >= s.len() {
        Seq::empty()
    } else {
        let (x, e) = scan(s, i);
        proof {
            lemma_scan_advances(s, i);
        }
        seq![Lexed { lexeme: x, start: i, end: e }] + lex_from(s, e)
    }
}

/// The lexemes of the whole input.
pub open spec fn lex(s: Seq<char>) -> Seq<Lexed> {
    lex_from(s, 0)
}

/// No run of digits in the input exceeds `u32::MAX`.
pub open spec fn lex_fits(s: Seq<char>) -> bool {
    forall|k: int| 0 <= k < lex(s).len() ==> !(#[trigger] lex(s)[k].lexeme is Overflow)
}

/// The tokens among the lexemes, in order.
pub open spec fn tokens_of(xs: Seq<Lexed>) -> Seq<TokenV>
    decreases xs.len(),
{
    if xs.len() == 0 {
        Seq::empty()
    } else {
        let pre = tokens_of(xs.drop_last());
        match xs.last().lexeme {
            LexemeV::Tok(t) => pre.push(t),
            _ => pre,
        }
    }
}

/// The errors among the lexemes, in order.
pub open spec fn errors_of(xs: Seq<Lexed>) -> Seq<Lexed>
    decreases xs.len(),
{
    if xs.len() == 0 {
        Seq::empty()
    } else {
        let pre = errors_of(xs.drop_last());
        match xs.last().lexeme {
            LexemeV::Unterminated => pre.push(xs.last()),
            LexemeV::Invalid => pre.push(xs.last()),
            _ => pre,
        }
    }
}

/// The number of bytes of a character in UTF-8.
pub open spec fn utf8_width(c: char) -> int {
    if '\u{80}' > c {
        1
    } else if '\u{800}' > c {
        2
    } else if '\u{10000}' > c {
        3
    } else {
        4
    }
}

/// The number of bytes of a text in UTF-8.
pub open spec fn bytes_len(s: Seq<char>) -> int
    decreases s.len(),
{
    if s.len() == 0 {
        0
    } else {
        bytes_len(s.drop_last()) + utf8_width(s.last())
    }
}

/// The byte offset of character position `i`.
pub open spec fn byte_at(s: Seq<char>, i: int) -> int {
    bytes_len(s.take(i))
}

/// The byte offsets at which lines start: 0, and just after each newline.
pub open spec fn line_starts_of(s: Seq<char>) -> Seq<int>
    decreases s.len(),
{
    if s.len() == 0 {
        seq![0]
    } else {
        let pre = line_starts_of(s.drop_last());
        if s.last() == '\n' {
            pre.push(bytes_len(s))
        } else {
            pre
        }
    }
}

/// `(line, column)` locates byte offset `off` among the line starts
/// `starts`: the line is the last one that starts at or before `off`, and the
/// column counts bytes from 1.
pub open spec fn locates(starts: Seq<int>, off: int, line: int, column: int) -> bool {
    &&& 1 <= line <= starts.len()
    &&& starts[line - 1] <= off
    &&& (line == starts.len() || off < starts[line])
    &&& column == off - starts[line - 1] + 1
}

pub open spec fn msg_unterminated() -> Seq<char> {
    "String literal was not closed (missing \")"@
}

pub open spec fn msg_unexpected(text: Seq<char>) -> Seq<char> {
    "Unexpected character or sequence: '"@ + text + seq!['\'']
}

/// The message of an error lexeme.
pub open spec fn error_message(s: Seq<char>, x: Lexed) -> Seq<char> {
    match x.lexeme {
        LexemeV::Unterminated => msg_unterminated(),
        _ => msg_unexpected(s.subrange(x.start, x.end)),
    }
}

/// `e` reports the error lexeme `x` of input `s`.
pub open spec fn reports(e: LexicalError, s: Seq<char>, x: Lexed) -> bool {
    &&& e.message@ == error_message(s, x)
    &&& e.span.start == byte_at(s, x.start)
    &&& e.span.end == byte_at(s, x.end)
    &&& locates(line_starts_of(s), byte_at(s, x.start), e.line as int, e.column as int)
}


/// What the scanner makes of the text at one position.
enum Lexeme {
    Skip,
    Tok(Token),
    Unterminated,
    Invalid,
    Overflow,
}

impl View for Lexeme {
    type V = LexemeV;

    closed spec fn view(&self) -> LexemeV {
        match self {
            Lexeme::Skip => LexemeV::Skip,
            Lexeme::Tok(t) => LexemeV::Tok(t@),
            Lexeme::Unterminated => LexemeV::Unterminated,
            Lexeme::Invalid => LexemeV::Invalid,
            Lexeme::Overflow => LexemeV::Overflow,
        }
    }
}

fn class_has(c: char, k: CharClass) -> (b: bool)
    ensures
        b == in_class(c, k),
{
    match k {
        CharClass::Blank => c == ' ' || c == '\t' || c == '\x0C',
        CharClass::Newline => c == '\n',
        CharClass::Alnum => ('a' <= c && c <= 'z') || ('A' <= c && c <= 'Z') || ('0' <= c && c <= '9'),
        CharClass::Digit => '0' <= c && c <= '9',
        CharClass::NotNewline => c != '\n',
        CharClass::NotQuote => c != '"',
        CharClass::Apostrophe => c == '\'',
    }
}

fn run_end_exec(s: &Vec<char>, i: usize, k: CharClass) -> (r: usize)
    requires
        i <= s.len(),
    ensures
        r == run_end(s@, i as int, k),
{
    let mut j = i;
    while j < s.len() && class_has(s[j], k)
        invariant
            i <= j <= s.len(),
            run_end(s@, i as int, k) == run_end(s@, j as int, k),
        decreases s.len() - j,
    {
        j = j + 1;
    }
    j
}

fn is_hex_exec(c: char) -> (b: bool)
    ensures
        b == is_hex(c),
{
    ('0' <= c && c <= '9') || ('a' <= c && c <= 'f') || ('A' <= c && c <= 'F')
}

fn string_close_exec(s: &Vec<char>, j0: usize) -> (r: Option<usize>)
    requires
        j0 <= s.len(),
    ensures
        r matches Some(e) ==> string_close(s@, j0 as int) == Some(e as int),
        r is None ==> string_close(s@, j0 as int) is None,
{
    let mut j = j0;
    loop
        invariant
            j0 <= j <= s.len(),
            string_close(s@, j0 as int) == string_close(s@, j as int),
        decreases s.len() - j,
    {
        if j >= s.len() {
            return None;
        }
        let c = s[j];
        if c == '"' {
            return Some(j + 1);
        } else if c == '\\' {
            if j + 1 < s.len() && (s[j + 1] == '"' || s[j + 1] == '\\' || s[j + 1] == 'b' || s[j + 1] == 'n'
                || s[j + 1] == 'f' || s[j + 1] == 'r' || s[j + 1] == 't' || s[j + 1] == '/') {
                j = j + 2;
            } else if s.len() - j > 5 && s[j + 1] == 'u' && is_hex_exec(s[j + 2]) && is_hex_exec(s[j + 3])
                && is_hex_exec(s[j + 4]) && is_hex_exec(s[j + 5]) {
                j = j + 6;
            } else {
                return None;
            }
        } else if ' ' > c {
            return None;
        } else {
            j = j + 1;
        }
    }
}

fn ci_exec(c: char, u: char) -> (b: bool)
    requires
        'A' <= u <= 'Z',
    ensures
        b == ci(c, u),
{
    c == u || (c as u32) == (u as u32) + 32
}

fn word_is_exec(s: &Vec<char>, i: usize, e: usize, kw: &Vec<char>) -> (b: bool)
    requires
        i <= e <= s.len(),
        forall|j: int| 0 <= j < kw@.len() ==> 'A' <= #[trigger] kw@[j] <= 'Z',
    ensures
        b == word_is(s@.subrange(i as int, e as int), kw@),
{
    if e - i != kw.len() {
        return false;
    }
    let mut j: usize = 0;
    while j < kw.len()
        invariant
            e - i == kw@.len(),
            i <= e <= s.len(),
            0 <= j <= kw@.len(),
            forall|j: int| 0 <= j < kw@.len() ==> 'A' <= #[trigger] kw@[j] <= 'Z',
            forall|m: int| 0 <= m < j ==> #[trigger] ci(s@.subrange(i as int, e as int)[m], kw@[m]),
        decreases kw.len() - j,
    {
        if !ci_exec(s[i + j], kw[j]) {
            assert(!ci(s@.subrange(i as int, e as int)[j as int], kw@[j as int]));
            return false;
        }
        j = j + 1;
    }
    true
}

fn spelled(a: char, b: char, c: char, d: char, e: char, n: usize) -> (v: Vec<char>)
    requires
        2 <= n <= 5,
    ensures
        v@ == seq![a, b, c, d, e].take(n as int),
{
    let mut v: Vec<char> = Vec::new();
    v.push(a);
    v.push(b);
    if n >= 3 {
        v.push(c);
    }
    if n >= 4 {
        v.push(d);
    }
    if n >= 5 {
        v.push(e);
    }
    assert(v@ =~= seq![a, b, c, d, e].take(n as int));
    v
}

fn keyword_exec(s: &Vec<char>, i: usize, e: usize) -> (r: Option<Keyword>)
    requires
        i <= e <= s.len(),
    ensures
        match r {
            Some(k) => keyword_word(s@.subrange(i as int, e as int)) == Some(k@),
            None => keyword_word(s@.subrange(i as int, e as int)) is None,
        },
{
    let w = spelled('L', 'E', 'T', ' ', ' ', 3);
    assert(w@ =~= spell_let());
    if word_is_exec(s, i, e, &w) {
        return Some(Keyword::Let);
    }
    let w = spelled('P', 'R', 'I', 'N', 'T', 5);
    assert(w@ =~= spell_print());
    if word_is_exec(s, i, e, &w) {
        return Some(Keyword::Print);
    }
    let w = spelled('I', 'N', 'P', 'U', 'T', 5);
    assert(w@ =~= spell_input());
    if word_is_exec(s, i, e, &w) {
        return Some(Keyword::Input);
    }
    let w = spelled('I', 'F', ' ', ' ', ' ', 2);
    assert(w@ =~= spell_if());
    if word_is_exec(s, i, e, &w) {
        return Some(Keyword::If);
    }
    let w = spelled('T', 'H', 'E', 'N', ' ', 4);
    assert(w@ =~= spell_then());
    if word_is_exec(s, i, e, &w) {
        return Some(Keyword::Then);
    }
    let w = spelled('G', 'O', 'T', 'O', ' ', 4);
    assert(w@ =~= spell_goto());
    if word_is_exec(s, i, e, &w) {
        return Some(Keyword::Goto);
    }
    let w = spelled('E', 'N', 'D', ' ', ' ', 3);
    assert(w@ =~= spell_end());
    if word_is_exec(s, i, e, &w) {
        return Some(Keyword::End);
    }
    None
}

fn rem_text_start_exec(s: &Vec<char>, i: usize, e: usize) -> (r: usize)
    requires
        i <= e <= s.len(),
    ensures
        r == rem_text_start(s@, i as int, e as int),
        i <= r <= e,
{
    let mut j = i;
    while e - j >= 4 && s[j] == 'R' && s[j + 1] == 'E' && s[j + 2] == 'M' && s[j + 3] == ' '
        invariant
            i <= j <= e <= s.len(),
            rem_text_start(s@, i as int, e as int) == rem_text_start(s@, j as int, e as int),
        decreases e - j,
    {
        j = j + 4;
    }
    j
}

proof fn lemma_apostrophes_within_line(s: Seq<char>, i: int)
    requires
        0 <= i <= s.len(),
    ensures
        run_end(s, i, CharClass::Apostrophe) <= run_end(s, i, CharClass::NotNewline),
    decreases s.len() - i,
{
    lemma_run_end(s, i, CharClass::NotNewline);
    if i < s.len() && s[i] == '\'' {
        lemma_apostrophes_within_line(s, i + 1);
    }
}

/// The value of the digits `s[i..e]`, or `None` when it exceeds `u32::MAX`.
fn digits_exec(s: &Vec<char>, i: usize, e: usize) -> (r: Option<u32>)
    requires
        i <= e <= s.len(),
        forall|k: int| i <= k < e ==> #[trigger] is_digit(s@[k]),
    ensures
        match r {
            Some(v) => v as int == digits_value(s@.subrange(i as int, e as int)),
            None => digits_value(s@.subrange(i as int, e as int)) > u32::MAX,
        },
{
    let mut v: u64 = 0;
    let mut big = false;
    let mut j = i;
    while j < e
        invariant
            i <= j <= e <= s.len(),
            forall|k: int| i <= k < e ==> #[trigger] is_digit(s@[k]),
            !big ==> v as int == digits_value(s@.subrange(i as int, j as int)) && v <= u32::MAX,
            big ==> digits_value(s@.subrange(i as int, j as int)) > u32::MAX,
        decreases e - j,
    {
        let d = digit_of(s[j]);
        proof {
            lemma_digits_step(s@, i as int, j as int);
            assert(is_digit(s@[j as int]));
            assert(all_digits(s@.subrange(i as int, j as int)));
            lemma_digits_nonneg(s@.subrange(i as int, j as int));
        }
        if !big {
            let nv = v * 10 + d;
            if nv > 4294967295u64 {
                big = true;
            } else {
                v = nv;
            }
        }
        j = j + 1;
    }
    if big {
        None
    } else {
        Some(v as u32)
    }
}

fn scan_word_exec(s: &Vec<char>, i: usize) -> (r: (Lexeme, usize))
    requires
        i < s.len(),
        is_alpha(s@[i as int]),
    ensures
        r.0@ == scan_word(s@, i as int).0,
        r.1 as int == scan_word(s@, i as int).1,
{
    if s.len() - i > 3 && ci_exec(s[i], 'R') && ci_exec(s[i + 1], 'E') && ci_exec(s[i + 2], 'M')
        && class_has(s[i + 3], CharClass::Blank) {
        let e = run_end_exec(s, i, CharClass::NotNewline);
        proof {
            lemma_run_end(s@, i as int, CharClass::NotNewline);
        }
        let t = rem_text_start_exec(s, i, e);
        let text = string_of_range(s, t, e);
        return (Lexeme::Tok(Token::Keyword(Keyword::Rem(text))), e);
    }
    let e = run_end_exec(s, i, CharClass::Alnum);
    proof {
        lemma_run_end(s@, i as int, CharClass::Alnum);
    }
    match keyword_exec(s, i, e) {
        Some(k) => (Lexeme::Tok(Token::Keyword(k)), e),
        None => {
            if e - i == 3 && s[i] == 'M' && s[i + 1] == 'O' && s[i + 2] == 'D' {
                assert(s@.subrange(i as int, e as int) =~= spell_mod());
                (Lexeme::Tok(Token::Operator(Math::Modulo)), e)
            } else {
                assert(s@.subrange(i as int, e as int) != spell_mod()) by {
                    if s@.subrange(i as int, e as int) == spell_mod() {
                        assert(s@.subrange(i as int, e as int)[0] == 'M');
                        assert(s@.subrange(i as int, e as int)[1] == 'O');
                        assert(s@.subrange(i as int, e as int)[2] == 'D');
                    }
                }
                (Lexeme::Tok(Token::Identifier(string_of_range(s, i, e))), e)
            }
        },
    }
}

/// The lexeme at `i` and the position after it.
fn scan_exec(s: &Vec<char>, i: usize) -> (r: (Lexeme, usize))
    requires
        i < s.len(),
    ensures
        r.0@ == scan(s@, i as int).0,
        r.1 as int == scan(s@, i as int).1,
{
    let c = s[i];
    if class_has(c, CharClass::Blank) {
        (Lexeme::Skip, run_end_exec(s, i, CharClass::Blank))
    } else if c == '\n' {
        (Lexeme::Tok(Token::Newline), run_end_exec(s, i, CharClass::Newline))
    } else if c == '\'' {
        let e = run_end_exec(s, i, CharClass::NotNewline);
        let q = run_end_exec(s, i, CharClass::Apostrophe);
        proof {
            lemma_run_end(s@, i as int, CharClass::NotNewline);
            lemma_run_end(s@, i as int, CharClass::Apostrophe);
            lemma_apostrophes_within_line(s@, i as int);
        }
        (Lexeme::Tok(Token::Comment(string_of_range(s, q, e))), e)
    } else if c == '"' {
        match string_close_exec(s, i + 1) {
            Some(e) => {
                proof {
                    lemma_string_close(s@, i + 1);
                }
                (Lexeme::Tok(Token::String(string_of_range(s, i, e))), e)
            },
            None => (Lexeme::Unterminated, run_end_exec(s, i + 1, CharClass::NotQuote)),
        }
    } else if '0' <= c && c <= '9' {
        let e = run_end_exec(s, i, CharClass::Digit);
        proof {
            lemma_run_end(s@, i as int, CharClass::Digit);
            assert forall|k: int| i <= k < e implies #[trigger] is_digit(s@[k]) by {
                assert(in_class(s@[k], CharClass::Digit));
            }
        }
        match digits_exec(s, i, e) {
            Some(v) => (Lexeme::Tok(Token::Integer(v)), e),
            None => (Lexeme::Overflow, e),
        }
    } else if ('a' <= c && c <= 'z') || ('A' <= c && c <= 'Z') {
        scan_word_exec(s, i)
    } else if c == '+' {
        (Lexeme::Tok(Token::Operator(Math::Plus)), i + 1)
    } else if c == '-' {
        (Lexeme::Tok(Token::Operator(Math::Minus)), i + 1)
    } else if c == '/' {
        (Lexeme::Tok(Token::Operator(Math::Division)), i + 1)
    } else if c == '*' {
        if i + 1 < s.len() && s[i + 1] == '*' {
            (Lexeme::Tok(Token::Operator(Math::Power)), i + 2)
        } else {
            (Lexeme::Tok(Token::Operator(Math::Times)), i + 1)
        }
    } else if c == '<' {
        if i + 1 < s.len() && s[i + 1] == '=' {
            (Lexeme::Tok(Token::Relational(Relational::LtEq)), i + 2)
        } else if i + 1 < s.len() && s[i + 1] == '>' {
            (Lexeme::Tok(Token::Relational(Relational::NotEq)), i + 2)
        } else {
            (Lexeme::Tok(Token::Relational(Relational::Lt)), i + 1)
        }
    } else if c == '>' {
        if i + 1 < s.len() && s[i + 1] == '=' {
            (Lexeme::Tok(Token::Relational(Relational::GtEq)), i + 2)
        } else {
            (Lexeme::Tok(Token::Relational(Relational::Gt)), i + 1)
        }
    } else if c == '(' {
        (Lexeme::Tok(Token::Paran(Side::Left)), i + 1)
    } else if c == ')' {
        (Lexeme::Tok(Token::Paran(Side::Right)), i + 1)
    } else if c == '=' {
        (Lexeme::Tok(Token::Equal), i + 1)
    } else {
        (Lexeme::Invalid, i + 1)
    }
}


pub open spec fn increasing(v: Seq<int>) -> bool {
    forall|a: int, b: int| 0 <= a < b < v.len() ==> v[a] < v[b]
}

proof fn lemma_width(c: char)
    ensures
        1 <= utf8_width(c) <= 4,
        encode_scalar(c as u32).len() == utf8_width(c),
{
}

proof fn lemma_bytes_concat(a: Seq<char>, b: Seq<char>)
    ensures
        bytes_len(a + b) == bytes_len(a) + bytes_len(b),
    decreases b.len(),
{
    if b.len() == 0 {
        assert(a + b =~= a);
    } else {
        lemma_bytes_concat(a, b.drop_last());
        assert((a + b).drop_last() =~= a + b.drop_last());
    }
}

proof fn lemma_bytes_nonneg(s: Seq<char>)
    ensures
        bytes_len(s) >= s.len(),
    decreases s.len(),
{
    if s.len() > 0 {
        lemma_width(s.last());
        lemma_bytes_nonneg(s.drop_last());
    }
}

proof fn lemma_bytes_encode(s: Seq<char>)
    ensures
        bytes_len(s) == encode_utf8(s).len(),
    decreases s.len(),
{
    if s.len() > 0 {
        lemma_bytes_encode(s.drop_first());
        lemma_bytes_concat(seq![s[0]], s.drop_first());
        assert(seq![s[0]] + s.drop_first() =~= s);
        assert(seq![s[0]].drop_last() =~= Seq::<char>::empty());
        assert(bytes_len(Seq::<char>::empty()) == 0);
        assert(bytes_len(seq![s[0]]) == utf8_width(s[0]));
        lemma_width(s[0]);
        assert(encode_utf8(s) == encode_scalar(s[0] as u32) + encode_utf8(s.drop_first()));
    }
}

proof fn lemma_bytes_take(s: Seq<char>, j: int)
    requires
        0 <= j <= s.len(),
    ensures
        bytes_len(s.take(j)) <= bytes_len(s),
{
    lemma_bytes_concat(s.take(j), s.skip(j));
    assert(s.take(j) + s.skip(j) =~= s);
    lemma_bytes_nonneg(s.skip(j));
}

proof fn lemma_byte_step(s: Seq<char>, j: int)
    requires
        0 <= j < s.len(),
    ensures
        byte_at(s, j + 1) == byte_at(s, j) + utf8_width(s[j]),
        byte_at(s, j + 1) <= bytes_len(s),
{
    assert(s.take(j + 1).drop_last() =~= s.take(j));
    lemma_bytes_take(s, j + 1);
}

proof fn lemma_line_starts(s: Seq<char>)
    ensures
        line_starts_of(s).len() >= 1,
        line_starts_of(s)[0] == 0,
        increasing(line_starts_of(s)),
        forall|k: int| 0 <= k < line_starts_of(s).len() ==> #[trigger] line_starts_of(s)[k] <= bytes_len(s),
    decreases s.len(),
{
    if s.len() > 0 {
        lemma_line_starts(s.drop_last());
        lemma_width(s.last());
    }
}

fn char_width(c: char) -> (w: usize)
    ensures
        w == utf8_width(c),
{
    if '\u{80}' > c {
        1
    } else if '\u{800}' > c {
        2
    } else if '\u{10000}' > c {
        3
    } else {
        4
    }
}

/// The byte offset of character position `e`, from that of position `i`.
fn advance_bytes(s: &Vec<char>, i: usize, e: usize, b: usize) -> (nb: usize)
    requires
        i <= e <= s.len(),
        b == byte_at(s@, i as int),
        bytes_len(s@) <= usize::MAX,
    ensures
        nb == byte_at(s@, e as int),
{
    let mut j = i;
    let mut nb = b;
    while j < e
        invariant
            i <= j <= e <= s.len(),
            nb == byte_at(s@, j as int),
            bytes_len(s@) <= usize::MAX,
        decreases e - j,
    {
        proof {
            lemma_byte_step(s@, j as int);
        }
        nb = nb + char_width(s[j]);
        j = j + 1;
    }
    nb
}

/// The byte offsets at which the lines of `s` start.
fn line_starts_exec(s: &Vec<char>) -> (v: Vec<usize>)
    requires
        bytes_len(s@) <= usize::MAX,
    ensures
        v@.map_values(|x: usize| x as int) == line_starts_of(s@),
{
    let mut v: Vec<usize> = Vec::new();
    v.push(0);
    let mut b: usize = 0;
    let mut i: usize = 0;
    assert(s@.take(0) =~= Seq::<char>::empty());
    assert(v@.map_values(|x: usize| x as int) =~= line_starts_of(s@.take(0)));
    while i < s.len()
        invariant
            0 <= i <= s.len(),
            b == byte_at(s@, i as int),
            bytes_len(s@) <= usize::MAX,
            v@.map_values(|x: usize| x as int) == line_starts_of(s@.take(i as int)),
        decreases s.len() - i,
    {
        proof {
            lemma_byte_step(s@, i as int);
        }
        let c = s[i];
        b = b + char_width(c);
        let ghost pre = v@;
        if c == '\n' {
            v.push(b);
        }
        i = i + 1;
        proof {
            assert(s@.take(i as int).drop_last() =~= s@.take(i - 1));
            assert(s@.take(i as int).last() == c);
            assert(v@.map_values(|x: usize| x as int) =~= line_starts_of(s@.take(i as int)));
        }
    }
    assert(s@.take(s.len() as int) =~= s@);
    v
}

/// The line and column (from 1, the column in bytes) of a byte offset, given
/// the byte offsets at which lines start.
pub fn get_line_col(byte_offset: usize, line_starts: &[usize]) -> (r: (usize, usize))
    requires
        line_starts@.len() >= 1,
        line_starts@[0] == 0,
        forall|a: int, b: int| 0 <= a < b < line_starts@.len() ==> line_starts@[a] < line_starts@[b],
        byte_offset < usize::MAX,
    ensures
        locates(line_starts@.map_values(|x: usize| x as int), byte_offset as int, r.0 as int, r.1 as int),
{
    let mut lo: usize = 1;
    let mut hi: usize = line_starts.len();
    while lo < hi
        invariant
            1 <= lo <= hi <= line_starts@.len(),
            line_starts@[lo - 1] <= byte_offset,
            hi == line_starts@.len() || byte_offset < line_starts@[hi as int],
            forall|a: int, b: int| 0 <= a < b < line_starts@.len() ==> line_starts@[a] < line_starts@[b],
        decreases hi - lo,
    {
        let mid = lo + (hi - lo) / 2;
        if line_starts[mid] <= byte_offset {
            lo = mid + 1;
        } else {
            hi = mid;
        }
    }
    let line_start = line_starts[lo - 1];
    (lo, byte_offset - line_start + 1)
}

/// Splits the input into tokens.
///
/// The input is read with the longest match at each position (see `scan`).
/// When no lexeme is an error, the result is the tokens in order; otherwise
/// it is every error, in order: an unclosed quote, or a character that
/// starts no token.
pub fn tokenize(input: &str) -> (r: Result<Vec<Token>, Vec<LexicalError>>)
    requires
        lex_fits(input@),
    ensures
        match r {
            Ok(tokens) => {
                &&& errors_of(lex(input@)).len() == 0
                &&& tokens@.map_values(|t: Token| t@) == tokens_of(lex(input@))
            },
            Err(errors) => {
                &&& errors_of(lex(input@)).len() > 0
                &&& errors@.len() == errors_of(lex(input@)).len()
                &&& forall|k: int|
                    0 <= k < errors@.len() ==> reports(
                        #[trigger] errors@[k],
                        input@,
                        errors_of(lex(input@))[k],
                    )
            },
        },
{
    let s = chars_of(input);
    let total = input.as_bytes().len();
    proof {
        lemma_bytes_encode(s@);
        lemma_line_starts(s@);
    }
    let line_starts = line_starts_exec(&s);
    let ghost starts = line_starts_of(s@);
    assert forall|a: int, b: int| 0 <= a < b < line_starts@.len() implies line_starts@[a]
        < line_starts@[b] by {
        assert(starts[a] == line_starts@[a] as int);
        assert(starts[b] == line_starts@[b] as int);
    }
    assert(line_starts@[0] as int == starts[0]);
    let mut tokens: Vec<Token> = Vec::new();
    let mut errors: Vec<LexicalError> = Vec::new();
    let mut i: usize = 0;
    let mut b: usize = 0;
    let ghost mut done: Seq<Lexed> = Seq::empty();
    assert(s@.take(0) =~= Seq::<char>::empty());
    assert(done + lex_from(s@, 0) =~= lex(s@));
    while i < s.len()
        invariant
            s@ == input@,
            lex_fits(s@),
            0 <= i <= s.len(),
            b == byte_at(s@, i as int),
            bytes_len(s@) == total,
            line_starts@.map_values(|x: usize| x as int) == line_starts_of(s@),
            line_starts@.len() >= 1,
            line_starts@[0] == 0,
            forall|a: int, b: int| 0 <= a < b < line_starts@.len() ==> line_starts@[a] < line_starts@[b],
            lex(s@) == done + lex_from(s@, i as int),
            tokens@.map_values(|t: Token| t@) == tokens_of(done),
            errors@.len() == errors_of(done).len(),
            forall|k: int| 0 <= k < errors@.len() ==> reports(#[trigger] errors@[k], s@, errors_of(done)[k]),
        decreases s.len() - i,
    {
        let (x, e) = scan_exec(&s, i);
        proof {
            lemma_scan_advances(s@, i as int);
            lemma_byte_step(s@, i as int);
            lemma_width(s@[i as int]);
        }
        let nb = advance_bytes(&s, i, e, b);
        let ghost item = Lexed { lexeme: x@, start: i as int, end: e as int };
        assert(lex_from(s@, i as int) == seq![item] + lex_from(s@, e as int));
        let ghost old_errors = errors@;
        match x {
            Lexeme::Skip => {},
            Lexeme::Tok(t) => {
                tokens.push(t);
            },
            Lexeme::Unterminated => {
                let (line, column) = get_line_col(b, line_starts.as_slice());
                errors.push(
                    LexicalError {
                        message: string_from_str("String literal was not closed (missing \")"),
                        line,
                        column,
                        span: Range { start: b, end: nb },
                    },
                );
            },
            Lexeme::Invalid => {
                let (line, column) = get_line_col(b, line_starts.as_slice());
                let mut message = string_from_str("Unexpected character or sequence: '");
                push_char(&mut message, s[i]);
                push_char(&mut message, '\'');
                assert(s@.subrange(i as int, e as int) =~= seq![s@[i as int]]);
                assert(message@ =~= msg_unexpected(s@.subrange(i as int, e as int)));
                errors.push(
                    LexicalError { message, line, column, span: Range { start: b, end: nb } },
                );
            },
            Lexeme::Overflow => {
                proof {
                    assert(lex(s@)[done.len() as int] == item);
                    assert(!(lex(s@)[done.len() as int].lexeme is Overflow));
                }
            },
        }
        proof {
            let nd = done.push(item);
            assert(nd.drop_last() =~= done);
            assert(nd.last() == item);
            assert(lex(s@) =~= nd + lex_from(s@, e as int));
            assert(tokens@.map_values(|t: Token| t@) =~= tokens_of(nd));
            assert forall|k: int| 0 <= k < errors@.len() implies reports(
                #[trigger] errors@[k],
                s@,
                errors_of(nd)[k],
            ) by {
                if k < old_errors.len() {
                    assert(errors@[k] == old_errors[k]);
                }
            }
            done = nd;
        }
        i = e;
        b = nb;
    }
    assert(lex(s@) =~= done);
    if errors.len() > 0 {
        Err(errors)
    } else {
        Ok(tokens)
    }
}

/// Whether every run of digits in the input, read as a token, fits in `u32`
/// (what `tokenize` requires).
pub fn integers_fit(input: &str) -> (b: bool)
    ensures
        b == lex_fits(input@),
{
    let s = chars_of(input);
    let mut i: usize = 0;
    let ghost mut done: Seq<Lexed> = Seq::empty();
    assert(done + lex_from(s@, 0) =~= lex(s@));
    while i < s.len()
        invariant
            s@ == input@,
            0 <= i <= s.len(),
            lex(s@) == done + lex_from(s@, i as int),
            forall|k: int| 0 <= k < done.len() ==> !(#[trigger] done[k].lexeme is Overflow),
        decreases s.len() - i,
    {
        let (x, e) = scan_exec(&s, i);
        proof {
            lemma_scan_advances(s@, i as int);
        }
        let ghost item = Lexed { lexeme: x@, start: i as int, end: e as int };
        assert(lex_from(s@, i as int) == seq![item] + lex_from(s@, e as int));
        if let Lexeme::Overflow = x {
            assert(lex(s@)[done.len() as int] == item);
            assert(lex(s@)[done.len() as int].lexeme is Overflow);
            assert(!lex_fits(s@));
            return false;
        }
        proof {
            let nd = done.push(item);
            assert(lex(s@) =~= nd + lex_from(s@, e as int));
            assert forall|k: int| 0 <= k < nd.len() implies !(#[trigger] nd[k].lexeme is Overflow) by {
                if k < done.len() {
                    assert(nd[k] == done[k]);
                }
            }
            done = nd;
        }
        i = e;
    }
    assert(lex(s@) =~= done);
    true
}

} // verus!
