//! The scanner: turns a line of surface syntax into tokens, collecting
//! position-bearing errors without aborting the scan.

use vstd::prelude::*;
use crate::error::LexError;
use crate::term::{dec_str, usize_to_string};

verus! {

/// A token of the surface syntax.
#[derive(Debug, PartialEq, Clone)]
pub enum Token {
    Identifier(String),
    Number(usize),
    Path(String),
    OpenParen,
    CloseParen,
    Comma,
    Derive,
    Define,
    As,
    End,
    At,
    Add,
    Sub,
    Mul,
    Div,
}

/// Mathematical model of a token.
pub enum TokenView {
    Identifier(Seq<char>),
    Number(nat),
    Path(Seq<char>),
    OpenParen,
    CloseParen,
    Comma,
    Derive,
    Define,
    As,
    End,
    At,
    Add,
    Sub,
    Mul,
    Div,
}

impl View for Token {
    type V = TokenView;

    open spec fn view(&self) -> TokenView {
        match self {
            Token::Identifier(s) => TokenView::Identifier(s@),
            Token::Number(n) => TokenView::Number(*n as nat),
            Token::Path(s) => TokenView::Path(s@),
            Token::OpenParen => TokenView::OpenParen,
            Token::CloseParen => TokenView::CloseParen,
            Token::Comma => TokenView::Comma,
            Token::Derive => TokenView::Derive,
            Token::Define => TokenView::Define,
            Token::As => TokenView::As,
            Token::End => TokenView::End,
            Token::At => TokenView::At,
            Token::Add => TokenView::Add,
            Token::Sub => TokenView::Sub,
            Token::Mul => TokenView::Mul,
            Token::Div => TokenView::Div,
        }
    }
}

/// The description of a token as error messages name it.
pub open spec fn token_desc(t: TokenView) -> Seq<char> {
    match t {
        TokenView::Add => "add"@,
        TokenView::Sub => "sub"@,
        TokenView::Mul => "mul"@,
        TokenView::Div => "div"@,
        TokenView::Identifier(s) => "identifier literal '"@ + s + "'"@,
        TokenView::Number(n) => "number literal '"@ + dec_str(n) + "'"@,
        TokenView::Path(s) => "path literal '"@ + s + "'"@,
        TokenView::OpenParen => "open parenthesis ('(')"@,
        TokenView::CloseParen => "closed parenthesis (')')"@,
        TokenView::Comma => "comma (',')"@,
        TokenView::Derive => "derive symbol ('=>')"@,
        TokenView::Define => "define-keywork ('def')"@,
        TokenView::As => "as-keyword ('as')"@,
        TokenView::End => "end-keyword ('end')"@,
        TokenView::At => "at-keyword ('at')"@,
    }
}

impl Token {
    /// The description of the token as error messages name it.
    pub fn to_string(&self) -> (r: String)
        ensures
            r@ == token_desc(self@),
    {
        match self {
            Token::Add => String::from_str("add"),
            Token::Sub => String::from_str("sub"),
            Token::Mul => String::from_str("mul"),
            Token::Div => String::from_str("div"),
            Token::Identifier(s) => {
                let mut r = String::from_str("identifier literal '");
                r.append(s.as_str());
                r.append("'");
                r
            },
            Token::Number(n) => {
                let mut r = String::from_str("number literal '");
                let num = usize_to_string(*n);
                r.append(num.as_str());
                r.append("'");
                r
            },
            Token::Path(s) => {
                let mut r = String::from_str("path literal '");
                r.append(s.as_str());
                r.append("'");
                r
            },
            Token::OpenParen => String::from_str("open parenthesis ('(')"),
            Token::CloseParen => String::from_str("closed parenthesis (')')"),
            Token::Comma => String::from_str("comma (',')"),
            Token::Derive => String::from_str("derive symbol ('=>')"),
            Token::Define => String::from_str("define-keywork ('def')"),
            Token::As => String::from_str("as-keyword ('as')"),
            Token::End => String::from_str("end-keyword ('end')"),
            Token::At => String::from_str("at-keyword ('at')"),
        }
    }
}

/// The views of a token list, in order.
pub open spec fn token_views(s: Seq<Token>) -> Seq<TokenView>
    decreases s.len(),
{
    if s.len() == 0 {
        Seq::empty()
    } else {
        token_views(s.drop_last()).push(s.last()@)
    }
}

/// `token_views` maps the view over the list elementwise.
pub broadcast proof fn lemma_token_views(s: Seq<Token>)
    ensures
        #[trigger] token_views(s).len() == s.len(),
        forall|i: int| 0 <= i < s.len() ==> token_views(s)[i] == s[i]@,
    decreases s.len(),
{
    if s.len() > 0 {
        lemma_token_views(s.drop_last());
    }
}

/// Whitespace: the characters that end a keyword and are skipped between
/// tokens.
pub open spec fn is_space(c: char) -> bool {
    c == ' ' || c == '\t' || c == '\r' || c == '\n'
}

/// A decimal digit.
pub open spec fn is_digit(c: char) -> bool {
    ('0' as u32) <= (c as u32) && (c as u32) <= ('9' as u32)
}

/// A letter or underscore: what an identifier may start with.
pub open spec fn is_ident_start(c: char) -> bool {
    (('a' as u32) <= (c as u32) && (c as u32) <= ('z' as u32)) || (('A' as u32) <= (c as u32) && (c
        as u32) <= ('Z' as u32)) || c == '_'
}

/// A character an identifier may continue with.
pub open spec fn is_ident_char(c: char) -> bool {
    is_ident_start(c) || is_digit(c)
}

/// Keywords are recognized only when followed by whitespace or the end of
/// the line; otherwise the letters lex as an identifier.
pub open spec fn at_boundary(s: Seq<char>, j: nat) -> bool {
    j >= s.len() || is_space(s[j as int])
}

/// The position right after the identifier that starts at `i`.
pub open spec fn ident_end(s: Seq<char>, i: nat) -> nat
    decreases s.len() - i,
{
    if i < s.len() && is_ident_char(s[i as int]) {
        ident_end(s, i + 1)
    } else {
        i
    }
}

/// Bounds and content of an identifier scan.
pub proof fn lemma_ident_end(s: Seq<char>, i: nat)
    requires
        i <= s.len(),
    ensures
        i <= ident_end(s, i) <= s.len(),
        forall|j: int| i <= j < ident_end(s, i) ==> is_ident_char(s[j]),
        ident_end(s, i) < s.len() ==> !is_ident_char(s[ident_end(s, i) as int]),
        i < s.len() && is_ident_char(s[i as int]) ==> ident_end(s, i) > i,
    decreases s.len() - i,
{
    if i < s.len() && is_ident_char(s[i as int]) {
        lemma_ident_end(s, i + 1);
    }
}

/// The position right after the digit run that starts at `i`.
pub open spec fn digit_end(s: Seq<char>, i: nat) -> nat
    decreases s.len() - i,
{
    if i < s.len() && is_digit(s[i as int]) {
        digit_end(s, i + 1)
    } else {
        i
    }
}

/// Bounds and content of a digit scan.
pub proof fn lemma_digit_end(s: Seq<char>, i: nat)
    requires
        i <= s.len(),
    ensures
        i <= digit_end(s, i) <= s.len(),
        forall|j: int| i <= j < digit_end(s, i) ==> is_digit(s[j]),
        digit_end(s, i) < s.len() ==> !is_digit(s[digit_end(s, i) as int]),
        i < s.len() && is_digit(s[i as int]) ==> digit_end(s, i) > i,
    decreases s.len() - i,
{
    if i < s.len() && is_digit(s[i as int]) {
        lemma_digit_end(s, i + 1);
    }
}

/// The position of the first closing quote at or after `i`, or the length
/// of the line when there is none.
pub open spec fn path_end(s: Seq<char>, i: nat) -> nat
    decreases s.len() - i,
{
    if i >= s.len() {
        i
    } else if s[i as int] == '"' {
        i
    } else {
        path_end(s, i + 1)
    }
}

/// Bounds and content of a path scan.
pub proof fn lemma_path_end(s: Seq<char>, i: nat)
    requires
        i <= s.len(),
    ensures
        i <= path_end(s, i) <= s.len(),
        forall|j: int| i <= j < path_end(s, i) ==> s[j] != '"',
        path_end(s, i) < s.len() ==> s[path_end(s, i) as int] == '"',
    decreases s.len() - i,
{
    if i < s.len() && s[i as int] != '"' {
        lemma_path_end(s, i + 1);
    }
}

/// The value of a run of decimal digits, most significant first.
pub open spec fn dec_val(s: Seq<char>) -> int
    decreases s.len(),
{
    if s.len() == 0 {
        0
    } else {
        dec_val(s.drop_last()) * 10 + ((s.last() as u32) - ('0' as u32))
    }
}

/// The keyword `def` stands at `i`, followed by a boundary.
pub open spec fn kw_def_at(s: Seq<char>, i: nat) -> bool {
    i + 3 <= s.len() && s[i as int] == 'd' && s[i as int + 1] == 'e' && s[i as int + 2] == 'f'
        && at_boundary(s, i + 3)
}

/// The keyword `end` stands at `i`, followed by a boundary.
pub open spec fn kw_end_at(s: Seq<char>, i: nat) -> bool {
    i + 3 <= s.len() && s[i as int] == 'e' && s[i as int + 1] == 'n' && s[i as int + 2] == 'd'
        && at_boundary(s, i + 3)
}

/// The keyword `as` stands at `i`, followed by a boundary.
pub open spec fn kw_as_at(s: Seq<char>, i: nat) -> bool {
    i + 2 <= s.len() && s[i as int] == 'a' && s[i as int + 1] == 's' && at_boundary(s, i + 2)
}

/// The keyword `at` stands at `i`, followed by a boundary.
pub open spec fn kw_at_at(s: Seq<char>, i: nat) -> bool {
    i + 2 <= s.len() && s[i as int] == 'a' && s[i as int + 1] == 't' && at_boundary(s, i + 2)
}

/// One step of the scan at position `i` of the line: at most one token, at
/// most one error, and the position the scan continues from. Punctuation
/// and operators are single characters; `=` must be followed by `>`; a
/// quote opens a path literal that runs to the next quote and fails at the
/// end of the line; keywords are recognized at a boundary; letters and
/// underscores open an identifier, digits a number, which fails when its
/// value does not fit the machine; whitespace is skipped; anything else is
/// an unknown character.
pub open spec fn lex_step(s: Seq<char>, i: nat) -> (Option<TokenView>, Option<LexError>, nat) {
    let c = s[i as int];
    if c == ',' {
        (Some(TokenView::Comma), None, i + 1)
    } else if c == '(' {
        (Some(TokenView::OpenParen), None, i + 1)
    } else if c == ')' {
        (Some(TokenView::CloseParen), None, i + 1)
    } else if c == '+' {
        (Some(TokenView::Add), None, i + 1)
    } else if c == '-' {
        (Some(TokenView::Sub), None, i + 1)
    } else if c == '*' {
        (Some(TokenView::Mul), None, i + 1)
    } else if c == '/' {
        (Some(TokenView::Div), None, i + 1)
    } else if c == '"' {
        let j = path_end(s, i + 1);
        if j < s.len() {
            (Some(TokenView::Path(s.subrange(i as int + 1, j as int))), None, j + 1)
        } else {
            (None, Some(LexError::UnterminatedStringLiteralAtEnd), s.len())
        }
    } else if is_space(c) {
        (None, None, i + 1)
    } else if c == '=' {
        if i + 1 < s.len() {
            if s[i as int + 1] == '>' {
                (Some(TokenView::Derive), None, i + 2)
            } else {
                (
                    None,
                    Some(
                        LexError::ExpectCharAfter {
                            pos: (i + 1) as usize,
                            expected: '>',
                            after: '=',
                            got: s[i as int + 1],
                        },
                    ),
                    i + 2,
                )
            }
        } else {
            (
                None,
                Some(
                    LexError::ExpectCharAfter {
                        pos: (s.len() - 1) as usize,
                        expected: '>',
                        after: '=',
                        got: ' ',
                    },
                ),
                i + 1,
            )
        }
    } else if kw_def_at(s, i) {
        (Some(TokenView::Define), None, i + 3)
    } else if kw_end_at(s, i) {
        (Some(TokenView::End), None, i + 3)
    } else if kw_as_at(s, i) {
        (Some(TokenView::As), None, i + 2)
    } else if kw_at_at(s, i) {
        (Some(TokenView::At), None, i + 2)
    } else if is_ident_start(c) {
        let j = ident_end(s, i);
        (Some(TokenView::Identifier(s.subrange(i as int, j as int))), None, j)
    } else if is_digit(c) {
        let j = digit_end(s, i);
        let v = dec_val(s.subrange(i as int, j as int));
        if v <= usize::MAX {
            (Some(TokenView::Number(v as nat)), None, j)
        } else {
            (None, Some(LexError::NumberTooLarge { pos: i as usize }), j)
        }
    } else {
        (None, Some(LexError::UnknownChar { pos: i as usize, got: c }), i + 1)
    }
}

/// Every scan step consumes at least one character.
pub proof fn lemma_lex_step_progress(s: Seq<char>, i: nat)
    requires
        i < s.len(),
    ensures
        i < lex_step(s, i).2 <= s.len(),
{
    lemma_path_end(s, i + 1);
    lemma_ident_end(s, i);
    lemma_digit_end(s, i);
}

/// The tokens and errors of the line from position `i` on. Scanning never
/// stops early: an error consumes the offending characters and the scan
/// goes on.
pub open spec fn lex_from(s: Seq<char>, i: nat) -> (Seq<TokenView>, Seq<LexError>)
    decreases s.len() - i,
    via lex_from_decreases
{
    if i >= s.len() {
        (Seq::empty(), Seq::empty())
    } else {
        let st = lex_step(s, i);
        let rest = lex_from(s, st.2);
        (
            (match st.0 {
                Some(t) => seq![t],
                None => Seq::empty(),
            }) + rest.0,
            (match st.1 {
                Some(e) => seq![e],
                None => Seq::empty(),
            }) + rest.1,
        )
    }
}

#[via_fn]
proof fn lex_from_decreases(s: Seq<char>, i: nat) {
    if i < s.len() {
        lemma_lex_step_progress(s, i);
    }
}

/// Appending a token appends its view.
proof fn lemma_token_views_push(s: Seq<Token>, t: Token)
    ensures
        token_views(s.push(t)) == token_views(s).push(t@),
{
    assert(s.push(t).drop_last() =~= s);
}

/// A scan that took every identifier character and stopped ends where the
/// identifier ends.
proof fn lemma_ident_end_is(s: Seq<char>, i: nat, j: nat)
    requires
        i <= j <= s.len(),
        forall|t: int| i <= t < j ==> is_ident_char(s[t]),
        j < s.len() ==> !is_ident_char(s[j as int]),
    ensures
        ident_end(s, i) == j,
    decreases j - i,
{
    if i < j {
        lemma_ident_end_is(s, i + 1, j);
    }
}

/// A scan that took every digit and stopped ends where the digit run ends.
proof fn lemma_digit_end_is(s: Seq<char>, i: nat, j: nat)
    requires
        i <= j <= s.len(),
        forall|t: int| i <= t < j ==> is_digit(s[t]),
        j < s.len() ==> !is_digit(s[j as int]),
    ensures
        digit_end(s, i) == j,
    decreases j - i,
{
    if i < j {
        lemma_digit_end_is(s, i + 1, j);
    }
}

/// A scan that passed every non-quote character and stopped ends at the
/// first quote, or at the end of the line.
proof fn lemma_path_end_is(s: Seq<char>, i: nat, j: nat)
    requires
        i <= j <= s.len(),
        forall|t: int| i <= t < j ==> s[t] != '"',
        j < s.len() ==> s[j as int] == '"',
    ensures
        path_end(s, i) == j,
    decreases j - i,
{
    if i < j {
        lemma_path_end_is(s, i + 1, j);
    }
}

/// Whitespace test.
fn is_space_e(c: char) -> (b: bool)
    ensures
        b == is_space(c),
{
    c == ' ' || c == '\t' || c == '\r' || c == '\n'
}

/// Decimal digit test.
fn is_digit_e(c: char) -> (b: bool)
    ensures
        b == is_digit(c),
{
    let u = c as u32;
    ('0' as u32) <= u && u <= ('9' as u32)
}

/// Identifier start test: a letter or underscore.
fn is_ident_start_e(c: char) -> (b: bool)
    ensures
        b == is_ident_start(c),
{
    let u = c as u32;
    (('a' as u32) <= u && u <= ('z' as u32)) || (('A' as u32) <= u && u <= ('Z' as u32)) || c == '_'
}

/// Identifier continuation test.
fn is_ident_char_e(c: char) -> (b: bool)
    ensures
        b == is_ident_char(c),
{
    is_ident_start_e(c) || is_digit_e(c)
}

/// The scanner: tokens and errors collected so far, and a cursor into the
/// token list for the parser to walk.
#[derive(Debug)]
pub struct Lexer {
    pub tokens: Vec<Token>,
    pub errors: Vec<LexError>,
    pub idx: usize,
}

impl Lexer {
    /// A fresh scanner with nothing collected.
    pub fn new() -> (r: Lexer)
        ensures
            r.tokens@ == Seq::<Token>::empty(),
            r.errors@ == Seq::<LexError>::empty(),
            r.idx == 0,
    {
        Lexer { tokens: vec![], errors: vec![], idx: 0 }
    }

    /// Scan one step at position `i` of the line, collecting at most one
    /// token or error, and return the position the scan continues from.
    #[verifier::loop_isolation(false)]
    #[verifier::rlimit(60)]
    fn lex_one(&mut self, input_string: &str, i: usize) -> (next: usize)
        requires
            i < input_string@.len(),
        ensures
            ({
                let st = lex_step(input_string@, i as nat);
                &&& token_views(final(self).tokens@) == token_views(old(self).tokens@) + (
                match st.0 {
                    Some(t) => seq![t],
                    None => Seq::empty(),
                })
                &&& final(self).errors@ == old(self).errors@ + (match st.1 {
                    Some(e) => seq![e],
                    None => Seq::empty(),
                })
                &&& next as nat == st.2
                &&& final(self).idx == old(self).idx
            }),
            i < next <= input_string@.len(),
    {
        let ghost s = input_string@;
        let n = input_string.unicode_len();
        proof {
            lemma_lex_step_progress(s, i as nat);
        }
        let ghost toks0 = self.tokens@;
        let c = input_string.get_char(i);
        if c == ',' {
            self.tokens.push(Token::Comma);
            proof {
                lemma_token_views_push(toks0, Token::Comma);
                assert(token_views(self.tokens@) =~= token_views(toks0) + seq![TokenView::Comma]);
            }
            i + 1
        } else if c == '(' {
            self.tokens.push(Token::OpenParen);
            proof {
                lemma_token_views_push(toks0, Token::OpenParen);
                assert(token_views(self.tokens@) =~= token_views(toks0) + seq![
                    TokenView::OpenParen,
                ]);
            }
            i + 1
        } else if c == ')' {
            self.tokens.push(Token::CloseParen);
            proof {
                lemma_token_views_push(toks0, Token::CloseParen);
                assert(token_views(self.tokens@) =~= token_views(toks0) + seq![
                    TokenView::CloseParen,
                ]);
            }
            i + 1
        } else if c == '+' {
            self.tokens.push(Token::Add);
            proof {
                lemma_token_views_push(toks0, Token::Add);
                assert(token_views(self.tokens@) =~= token_views(toks0) + seq![TokenView::Add]);
            }
            i + 1
        } else if c == '-' {
            self.tokens.push(Token::Sub);
            proof {
                lemma_token_views_push(toks0, Token::Sub);
                assert(token_views(self.tokens@) =~= token_views(toks0) + seq![TokenView::Sub]);
            }
            i + 1
        } else if c == '*' {
            self.tokens.push(Token::Mul);
            proof {
                lemma_token_views_push(toks0, Token::Mul);
                assert(token_views(self.tokens@) =~= token_views(toks0) + seq![TokenView::Mul]);
            }
            i + 1
        } else if c == '/' {
            self.tokens.push(Token::Div);
            proof {
                lemma_token_views_push(toks0, Token::Div);
                assert(token_views(self.tokens@) =~= token_views(toks0) + seq![TokenView::Div]);
            }
            i + 1
        } else if c == '"' {
            let mut j = i + 1;
            while j < n && input_string.get_char(j) != '"'
                invariant
                    i + 1 <= j <= n,
                    forall|t: int| i + 1 <= t < j ==> s[t] != '"',
                decreases n - j,
            {
                j += 1;
            }
            proof {
                lemma_path_end_is(s, (i + 1) as nat, j as nat);
            }
            if j < n {
                let lexeme = input_string.substring_char(i + 1, j).to_owned();
                self.tokens.push(Token::Path(lexeme));
                proof {
                    lemma_token_views_push(toks0, Token::Path(lexeme));
                    assert(token_views(self.tokens@) =~= token_views(toks0) + seq![
                        TokenView::Path(s.subrange(i as int + 1, j as int)),
                    ]);
                }
                j + 1
            } else {
                self.errors.push(LexError::UnterminatedStringLiteralAtEnd);
                n
            }
        } else if is_space_e(c) {
            i + 1
        } else if c == '=' {
            if i + 1 < n {
                let c2 = input_string.get_char(i + 1);
                if c2 == '>' {
                    self.tokens.push(Token::Derive);
                    proof {
                        lemma_token_views_push(toks0, Token::Derive);
                        assert(token_views(self.tokens@) =~= token_views(toks0) + seq![
                            TokenView::Derive,
                        ]);
                    }
                    i + 2
                } else {
                    self.errors.push(
                        LexError::ExpectCharAfter { pos: i + 1, expected: '>', after: '=', got: c2 },
                    );
                    i + 2
                }
            } else {
                self.errors.push(
                    LexError::ExpectCharAfter { pos: n - 1, expected: '>', after: '=', got: ' ' },
                );
                i + 1
            }
        } else if c == 'd' && n - i >= 3 && input_string.get_char(i + 1) == 'e'
            && input_string.get_char(i + 2) == 'f' && (n - i == 3 || is_space_e(
            input_string.get_char(i + 3),
        )) {
            self.tokens.push(Token::Define);
            proof {
                assert(kw_def_at(s, i as nat));
                lemma_token_views_push(toks0, Token::Define);
                assert(token_views(self.tokens@) =~= token_views(toks0) + seq![TokenView::Define]);
            }
            i + 3
        } else if c == 'e' && n - i >= 3 && input_string.get_char(i + 1) == 'n'
            && input_string.get_char(i + 2) == 'd' && (n - i == 3 || is_space_e(
            input_string.get_char(i + 3),
        )) {
            self.tokens.push(Token::End);
            proof {
                assert(kw_end_at(s, i as nat));
                lemma_token_views_push(toks0, Token::End);
                assert(token_views(self.tokens@) =~= token_views(toks0) + seq![TokenView::End]);
            }
            i + 3
        } else if c == 'a' && n - i >= 2 && input_string.get_char(i + 1) == 's' && (n - i == 2
            || is_space_e(input_string.get_char(i + 2))) {
            self.tokens.push(Token::As);
            proof {
                assert(kw_as_at(s, i as nat));
                lemma_token_views_push(toks0, Token::As);
                assert(token_views(self.tokens@) =~= token_views(toks0) + seq![TokenView::As]);
            }
            i + 2
        } else if c == 'a' && n - i >= 2 && input_string.get_char(i + 1) == 't' && (n - i == 2
            || is_space_e(input_string.get_char(i + 2))) {
            self.tokens.push(Token::At);
            proof {
                assert(kw_at_at(s, i as nat));
                lemma_token_views_push(toks0, Token::At);
                assert(token_views(self.tokens@) =~= token_views(toks0) + seq![TokenView::At]);
            }
            i + 2
        } else if is_ident_start_e(c) {
            proof {
                assert(!kw_def_at(s, i as nat) && !kw_end_at(s, i as nat) && !kw_as_at(s, i as nat)
                    && !kw_at_at(s, i as nat));
            }
            let mut j = i;
            while j < n && is_ident_char_e(input_string.get_char(j))
                invariant
                    i <= j <= n,
                    forall|t: int| i <= t < j ==> is_ident_char(s[t]),
                decreases n - j,
            {
                j += 1;
            }
            proof {
                lemma_ident_end_is(s, i as nat, j as nat);
            }
            let lexeme = input_string.substring_char(i, j).to_owned();
            self.tokens.push(Token::Identifier(lexeme));
            proof {
                lemma_token_views_push(toks0, Token::Identifier(lexeme));
                assert(token_views(self.tokens@) =~= token_views(toks0) + seq![
                    TokenView::Identifier(s.subrange(i as int, j as int)),
                ]);
            }
            j
        } else if is_digit_e(c) {
            let mut j = i;
            let mut acc: Option<usize> = Some(0);
            proof {
                assert(s.subrange(i as int, i as int) =~= Seq::<char>::empty());
            }
            while j < n && is_digit_e(input_string.get_char(j))
                invariant
                    i <= j <= n,
                    forall|t: int| i <= t < j ==> is_digit(s[t]),
                    match acc {
                        Some(a) => a as int == dec_val(s.subrange(i as int, j as int)),
                        None => dec_val(s.subrange(i as int, j as int)) > usize::MAX,
                    },
                decreases n - j,
            {
                let ghost pre = s.subrange(i as int, j as int);
                let d = ((input_string.get_char(j) as u32) - ('0' as u32)) as usize;
                acc = match acc {
                    Some(a) => match a.checked_mul(10) {
                        Some(x) => x.checked_add(d),
                        None => None,
                    },
                    None => None,
                };
                j += 1;
                proof {
                    assert(s.subrange(i as int, j as int).drop_last() =~= pre);
                    assert(dec_val(s.subrange(i as int, j as int)) == dec_val(pre) * 10 + d);
                }
            }
            proof {
                lemma_digit_end_is(s, i as nat, j as nat);
            }
            match acc {
                Some(v) => {
                    self.tokens.push(Token::Number(v));
                    proof {
                        lemma_token_views_push(toks0, Token::Number(v));
                        assert(token_views(self.tokens@) =~= token_views(toks0) + seq![
                            TokenView::Number(
                                dec_val(s.subrange(i as int, j as int)) as nat,
                            ),
                        ]);
                    }
                },
                None => {
                    self.errors.push(LexError::NumberTooLarge { pos: i });
                },
            }
            j
        } else {
            self.errors.push(LexError::UnknownChar { pos: i, got: c });
            i + 1
        }
    }

    /// Scan a whole line, appending its tokens and errors in order to what
    /// was already collected; the cursor is left where it was.
    #[verifier::loop_isolation(false)]
    pub fn lex(&mut self, input_string: &str)
        ensures
            token_views(final(self).tokens@) == token_views(old(self).tokens@) + lex_from(
                input_string@,
                0,
            ).0,
            final(self).errors@ == old(self).errors@ + lex_from(input_string@, 0).1,
            final(self).idx == old(self).idx,
    {
        let ghost s = input_string@;
        let n = input_string.unicode_len();
        let mut i: usize = 0;
        proof {
            assert(token_views(self.tokens@) + lex_from(s, 0).0 =~= token_views(
                old(self).tokens@,
            ) + lex_from(s, 0).0);
            assert(self.errors@ + lex_from(s, 0).1 =~= old(self).errors@ + lex_from(s, 0).1);
        }
        while i < n
            invariant
                i <= n,
                token_views(self.tokens@) + lex_from(s, i as nat).0 == token_views(
                    old(self).tokens@,
                ) + lex_from(s, 0).0,
                self.errors@ + lex_from(s, i as nat).1 == old(self).errors@ + lex_from(s, 0).1,
                self.idx == old(self).idx,
            decreases n - i,
        {
            let ghost i0 = i as nat;
            let ghost toks_pre = self.tokens@;
            let ghost errs_pre = self.errors@;
            let next = self.lex_one(input_string, i);
            proof {
                let st = lex_step(s, i0);
                let rest = lex_from(s, st.2);
                assert(lex_from(s, i0).0 == (match st.0 {
                    Some(t) => seq![t],
                    None => Seq::<TokenView>::empty(),
                }) + rest.0);
                assert(token_views(self.tokens@) + rest.0 =~= token_views(toks_pre) + lex_from(
                    s,
                    i0,
                ).0);
                assert(self.errors@ + rest.1 =~= errs_pre + lex_from(s, i0).1);
            }
            i = next;
        }
        proof {
            assert(lex_from(s, i as nat).0 =~= Seq::<TokenView>::empty());
            assert(token_views(self.tokens@) + lex_from(s, i as nat).0 =~= token_views(
                self.tokens@,
            ));
            assert(self.errors@ + lex_from(s, i as nat).1 =~= self.errors@);
        }
    }

    /// Rewind the cursor to the first token.
    pub fn reset_iter(&mut self)
        ensures
            final(self).tokens@ == old(self).tokens@,
            final(self).errors@ == old(self).errors@,
            final(self).idx == 0,
    {
        self.idx = 0;
    }

    /// The token `n` places past the cursor, if there is one.
    pub fn peek(&self, n: usize) -> (r: Option<&Token>)
        ensures
            match r {
                Some(t) => self.idx + n < self.tokens@.len() && *t == self.tokens@[self.idx as int
                    + n as int],
                None => self.idx + n >= self.tokens@.len(),
            },
    {
        if n < self.tokens.len() && self.idx < self.tokens.len() - n {
            Some(&self.tokens[self.idx + n])
        } else {
            None
        }
    }

    /// The token under the cursor, the cursor moving past it.
    pub fn next(&mut self) -> (r: Option<&Token>)
        ensures
            final(self).tokens@ == old(self).tokens@,
            final(self).errors@ == old(self).errors@,
            match r {
                Some(t) => old(self).idx < old(self).tokens@.len() && final(self).idx == old(
                    self,
                ).idx + 1 && *t == old(self).tokens@[old(self).idx as int],
                None => old(self).idx >= old(self).tokens@.len() && final(self).idx == old(
                    self,
                ).idx,
            },
    {
        if self.idx < self.tokens.len() {
            let i = self.idx;
            self.idx = self.idx + 1;
            Some(&self.tokens[i])
        } else {
            None
        }
    }

    /// Whether the cursor is past the last token.
    pub fn is_at_end(&self) -> (r: bool)
        ensures
            r == (self.idx >= self.tokens@.len()),
    {
        self.idx >= self.tokens.len()
    }
}

} // verus!
