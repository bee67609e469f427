//! Splits one line of script8 source into tokens.
use crate::text::{chars_of, is_whitespace, lemma_take_word_len, take_word, words};
use vstd::prelude::*;
use vstd::string::*;

verus! {

/// One lexical token of script8.
///
/// A numeric literal keeps the text it was written with; turning that text
/// into a number is left to the caller.
#[derive(Debug, PartialEq, Eq)]
pub enum Token {
    Identifier(String),
    Keyword(String),
    /// Operator text and its precedence (a higher number binds tighter).
    Operator(String, u8),
    NumericLiteral(String),
    OpenParen,
    CloseParen,
    /// The number of spaces that open the line.
    WhitespaceBlock(u8),
}

/// The mathematical value of a [`Token`]: its text as a sequence of characters.
pub enum TokenView {
    Identifier(Seq<char>),
    Keyword(Seq<char>),
    Operator(Seq<char>, u8),
    NumericLiteral(Seq<char>),
    OpenParen,
    CloseParen,
    WhitespaceBlock(u8),
}

impl View for Token {
    type V = TokenView;

    open spec fn view(&self) -> TokenView {
        match self {
            Token::Identifier(s) => TokenView::Identifier(s@),
            Token::Keyword(s) => TokenView::Keyword(s@),
            Token::Operator(s, p) => TokenView::Operator(s@, *p),
            Token::NumericLiteral(s) => TokenView::NumericLiteral(s@),
            Token::OpenParen => TokenView::OpenParen,
            Token::CloseParen => TokenView::CloseParen,
            Token::WhitespaceBlock(n) => TokenView::WhitespaceBlock(*n),
        }
    }
}

/// The values of a sequence of boxed tokens.
pub open spec fn tokens_view(ts: Seq<Box<Token>>) -> Seq<TokenView> {
    ts.map_values(|t: Box<Token>| t@)
}

/// The reserved words of script8.
pub open spec fn is_keyword(w: Seq<char>) -> bool {
    ||| w == seq!['i', 'f']
    ||| w == seq!['e', 'l', 's', 'e']
    ||| w == seq!['f', 'u', 'n', 'c', 't', 'i', 'o', 'n']
    ||| w == seq!['=']
}

/// The precedence of an operator word: `+` and `-` bind with 1, `*` with 2.
pub open spec fn operator_precedence(w: Seq<char>) -> Option<u8> {
    if w == seq!['+'] || w == seq!['-'] {
        Some(1u8)
    } else if w == seq!['*'] {
        Some(2u8)
    } else {
        None
    }
}

/// An ASCII decimal digit, as `char::is_digit(10)` accepts.
pub open spec fn is_decimal_digit(c: char) -> bool {
    '0' <= c && c <= '9'
}

/// The token that a non-empty bare word stands for.
pub open spec fn classify(w: Seq<char>) -> TokenView
    recommends
        w.len() > 0,
{
    if is_keyword(w) {
        TokenView::Keyword(w)
    } else if operator_precedence(w) is Some {
        TokenView::Operator(w, operator_precedence(w)->0)
    } else if is_decimal_digit(w[0]) || w[0] == '.' {
        TokenView::NumericLiteral(w)
    } else if w[0] == '(' {
        TokenView::OpenParen
    } else if w[0] == ')' {
        TokenView::CloseParen
    } else {
        TokenView::Identifier(w)
    }
}

/// Whether a word starts with an opening parenthesis.
pub open spec fn opens(w: Seq<char>) -> bool {
    w.len() > 0 && w[0] == '('
}

/// A word without its one leading `(`, if it has one.
pub open spec fn strip_open(w: Seq<char>) -> Seq<char> {
    if opens(w) {
        w.drop_first()
    } else {
        w
    }
}

/// Whether a word, once its leading `(` is gone, ends with a closing parenthesis.
pub open spec fn closes(w: Seq<char>) -> bool {
    strip_open(w).len() > 0 && strip_open(w).last() == ')'
}

/// A word without one leading `(` and then one trailing `)`.
pub open spec fn core_of(w: Seq<char>) -> Seq<char> {
    if closes(w) {
        strip_open(w).drop_last()
    } else {
        strip_open(w)
    }
}

/// A word can be lexed when something is left of it once its parentheses are gone
/// (the words `(`, `)` and `()` cannot).
pub open spec fn word_lexable(w: Seq<char>) -> bool {
    core_of(w).len() > 0
}

/// The tokens of one word: an opening parenthesis, the classified core, a closing one.
pub open spec fn word_tokens(w: Seq<char>) -> Seq<TokenView> {
    (if opens(w) {
        seq![TokenView::OpenParen]
    } else {
        Seq::empty()
    }) + seq![classify(core_of(w))] + (if closes(w) {
        seq![TokenView::CloseParen]
    } else {
        Seq::empty()
    })
}

/// The tokens of a sequence of words, one word after the other.
pub open spec fn tokens_of_words(ws: Seq<Seq<char>>) -> Seq<TokenView>
    decreases ws.len(),
{
    if ws.len() == 0 {
        Seq::empty()
    } else {
        word_tokens(ws[0]) + tokens_of_words(ws.drop_first())
    }
}

/// The number of space characters that open `s`.
pub open spec fn leading_spaces(s: Seq<char>) -> nat
    decreases s.len(),
{
    if s.len() > 0 && s[0] == ' ' {
        1 + leading_spaces(s.drop_first())
    } else {
        0
    }
}

/// The tokens of a line: a block token for its indentation, then the tokens of its words.
pub open spec fn lex_spec(s: Seq<char>) -> Seq<TokenView> {
    (if leading_spaces(s) > 0 {
        seq![TokenView::WhitespaceBlock(leading_spaces(s) as u8)]
    } else {
        Seq::empty()
    }) + tokens_of_words(words(s))
}

/// A line can be lexed when its indentation fits in a byte and each word can be lexed.
pub open spec fn lexable(s: Seq<char>) -> bool {
    &&& leading_spaces(s) <= 255
    &&& forall|i: int| 0 <= i < words(s).len() ==> word_lexable(#[trigger] words(s)[i])
}

fn is_ascii_digit(c: char) -> (r: bool)
    ensures
        r == is_decimal_digit(c),
{
    '0' <= c && c <= '9'
}

/// An owned copy of the characters `a..b` of `line`.
fn text_of(line: &str, a: usize, b: usize) -> (s: String)
    requires
        a <= b <= line@.len(),
    ensures
        s@ == line@.subrange(a as int, b as int),
{
    String::from_str(line.substring_char(a, b))
}

/// The token of the non-empty bare word `cs[a..b]`.
fn classify_range(line: &str, cs: &Vec<char>, a: usize, b: usize) -> (t: Token)
    requires
        cs@ == line@,
        a < b <= cs.len(),
    ensures
        t@ == classify(cs@.subrange(a as int, b as int)),
{
    let ghost w = cs@.subrange(a as int, b as int);
    let n = b - a;
    let kw_if = n == 2 && cs[a] == 'i' && cs[a + 1] == 'f';
    let kw_else = n == 4 && cs[a] == 'e' && cs[a + 1] == 'l' && cs[a + 2] == 's' && cs[a + 3]
        == 'e';
    let kw_function = n == 8 && cs[a] == 'f' && cs[a + 1] == 'u' && cs[a + 2] == 'n' && cs[a
        + 3] == 'c' && cs[a + 4] == 't' && cs[a + 5] == 'i' && cs[a + 6] == 'o' && cs[a + 7]
        == 'n';
    let kw_assign = n == 1 && cs[a] == '=';
    let op_low = n == 1 && (cs[a] == '+' || cs[a] == '-');
    let op_high = n == 1 && cs[a] == '*';
    proof {
        assert(w.len() == n as int);
        assert(forall|k: int| 0 <= k < n ==> w[k] == cs@[a + k]);
        assert(kw_if == (w =~= seq!['i', 'f']));
        assert(kw_else == (w =~= seq!['e', 'l', 's', 'e']));
        assert(kw_function == (w =~= seq!['f', 'u', 'n', 'c', 't', 'i', 'o', 'n']));
        if n == 1 {
            assert(w =~= seq![w[0]]);
        }
        assert(kw_assign == (w =~= seq!['=']));
        assert(op_low == (w =~= seq!['+'] || w =~= seq!['-']));
        assert(op_high == (w =~= seq!['*']));
        assert(w[0] == cs[a as int]);
    }
    if kw_if || kw_else || kw_function || kw_assign {
        Token::Keyword(text_of(line, a, b))
    } else if op_low {
        Token::Operator(text_of(line, a, b), 1)
    } else if op_high {
        Token::Operator(text_of(line, a, b), 2)
    } else if is_ascii_digit(cs[a]) || cs[a] == '.' {
        Token::NumericLiteral(text_of(line, a, b))
    } else if cs[a] == '(' {
        Token::OpenParen
    } else if cs[a] == ')' {
        Token::CloseParen
    } else {
        Token::Identifier(text_of(line, a, b))
    }
}

fn push_token(tokens: &mut Vec<Box<Token>>, t: Token)
    ensures
        tokens_view(final(tokens)@) == tokens_view(old(tokens)@).push(t@),
{
    let ghost t_view = t@;
    tokens.push(Box::new(t));
    assert(tokens_view(tokens@) =~= tokens_view(old(tokens)@).push(t_view));
}

/// Appends the tokens of the word `cs[a..b]`.
fn push_word_tokens(line: &str, cs: &Vec<char>, a: usize, b: usize, tokens: &mut Vec<Box<Token>>)
    requires
        cs@ == line@,
        a < b <= cs.len(),
        word_lexable(cs@.subrange(a as int, b as int)),
    ensures
        tokens_view(final(tokens)@) == tokens_view(old(tokens)@) + word_tokens(
            cs@.subrange(a as int, b as int),
        ),
{
    let ghost w = cs@.subrange(a as int, b as int);
    let ghost start = tokens_view(tokens@);
    let mut s = a;
    let mut e = b;
    let open = cs[s] == '(';
    if open {
        push_token(tokens, Token::OpenParen);
        s = s + 1;
    }
    assert(strip_open(w) =~= cs@.subrange(s as int, b as int));
    let close = s < e && cs[e - 1] == ')';
    if close {
        e = e - 1;
    }
    assert(core_of(w) =~= cs@.subrange(s as int, e as int));
    let t = classify_range(line, cs, s, e);
    push_token(tokens, t);
    if close {
        push_token(tokens, Token::CloseParen);
    }
    assert(tokens_view(tokens@) =~= start + word_tokens(w));
}

/// Lexes one line of code.
///
/// A line opening with spaces gives first a [`Token::WhitespaceBlock`] with
/// their number. Each white-space separated word then gives its tokens: an
/// [`Token::OpenParen`] for one leading `(`, the token of what is left (a
/// keyword, an operator, a numeric literal, a parenthesis or an identifier),
/// and a [`Token::CloseParen`] for one trailing `)`.
pub fn lex(line: &str) -> (tokens: Vec<Box<Token>>)
    requires
        lexable(line@),
    ensures
        tokens_view(tokens@) == lex_spec(line@),
{
    let cs = chars_of(line);
    let n = cs.len();
    let mut tokens: Vec<Box<Token>> = Vec::new();

    let mut whitespace_count: u8 = 0;
    let mut k: usize = 0;
    assert(cs@.skip(0) =~= cs@);
    while k < n && cs[k] == ' '
        invariant
            n == cs.len(),
            cs@ == line@,
            k <= n,
            leading_spaces(line@) <= 255,
            whitespace_count == k,
            leading_spaces(line@) == k + leading_spaces(cs@.skip(k as int)),
        decreases n - k,
    {
        assert(cs@.skip(k as int).drop_first() =~= cs@.skip(k + 1));
        whitespace_count = whitespace_count + 1;
        k = k + 1;
    }
    assert(leading_spaces(line@) == whitespace_count);
    if whitespace_count > 0 {
        push_token(&mut tokens, Token::WhitespaceBlock(whitespace_count));
    }
    let ghost prefix = tokens_view(tokens@);
    assert(prefix + tokens_of_words(words(cs@.skip(0))) =~= lex_spec(line@)) by {
        assert(cs@.skip(0) =~= cs@);
    }

    let mut i: usize = 0;
    assert(cs@.skip(0) =~= cs@);
    while i < n
        invariant
            n == cs.len(),
            cs@ == line@,
            i <= n,
            lexable(line@),
            forall|j: int|
                0 <= j < words(cs@.skip(i as int)).len() ==> word_lexable(
                    #[trigger] words(cs@.skip(i as int))[j],
                ),
            tokens_view(tokens@) + tokens_of_words(words(cs@.skip(i as int))) == lex_spec(
                line@,
            ),
        decreases n - i,
    {
        let ghost rest = cs@.skip(i as int);
        if is_whitespace(cs[i]) {
            assert(rest.drop_first() =~= cs@.skip(i + 1));
            i = i + 1;
        } else {
            let start = i;
            proof {
                lemma_take_word_len(rest);
            }
            while i < n && !is_whitespace(cs[i])
                invariant
                    n == cs.len(),
                    start <= i <= n,
                    take_word(rest) == cs@.subrange(start as int, i as int) + take_word(
                        cs@.skip(i as int),
                    ),
                decreases n - i,
            {
                assert(cs@.skip(i as int).drop_first() =~= cs@.skip(i + 1));
                assert(cs@.subrange(start as int, i + 1) =~= cs@.subrange(start as int, i as int)
                    + seq![cs@[i as int]]);
                i = i + 1;
            }
            assert(take_word(cs@.skip(i as int)) =~= Seq::<char>::empty());
            assert(take_word(rest) =~= cs@.subrange(start as int, i as int));
            let ghost w = take_word(rest);
            assert(words(rest) == seq![w] + words(rest.skip(w.len() as int)));
            assert(rest.skip(w.len() as int) =~= cs@.skip(i as int));
            assert(words(rest)[0] == w);
            assert((seq![w] + words(cs@.skip(i as int))).drop_first() =~= words(
                cs@.skip(i as int),
            ));
            assert forall|j: int|
                0 <= j < words(cs@.skip(i as int)).len() implies word_lexable(
                #[trigger] words(cs@.skip(i as int))[j],
            ) by {
                assert(words(cs@.skip(i as int))[j] == words(rest)[j + 1]);
            }
            push_word_tokens(line, &cs, start, i, &mut tokens);
        }
    }
    assert(words(cs@.skip(n as int)) =~= Seq::<Seq<char>>::empty());
    tokens
}

/// How a non-empty bare word is classified, case by case: the four keywords,
/// the three operators with their precedences, then by its first character a
/// numeric literal (an ASCII digit `0` to `9` or a dot), a parenthesis, or else
/// an identifier.
pub proof fn classify_cases(w: Seq<char>)
    requires
        w.len() > 0,
    ensures
        w == seq!['i', 'f'] ==> classify(w) == TokenView::Keyword(w),
        w == seq!['e', 'l', 's', 'e'] ==> classify(w) == TokenView::Keyword(w),
        w == seq!['f', 'u', 'n', 'c', 't', 'i', 'o', 'n'] ==> classify(w) == TokenView::Keyword(w),
        w == seq!['='] ==> classify(w) == TokenView::Keyword(w),
        w == seq!['+'] ==> classify(w) == TokenView::Operator(w, 1),
        w == seq!['-'] ==> classify(w) == TokenView::Operator(w, 1),
        w == seq!['*'] ==> classify(w) == TokenView::Operator(w, 2),
        w.len() >= 2 || !(w[0] == '=' || w[0] == '+' || w[0] == '-' || w[0] == '*') ==> {
            &&& ('0' <= w[0] && w[0] <= '9') || w[0] == '.' ==> classify(w)
                == TokenView::NumericLiteral(w)
            &&& w[0] == '(' ==> classify(w) == TokenView::OpenParen
            &&& w[0] == ')' ==> classify(w) == TokenView::CloseParen
            &&& !('0' <= w[0] && w[0] <= '9') && w[0] != '.' && w[0] != '(' && w[0] != ')' && w
                != seq!['i', 'f'] && w != seq!['e', 'l', 's', 'e'] && w != seq![
                'f',
                'u',
                'n',
                'c',
                't',
                'i',
                'o',
                'n',
            ] ==> classify(w) == TokenView::Identifier(w)
        },
{
    if w.len() == 1 {
        assert(w =~= seq![w[0]]);
    }
    let s1: Seq<char> = seq!['+'];
    let s2: Seq<char> = seq!['-'];
    let s3: Seq<char> = seq!['*'];
    let s4: Seq<char> = seq!['='];
    assert(s1.len() == 1 && s1[0] == '+');
    assert(s2.len() == 1 && s2[0] == '-');
    assert(s3.len() == 1 && s3[0] == '*');
    assert(s4.len() == 1 && s4[0] == '=');
    let k1: Seq<char> = seq!['i', 'f'];
    let k2: Seq<char> = seq!['e', 'l', 's', 'e'];
    let k3: Seq<char> = seq!['f', 'u', 'n', 'c', 't', 'i', 'o', 'n'];
    assert(k1[0] == 'i' && k2[0] == 'e' && k3[0] == 'f');
}

/// A word that is neither a keyword nor an operator and starts with an ASCII
/// decimal digit or a dot is a numeric literal of that word.
pub proof fn digit_words_are_numbers(w: Seq<char>)
    requires
        w.len() > 0,
        ('0' <= w[0] && w[0] <= '9') || w[0] == '.',
    ensures
        classify(w) == TokenView::NumericLiteral(w),
{
    classify_cases(w);
}

/// The tokens of one word: a leading `(` gives an opening parenthesis first,
/// a trailing `)` (after that) a closing one last, and what is between them
/// is classified; a word with no parenthesis at either end is one token.
pub proof fn word_token_parts(w: Seq<char>)
    requires
        w.len() > 0,
    ensures
        w[0] != '(' && w.last() != ')' ==> word_tokens(w) == seq![classify(w)],
        w[0] == '(' && w.len() >= 2 && w.last() != ')' ==> word_tokens(w) == seq![
            TokenView::OpenParen,
            classify(w.drop_first()),
        ],
        w[0] != '(' && w.last() == ')' ==> word_tokens(w) == seq![
            classify(w.drop_last()),
            TokenView::CloseParen,
        ],
        w[0] == '(' && w.len() >= 2 && w.last() == ')' ==> word_tokens(w) == seq![
            TokenView::OpenParen,
            classify(w.subrange(1, w.len() - 1)),
            TokenView::CloseParen,
        ],
{
    if w[0] == '(' && w.len() >= 2 {
        assert(w.drop_first().last() == w.last());
        assert(w.drop_first().drop_last() =~= w.subrange(1, w.len() - 1));
    }
    assert(word_tokens(w) =~= (if opens(w) {
        seq![TokenView::OpenParen]
    } else {
        Seq::empty()
    }) + seq![classify(core_of(w))] + (if closes(w) {
        seq![TokenView::CloseParen]
    } else {
        Seq::empty()
    }));
    if w[0] != '(' && w.last() != ')' {
        assert(word_tokens(w) =~= seq![classify(w)]);
    } else if w[0] == '(' && w.len() >= 2 && w.last() != ')' {
        assert(word_tokens(w) =~= seq![TokenView::OpenParen, classify(w.drop_first())]);
    } else if w[0] != '(' && w.last() == ')' {
        assert(word_tokens(w) =~= seq![classify(w.drop_last()), TokenView::CloseParen]);
    } else if w[0] == '(' && w.len() >= 2 && w.last() == ')' {
        assert(word_tokens(w) =~= seq![
            TokenView::OpenParen,
            classify(w.subrange(1, w.len() - 1)),
            TokenView::CloseParen,
        ]);
    }
}

/// The decimal digits, in order of value.
pub open spec fn decimal_digits() -> Seq<char> {
    seq!['0', '1', '2', '3', '4', '5', '6', '7', '8', '9']
}

/// The decimal numeral of `n`, without leading zeros.
pub open spec fn decimal(n: nat) -> Seq<char>
    decreases n,
{
    if n < 10 {
        seq![decimal_digits()[n as int]]
    } else {
        decimal(n / 10).push(decimal_digits()[(n % 10) as int])
    }
}

/// How a token is shown: words as written, an operator as `(text precedence)`,
/// parentheses as themselves and indentation as `<count>spaces`.
pub open spec fn token_text(t: TokenView) -> Seq<char> {
    match t {
        TokenView::Identifier(s) => s,
        TokenView::Keyword(s) => s,
        TokenView::Operator(s, p) => seq!['('] + s + seq![' '] + decimal(p as nat) + seq![')'],
        TokenView::NumericLiteral(s) => s,
        TokenView::OpenParen => seq!['('],
        TokenView::CloseParen => seq![')'],
        TokenView::WhitespaceBlock(n) => decimal(n as nat) + seq!['s', 'p', 'a', 'c', 'e', 's'],
    }
}

/// The decimal numeral of a byte.
fn decimal_text(n: u8) -> (r: String)
    ensures
        r@ == decimal(n as nat),
{
    let digits = "0123456789";
    proof {
        reveal_strlit("0123456789");
        assert(digits@ =~= decimal_digits());
    }
    let mut r = String::new();
    if n >= 100 {
        let h = (n / 100) as usize;
        r.append(digits.substring_char(h, h + 1));
    }
    if n >= 10 {
        let t = ((n / 10) % 10) as usize;
        r.append(digits.substring_char(t, t + 1));
    }
    let u = (n % 10) as usize;
    r.append(digits.substring_char(u, u + 1));
    proof {
        let m = n as nat;
        if m >= 100 {
            assert(decimal(m / 10) == decimal(m / 100).push(decimal_digits()[((m / 10) % 10) as int]));
            assert(decimal(m / 100) == seq![decimal_digits()[(m / 100) as int]]);
        } else if m >= 10 {
            assert(decimal(m / 10) == seq![decimal_digits()[(m / 10) as int]]);
        }
        assert(r@ =~= decimal(m));
    }
    r
}

impl Token {
    /// The text that shows this token (see [`token_text`]).
    pub fn to_text(&self) -> (r: String)
        ensures
            r@ == token_text(self@),
    {
        match self {
            Token::Identifier(s) => s.clone(),
            Token::Keyword(s) => s.clone(),
            Token::Operator(s, p) => {
                let mut r = String::from_str("(");
                r.append(s.as_str());
                r.append(" ");
                let d = decimal_text(*p);
                r.append(d.as_str());
                r.append(")");
                proof {
                    reveal_strlit("(");
                    reveal_strlit(" ");
                    reveal_strlit(")");
                    assert(r@ =~= token_text(self@));
                }
                r
            },
            Token::NumericLiteral(s) => s.clone(),
            Token::OpenParen => {
                proof {
                    reveal_strlit("(");
                }
                String::from_str("(")
            },
            Token::CloseParen => {
                proof {
                    reveal_strlit(")");
                }
                String::from_str(")")
            },
            Token::WhitespaceBlock(n) => {
                let mut r = decimal_text(*n);
                r.append("spaces");
                proof {
                    reveal_strlit("spaces");
                    assert(r@ =~= token_text(self@));
                }
                r
            },
        }
    }
}

} // verus!
