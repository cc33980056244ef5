use vstd::prelude::*;
use vstd::pervasive::unreached;
use crate::text::{append_i32, digit_text, int_text, nat_text};

verus! {

/// Literal 'raw' tokens.
#[derive(Debug)]
pub enum Token {
    /// `{`
    OpenBrace,
    /// `}`
    CloseBrace,
    /// `(`
    OpenParen,
    /// `)`
    CloseParen,
    /// `;`
    Semicolon,
    /// `-`
    Minus,
    /// `~`
    Tilde,
    /// `!`
    Exclamation,
    /// `+`
    Plus,
    /// `*`
    Star,
    /// `/`
    Slash,
    /// `&&`
    And,
    /// `||`
    Or,
    /// `==`
    Equal,
    /// `!=`
    Unequal,
    /// `<`
    Less,
    /// `<=`
    LessEqual,
    /// `>`
    Greater,
    /// `>=`
    GreaterEqual,
    /// `=`
    Assign,
    /// `int`, `return`
    Keyword(Keyword),
    LiteralInt(i32),
    /// `abcDEF`
    Identifier(String),
}

/// Keywords of the language.
#[derive(Clone, Copy, Debug, Default, PartialEq, Eq, Structural)]
pub enum Keyword {
    INT,
    #[default]
    RETURN,
}

/// Errors of the lexer.
#[derive(Clone, Copy, Debug, PartialEq, Eq, Structural)]
pub enum LexError {
    /// The token pattern was refused by the regular expression engine.
    InvalidPattern,
    /// A match came from a token alternative (numbered from 0) that names no token.
    UnknownToken(usize),
    /// An integer literal does not fit in an `i32`.
    NotANumber,
}

/// The printed form of a token.
pub open spec fn token_text(t: Token) -> Seq<char> {
    match t {
        Token::OpenBrace => "{"@,
        Token::CloseBrace => "}"@,
        Token::OpenParen => "("@,
        Token::CloseParen => ")"@,
        Token::Semicolon => ";"@,
        Token::Minus => "-"@,
        Token::Tilde => "~"@,
        Token::Exclamation => "!"@,
        Token::Plus => "+"@,
        Token::Star => "*"@,
        Token::Slash => "/"@,
        Token::And => "&&"@,
        Token::Or => "||"@,
        Token::Equal => "=="@,
        Token::Unequal => "!="@,
        Token::Less => "<"@,
        Token::LessEqual => "<="@,
        Token::Greater => ">"@,
        Token::GreaterEqual => ">="@,
        Token::Assign => "="@,
        Token::Keyword(Keyword::INT) => "KEYWORD_INT"@,
        Token::Keyword(Keyword::RETURN) => "KEYWORD_RETURN"@,
        Token::Identifier(name) => "ID("@ + name@ + ")"@,
        Token::LiteralInt(n) => "INT("@ + int_text(n as int) + ")"@,
    }
}

/// Two tokens are the same token: same kind, and the same name or value where they carry one.
pub open spec fn same_token(a: Token, b: Token) -> bool {
    match (a, b) {
        (Token::OpenBrace, Token::OpenBrace) => true,
        (Token::CloseBrace, Token::CloseBrace) => true,
        (Token::OpenParen, Token::OpenParen) => true,
        (Token::CloseParen, Token::CloseParen) => true,
        (Token::Semicolon, Token::Semicolon) => true,
        (Token::Minus, Token::Minus) => true,
        (Token::Tilde, Token::Tilde) => true,
        (Token::Exclamation, Token::Exclamation) => true,
        (Token::Plus, Token::Plus) => true,
        (Token::Star, Token::Star) => true,
        (Token::Slash, Token::Slash) => true,
        (Token::And, Token::And) => true,
        (Token::Or, Token::Or) => true,
        (Token::Equal, Token::Equal) => true,
        (Token::Unequal, Token::Unequal) => true,
        (Token::Less, Token::Less) => true,
        (Token::LessEqual, Token::LessEqual) => true,
        (Token::Greater, Token::Greater) => true,
        (Token::GreaterEqual, Token::GreaterEqual) => true,
        (Token::Assign, Token::Assign) => true,
        (Token::Keyword(k1), Token::Keyword(k2)) => k1 == k2,
        (Token::LiteralInt(n1), Token::LiteralInt(n2)) => n1 == n2,
        (Token::Identifier(s1), Token::Identifier(s2)) => s1@ == s2@,
        _ => false,
    }
}

impl Clone for Token {
    fn clone(&self) -> (r: Self)
        ensures
            r == *self,
    {
        match self {
            Token::OpenBrace => Token::OpenBrace,
            Token::CloseBrace => Token::CloseBrace,
            Token::OpenParen => Token::OpenParen,
            Token::CloseParen => Token::CloseParen,
            Token::Semicolon => Token::Semicolon,
            Token::Minus => Token::Minus,
            Token::Tilde => Token::Tilde,
            Token::Exclamation => Token::Exclamation,
            Token::Plus => Token::Plus,
            Token::Star => Token::Star,
            Token::Slash => Token::Slash,
            Token::And => Token::And,
            Token::Or => Token::Or,
            Token::Equal => Token::Equal,
            Token::Unequal => Token::Unequal,
            Token::Less => Token::Less,
            Token::LessEqual => Token::LessEqual,
            Token::Greater => Token::Greater,
            Token::GreaterEqual => Token::GreaterEqual,
            Token::Assign => Token::Assign,
            Token::Keyword(k) => Token::Keyword(*k),
            Token::LiteralInt(n) => Token::LiteralInt(*n),
            Token::Identifier(name) => Token::Identifier(name.clone()),
        }
    }
}

impl Token {
    /// The printed form of the token, such as `KEYWORD_INT`, `ID(main)` or `INT(2)`.
    pub fn to_string(&self) -> (s: String)
        ensures
            s@ == token_text(*self),
    {
        let mut s = String::new();
        match self {
            Token::OpenBrace => s.append("{"),
            Token::CloseBrace => s.append("}"),
            Token::OpenParen => s.append("("),
            Token::CloseParen => s.append(")"),
            Token::Semicolon => s.append(";"),
            Token::Minus => s.append("-"),
            Token::Tilde => s.append("~"),
            Token::Exclamation => s.append("!"),
            Token::Plus => s.append("+"),
            Token::Star => s.append("*"),
            Token::Slash => s.append("/"),
            Token::And => s.append("&&"),
            Token::Or => s.append("||"),
            Token::Equal => s.append("=="),
            Token::Unequal => s.append("!="),
            Token::Less => s.append("<"),
            Token::LessEqual => s.append("<="),
            Token::Greater => s.append(">"),
            Token::GreaterEqual => s.append(">="),
            Token::Assign => s.append("="),
            Token::Keyword(Keyword::INT) => s.append("KEYWORD_INT"),
            Token::Keyword(Keyword::RETURN) => s.append("KEYWORD_RETURN"),
            Token::Identifier(name) => {
                s.append("ID(");
                s.append(name.as_str());
                s.append(")");
            },
            Token::LiteralInt(n) => {
                s.append("INT(");
                append_i32(&mut s, *n);
                s.append(")");
            },
        }
        s
    }

    /// Whether the two tokens are the same token.
    pub fn same_as(&self, other: &Token) -> (b: bool)
        ensures
            b == same_token(*self, *other),
    {
        match (self, other) {
            (Token::OpenBrace, Token::OpenBrace) => true,
            (Token::CloseBrace, Token::CloseBrace) => true,
            (Token::OpenParen, Token::OpenParen) => true,
            (Token::CloseParen, Token::CloseParen) => true,
            (Token::Semicolon, Token::Semicolon) => true,
            (Token::Minus, Token::Minus) => true,
            (Token::Tilde, Token::Tilde) => true,
            (Token::Exclamation, Token::Exclamation) => true,
            (Token::Plus, Token::Plus) => true,
            (Token::Star, Token::Star) => true,
            (Token::Slash, Token::Slash) => true,
            (Token::And, Token::And) => true,
            (Token::Or, Token::Or) => true,
            (Token::Equal, Token::Equal) => true,
            (Token::Unequal, Token::Unequal) => true,
            (Token::Less, Token::Less) => true,
            (Token::LessEqual, Token::LessEqual) => true,
            (Token::Greater, Token::Greater) => true,
            (Token::GreaterEqual, Token::GreaterEqual) => true,
            (Token::Assign, Token::Assign) => true,
            (Token::Keyword(k1), Token::Keyword(k2)) => *k1 == *k2,
            (Token::LiteralInt(n1), Token::LiteralInt(n2)) => *n1 == *n2,
            (Token::Identifier(s1), Token::Identifier(s2)) => *s1 == *s2,
            _ => false,
        }
    }
}


/// The alternatives of the token grammar, in the order in which the regular expression tries
/// them at each position; capture group `i + 1` of the pattern is alternative `i`. A combined
/// symbol comes before the symbol that begins it (`!=` before `!`, `<=` before `<`), since the
/// engine takes the first alternative that matches.
pub const TOKEN_PATTERN: &'static str = r"(?x)
    (?P<brace_open>\{)    |
    (?P<brace_close>\})   |
    (?P<paren_open>\()    |
    (?P<paren_close>\))   |
    (?P<semicolon>\;)     |
    (?P<kw_int>int)\b     |
    (?P<kw_return>return)\b |
    (?P<ident>[a-zA-Z]\w*) |
    (?P<lit_int>[0-9]+)   |
    (?P<minus>\-)         |
    (?P<tilde>\~)         |
    (?P<unequal>\!\=)     |
    (?P<excl>\!)          |
    (?P<plus>\+)          |
    (?P<star>\*)          |
    (?P<slash>\/)         |
    (?P<and>\&\&)         |
    (?P<or>\|\|)          |
    (?P<equal>\=\=)       |
    (?P<less_equal><\=)  |
    (?P<less><)          |
    (?P<greater_equal>>\=) |
    (?P<greater>>)       |
    (?P<assign>\=)
    ";

/// The number of capture groups, that is of token alternatives, in `TOKEN_PATTERN`.
pub const TOKEN_GROUPS: usize = 24;

/// What the regular expression engine reports when it scans `text` with `pattern`: `None` when
/// it refuses the pattern, else each successive match as its whole text together with, for
/// each capture group of the pattern in order, whether that group took part in the match.
pub uninterp spec fn regex_scan(pattern: Seq<char>, text: Seq<char>) -> Option<
    Seq<(Seq<char>, Seq<bool>)>,
>;

/// `m` occurs in `text` at position `i`.
pub open spec fn occurs_at(m: Seq<char>, text: Seq<char>, i: int) -> bool {
    0 <= i && i + m.len() <= text.len() && text.subrange(i, i + m.len()) == m
}

/// The texts `ms` occur in `text` one after the other, without overlapping: each at or after
/// the end of the one before.
pub open spec fn occur_in_order(ms: Seq<Seq<char>>, text: Seq<char>) -> bool
    decreases ms.len(),
{
    if ms.len() == 0 {
        true
    } else {
        exists|i: int|
            #[trigger] occurs_at(ms[0], text, i) && occur_in_order(
                ms.drop_first(),
                text.skip(i + ms[0].len()),
            )
    }
}

/// The whole texts of a list of matches.
pub open spec fn match_texts(caps: Seq<(Seq<char>, Seq<bool>)>) -> Seq<Seq<char>> {
    caps.map_values(|c: (Seq<char>, Seq<bool>)| c.0)
}

/// The plain values that a list of matches holds.
pub open spec fn captures_view(caps: Seq<(String, Vec<bool>)>) -> Seq<(Seq<char>, Seq<bool>)> {
    caps.map_values(|c: (String, Vec<bool>)| (c.0@, c.1@))
}

/// Compiles `pattern` with `regex::Regex::new` and, where it is accepted, scans `text` with
/// `Regex::captures_iter`, handing out each match as its whole text (`Captures` index 0) and,
/// for each capture group from 1 on, whether `Captures::get` finds it. Claimed: `None` exactly
/// when `Regex::new` returns an error, and the result is the named `regex_scan` of the pattern
/// and the text, a function of the two alone; and, as `captures_iter` documents ("successive
/// non-overlapping matches"), the matched texts occur in `text` in order without overlapping.
/// Not claimed: which matches the engine finds.
#[verifier::external_body]
fn scan_with_regex(pattern: &str, text: &str) -> (res: Option<Vec<(String, Vec<bool>)>>)
    ensures
        (match res {
            Some(v) => regex_scan(pattern@, text@) == Some(captures_view(v@)),
            None => regex_scan(pattern@, text@) is None,
        }),
        res matches Some(v) ==> occur_in_order(match_texts(captures_view(v@)), text@),
{
    let re = regex::Regex::new(pattern).ok()?;
    Some(
        re.captures_iter(text).map(
            |c| (c[0].to_string(), (1..c.len()).map(|i| c.get(i).is_some()).collect()),
        ).collect(),
    )
}

/// An ASCII decimal digit.
pub open spec fn is_digit(c: char) -> bool {
    '0' <= c && c <= '9'
}

/// The value of a string of decimal digits.
pub open spec fn digits_value(s: Seq<char>) -> int
    decreases s.len(),
{
    if s.len() == 0 {
        0
    } else {
        digits_value(s.drop_last()) * 10 + (s.last() as int - '0' as int)
    }
}

/// The digits that follow an optional leading sign.
pub open spec fn unsigned_part(s: Seq<char>) -> Seq<char> {
    if s.len() > 0 && (s[0] == '-' || s[0] == '+') {
        s.skip(1)
    } else {
        s
    }
}

/// An `i32` in decimal, as `str::parse::<i32>` reads it: an optional sign, then one digit or
/// more, and a value in range.
pub open spec fn parse_i32(s: Seq<char>) -> Option<i32> {
    let body = unsigned_part(s);
    let v = if s.len() > 0 && s[0] == '-' {
        -digits_value(body)
    } else {
        digits_value(body)
    };
    if body.len() > 0 && (forall|i: int| 0 <= i < body.len() ==> is_digit(#[trigger] body[i]))
        && i32::MIN <= v <= i32::MAX {
        Some(v as i32)
    } else {
        None
    }
}

proof fn lemma_digits_value_nonneg(s: Seq<char>)
    requires
        forall|i: int| 0 <= i < s.len() ==> is_digit(#[trigger] s[i]),
    ensures
        digits_value(s) >= 0,
    decreases s.len(),
{
    if s.len() > 0 {
        lemma_digits_value_nonneg(s.drop_last());
    }
}

proof fn lemma_digits_value_prefix(s: Seq<char>, k: int)
    requires
        0 <= k <= s.len(),
        forall|i: int| 0 <= i < s.len() ==> is_digit(#[trigger] s[i]),
    ensures
        digits_value(s) >= digits_value(s.take(k)),
    decreases s.len(),
{
    if k < s.len() {
        lemma_digits_value_nonneg(s.drop_last());
        lemma_digits_value_prefix(s.drop_last(), k);
        assert(s.drop_last().take(k) =~= s.take(k));
    } else {
        assert(s.take(k) =~= s);
    }
}

proof fn lemma_digit_text(d: int)
    requires
        0 <= d < 10,
    ensures
        digit_text(d).len() == 1,
        is_digit(digit_text(d)[0]),
        digit_text(d)[0] as int - '0' as int == d,
{
    reveal_strlit("0");
    reveal_strlit("1");
    reveal_strlit("2");
    reveal_strlit("3");
    reveal_strlit("4");
    reveal_strlit("5");
    reveal_strlit("6");
    reveal_strlit("7");
    reveal_strlit("8");
    reveal_strlit("9");
}

proof fn lemma_nat_text_digits(n: nat)
    ensures
        nat_text(n).len() > 0,
        forall|i: int| 0 <= i < nat_text(n).len() ==> is_digit(#[trigger] nat_text(n)[i]),
        digits_value(nat_text(n)) == n,
    decreases n,
{
    if n < 10 {
        lemma_digit_text(n as int);
        let t = digit_text(n as int);
        assert(t.drop_last() =~= Seq::<char>::empty());
        assert(t.last() == t[0]);
        assert(digits_value(t.drop_last()) == 0);
    } else {
        lemma_nat_text_digits(n / 10);
        lemma_digit_text((n % 10) as int);
        let h = nat_text(n / 10);
        let d = digit_text((n % 10) as int);
        let t = h + d;
        assert(t.drop_last() =~= h);
        assert(t.last() == d[0]);
        assert(n == (n / 10) * 10 + n % 10) by (nonlinear_arith);
        assert(digits_value(t) == digits_value(h) * 10 + (d[0] as int - '0' as int));
        assert forall|i: int| 0 <= i < t.len() implies is_digit(#[trigger] t[i]) by {
            if i < h.len() {
                assert(t[i] == h[i]);
            } else {
                assert(t[i] == d[0]);
            }
        }
    }
}

/// Reading back the decimal text of an `i32` gives the number: the printed form of an integer
/// literal is one that the lexer reads as the same literal.
pub proof fn lemma_parse_reads_printed(v: i32)
    ensures
        parse_i32(int_text(v as int)) == Some(v),
{
    reveal_strlit("-");
    if v < 0 {
        let body = nat_text((-v) as nat);
        lemma_nat_text_digits((-v) as nat);
        let t = "-"@ + body;
        assert(t[0] == '-');
        assert(t.skip(1) =~= body);
        assert(unsigned_part(t) == body);
    } else {
        let body = nat_text(v as nat);
        lemma_nat_text_digits(v as nat);
        assert(is_digit(body[0]));
        assert(unsigned_part(body) == body);
    }
}

/// The value of the first `j + 1` digits: ten times that of the first `j`, plus the next digit.
proof fn lemma_digits_value_step(s: Seq<char>, j: int)
    requires
        0 <= j < s.len(),
    ensures
        digits_value(s.take(j + 1)) == digits_value(s.take(j)) * 10 + (s[j] as int - '0' as int),
{
    assert(s.take(j + 1).drop_last() =~= s.take(j));
    assert(s.take(j + 1).last() == s[j]);
}

/// Reads `s` as an `i32` in decimal, as `str::parse::<i32>` does.
#[verifier::spinoff_prover]
pub fn parse_i32_text(s: &str) -> (r: Option<i32>)
    ensures
        r == parse_i32(s@),
{
    let n = s.unicode_len();
    if n == 0 {
        return None;
    }
    let c0 = s.get_char(0);
    let neg = c0 == '-';
    let start: usize = if c0 == '-' || c0 == '+' {
        1
    } else {
        0
    };
    let ghost body = unsigned_part(s@);
    assert(body =~= s@.skip(start as int));
    if start >= n {
        return None;
    }
    let mut acc: i64 = 0;
    let mut j: usize = 0;
    while j < n - start
        invariant
            n == s@.len(),
            start <= 1,
            start < n,
            body == s@.skip(start as int),
            body == unsigned_part(s@),
            neg == (s@[0] == '-'),
            j <= n - start,
            0 <= acc <= 2147483648,
            acc == digits_value(body.take(j as int)),
            forall|i: int| 0 <= i < j ==> is_digit(#[trigger] body[i]),
        decreases n - start - j,
    {
        let c = s.get_char(start + j);
        assert(c == body[j as int]);
        if !(c >= '0' && c <= '9') {
            assert(!is_digit(body[j as int]));
            return None;
        }
        let d = (c as u32 - '0' as u32) as i64;
        proof {
            lemma_digits_value_step(body, j as int);
        }
        let next = acc * 10 + d;
        if next > 2147483648 {
            proof {
                if forall|i: int| 0 <= i < body.len() ==> is_digit(#[trigger] body[i]) {
                    lemma_digits_value_prefix(body, j + 1);
                }
            }
            return None;
        }
        acc = next;
        j = j + 1;
    }
    assert(body.take(body.len() as int) =~= body);
    if neg {
        Some((-acc) as i32)
    } else if acc > 2147483647 {
        None
    } else {
        Some(acc as i32)
    }
}

/// The index of the first `true` in `s` at or after `j`.
pub open spec fn first_true_from(s: Seq<bool>, j: int) -> Option<int>
    decreases s.len() - j,
{
    if j < 0 || j >= s.len() {
        None
    } else if s[j] {
        Some(j)
    } else {
        first_true_from(s, j + 1)
    }
}

/// The token alternative that a match came from: its first capture group that took part.
pub open spec fn match_group(c: (Seq<char>, Seq<bool>)) -> Option<int> {
    first_true_from(c.1, 0)
}

/// `t` is the token that alternative `g` of the token grammar gives for the matched `text`.
pub open spec fn token_is(t: Token, g: int, text: Seq<char>) -> bool {
    if g == 0 {
        t is OpenBrace
    } else if g == 1 {
        t is CloseBrace
    } else if g == 2 {
        t is OpenParen
    } else if g == 3 {
        t is CloseParen
    } else if g == 4 {
        t is Semicolon
    } else if g == 5 {
        t == Token::Keyword(Keyword::INT)
    } else if g == 6 {
        t == Token::Keyword(Keyword::RETURN)
    } else if g == 7 {
        t matches Token::Identifier(name) && name@ == text
    } else if g == 8 {
        t matches Token::LiteralInt(v) && parse_i32(text) == Some(v)
    } else if g == 9 {
        t is Minus
    } else if g == 10 {
        t is Tilde
    } else if g == 11 {
        t is Unequal
    } else if g == 12 {
        t is Exclamation
    } else if g == 13 {
        t is Plus
    } else if g == 14 {
        t is Star
    } else if g == 15 {
        t is Slash
    } else if g == 16 {
        t is And
    } else if g == 17 {
        t is Or
    } else if g == 18 {
        t is Equal
    } else if g == 19 {
        t is LessEqual
    } else if g == 20 {
        t is Less
    } else if g == 21 {
        t is GreaterEqual
    } else if g == 22 {
        t is Greater
    } else if g == 23 {
        t is Assign
    } else {
        false
    }
}

/// The error, if any, that alternative `g` gives for the matched `text`.
pub open spec fn group_error(g: int, text: Seq<char>) -> Option<LexError> {
    if g >= TOKEN_GROUPS {
        Some(LexError::UnknownToken(g as usize))
    } else if g == 8 && parse_i32(text) is None {
        Some(LexError::NotANumber)
    } else {
        None
    }
}

/// The error, if any, that one match gives.
pub open spec fn capture_error(c: (Seq<char>, Seq<bool>)) -> Option<LexError> {
    match match_group(c) {
        Some(g) => group_error(g, c.0),
        None => None,
    }
}

/// The error of the first match, in order, that gives one.
pub open spec fn lex_error(caps: Seq<(Seq<char>, Seq<bool>)>) -> Option<LexError>
    decreases caps.len(),
{
    if caps.len() == 0 {
        None
    } else {
        match lex_error(caps.drop_last()) {
            Some(e) => Some(e),
            None => capture_error(caps.last()),
        }
    }
}

/// `toks` and `lits` are what the matches `caps` give: every match gives its text to `lits`,
/// and a token to `toks` when one of its groups took part.
pub open spec fn lexed(caps: Seq<(Seq<char>, Seq<bool>)>, toks: Seq<Token>, lits: Seq<String>) -> bool
    decreases caps.len(),
{
    if caps.len() == 0 {
        toks.len() == 0 && lits.len() == 0
    } else {
        &&& lits.len() > 0
        &&& lits.last()@ == caps.last().0
        &&& match match_group(caps.last()) {
            Some(g) => {
                &&& toks.len() > 0
                &&& token_is(toks.last(), g, caps.last().0)
                &&& lexed(caps.drop_last(), toks.drop_last(), lits.drop_last())
            },
            None => lexed(caps.drop_last(), toks, lits.drop_last()),
        }
    }
}

/// The lexer keeps the text of every match, in order, and gives at most one token for each:
/// where `toks` and `lits` are what the matches `caps` give, `lits` holds the matched texts one
/// for one, and there are no more tokens than texts.
pub proof fn lemma_lexed_keeps_texts(caps: Seq<(Seq<char>, Seq<bool>)>, toks: Seq<Token>, lits: Seq<String>)
    requires
        lexed(caps, toks, lits),
    ensures
        lits.len() == caps.len(),
        forall|i: int| 0 <= i < caps.len() ==> (#[trigger] lits[i])@ == caps[i].0,
        toks.len() <= lits.len(),
    decreases caps.len(),
{
    if caps.len() > 0 {
        let toks1 = if match_group(caps.last()) is Some {
            toks.drop_last()
        } else {
            toks
        };
        lemma_lexed_keeps_texts(caps.drop_last(), toks1, lits.drop_last());
        assert forall|i: int| 0 <= i < caps.len() implies (#[trigger] lits[i])@ == caps[i].0 by {
            if i < caps.len() - 1 {
                assert(lits.drop_last()[i] == lits[i]);
                assert(caps.drop_last()[i] == caps[i]);
            }
        }
    }
}

/// The token that alternative `g` of the token grammar gives for the matched `text`.
fn token_for_group(g: usize, text: &String) -> (r: Result<Token, LexError>)
    ensures
        (match r {
            Ok(t) => group_error(g as int, text@) is None && token_is(t, g as int, text@),
            Err(e) => group_error(g as int, text@) == Some(e),
        }),
{
    match g {
        0 => Ok(Token::OpenBrace),
        1 => Ok(Token::CloseBrace),
        2 => Ok(Token::OpenParen),
        3 => Ok(Token::CloseParen),
        4 => Ok(Token::Semicolon),
        5 => Ok(Token::Keyword(Keyword::INT)),
        6 => Ok(Token::Keyword(Keyword::RETURN)),
        7 => Ok(Token::Identifier(text.clone())),
        8 => match parse_i32_text(text.as_str()) {
            Some(v) => Ok(Token::LiteralInt(v)),
            None => Err(LexError::NotANumber),
        },
        9 => Ok(Token::Minus),
        10 => Ok(Token::Tilde),
        11 => Ok(Token::Unequal),
        12 => Ok(Token::Exclamation),
        13 => Ok(Token::Plus),
        14 => Ok(Token::Star),
        15 => Ok(Token::Slash),
        16 => Ok(Token::And),
        17 => Ok(Token::Or),
        18 => Ok(Token::Equal),
        19 => Ok(Token::LessEqual),
        20 => Ok(Token::Less),
        21 => Ok(Token::GreaterEqual),
        22 => Ok(Token::Greater),
        23 => Ok(Token::Assign),
        _ => Err(LexError::UnknownToken(g)),
    }
}

/// The first group, if any, that took part in a match.
fn first_group(flags: &Vec<bool>) -> (r: Option<usize>)
    ensures
        (match r {
            Some(g) => first_true_from(flags@, 0) == Some(g as int),
            None => first_true_from(flags@, 0) is None,
        }),
{
    let n = flags.len();
    let mut j: usize = 0;
    while j < n
        invariant
            n == flags@.len(),
            j <= n,
            first_true_from(flags@, 0) == first_true_from(flags@, j as int),
        decreases n - j,
    {
        if flags[j] {
            return Some(j);
        }
        j = j + 1;
    }
    None
}

/// Turns the matches of the token grammar into tokens and their texts, in order.
pub fn tokens_from_captures(caps: &Vec<(String, Vec<bool>)>) -> (r: Result<
    (Vec<Token>, Vec<String>),
    LexError,
>)
    ensures
        (match r {
            Ok((toks, lits)) => lex_error(captures_view(caps@)) is None && lexed(
                captures_view(caps@),
                toks@,
                lits@,
            ),
            Err(e) => lex_error(captures_view(caps@)) == Some(e),
        }),
{
    let ghost cv = captures_view(caps@);
    let mut toks: Vec<Token> = Vec::new();
    let mut lits: Vec<String> = Vec::new();
    let n = caps.len();
    for i in 0..n
        invariant
            n == caps@.len(),
            cv == captures_view(caps@),
            lex_error(cv.take(i as int)) is None,
            lexed(cv.take(i as int), toks@, lits@),
    {
        let text = &caps[i].0;
        assert(cv.take(i + 1).drop_last() =~= cv.take(i as int));
        assert(cv.take(i + 1).last() == cv[i as int]);
        let ghost prev_lits = lits@;
        let ghost prev_toks = toks@;
        lits.push(text.clone());
        assert(lits@.drop_last() =~= prev_lits);
        match first_group(&caps[i].1) {
            Some(g) => {
                match token_for_group(g, text) {
                    Ok(t) => {
                        toks.push(t);
                        assert(toks@.drop_last() =~= prev_toks);
                    },
                    Err(e) => {
                        proof {
                            assert(lex_error(cv.take(i + 1)) == Some(e));
                            lemma_lex_error_extends(cv, i + 1);
                        }
                        return Err(e);
                    },
                }
            },
            None => {},
        }
    }
    assert(cv.take(n as int) =~= cv);
    Ok((toks, lits))
}

proof fn lemma_lex_error_extends(cv: Seq<(Seq<char>, Seq<bool>)>, k: int)
    requires
        0 <= k <= cv.len(),
        lex_error(cv.take(k)) is Some,
    ensures
        lex_error(cv) == lex_error(cv.take(k)),
    decreases cv.len() - k,
{
    if k < cv.len() {
        assert(cv.take(k + 1).drop_last() =~= cv.take(k));
        lemma_lex_error_extends(cv, k + 1);
    } else {
        assert(cv.take(k) =~= cv);
    }
}

/// Reads source text and extracts its tokens.
#[derive(Default)]
pub struct Lexer {
    pub tokens: Vec<Token>,
    pub tokens_literal: Vec<String>,
}

impl Lexer {
    /// Splits `content` into tokens with the token grammar `TOKEN_PATTERN`, replacing the tokens
    /// and token texts held before. Text that no alternative matches is skipped. The pattern
    /// must be accepted and every match must give a token or none; `try_lex` tells whether
    /// they do.
    pub fn lex(&mut self, content: String)
        requires
            regex_scan(TOKEN_PATTERN@, content@) matches Some(caps) && lex_error(caps) is None,
        ensures
            lexed(
                regex_scan(TOKEN_PATTERN@, content@)->Some_0,
                final(self).tokens@,
                final(self).tokens_literal@,
            ),
            occur_in_order(final(self).tokens_literal@.map_values(|s: String| s@), content@),
    {
        self.tokens = Vec::new();
        self.tokens_literal = Vec::new();
        match scan_with_regex(TOKEN_PATTERN, content.as_str()) {
            Some(caps) => match tokens_from_captures(&caps) {
                Ok((toks, lits)) => {
                    proof {
                        let cv = captures_view(caps@);
                        lemma_lexed_keeps_texts(cv, toks@, lits@);
                        assert(lits@.map_values(|s: String| s@) =~= match_texts(cv));
                    }
                    self.tokens = toks;
                    self.tokens_literal = lits;
                },
                Err(_) => unreached(),
            },
            None => unreached(),
        }
    }

    /// Lexes `content` as `lex` does where the pattern is accepted and every match gives a
    /// token or none; otherwise returns the error and leaves no tokens.
    pub fn try_lex(&mut self, content: String) -> (r: Result<(), LexError>)
        ensures
            (match regex_scan(TOKEN_PATTERN@, content@) {
                None => r == Err::<(), LexError>(LexError::InvalidPattern),
                Some(caps) => match lex_error(caps) {
                    Some(e) => r == Err::<(), LexError>(e),
                    None => r is Ok && lexed(caps, final(self).tokens@, final(self).tokens_literal@),
                },
            }),
            r is Ok ==> occur_in_order(final(self).tokens_literal@.map_values(|s: String| s@), content@),
            r is Err ==> final(self).tokens@.len() == 0 && final(self).tokens_literal@.len() == 0,
    {
        let outcome = match scan_with_regex(TOKEN_PATTERN, content.as_str()) {
            None => Err(LexError::InvalidPattern),
            Some(caps) => match tokens_from_captures(&caps) {
                Ok(_) => Ok(()),
                Err(e) => Err(e),
            },
        };
        match outcome {
            Ok(()) => {
                self.lex(content);
                Ok(())
            },
            Err(e) => {
                self.tokens = Vec::new();
                self.tokens_literal = Vec::new();
                Err(e)
            },
        }
    }
}

} // verus!
