use vstd::prelude::*;
use vstd::string::StrSliceExecFns;

verus! {

/// Relies on `String::push`: the character is appended at the end.
pub assume_specification[ String::push ](s: &mut String, ch: char)
    ensures
        final(s)@ == old(s)@.push(ch),
;

/// Reserved words of the language.
#[derive(Debug, Clone, Copy, PartialEq, Eq, Structural)]
pub enum KeywordKind {
    Fn,
    If,
}

/// The classes a token can fall in.
#[derive(Debug)]
pub enum TokenKind {
    /// A name made of letters, digits and `_`, not starting with a digit.
    Ident(String),
    /// A run of characters that starts with a digit or `"`.
    Literal(String),
    /// From `#` up to the end of the line.
    Comment(String),
    Keyword(KeywordKind),
    /// One of `+ - * / <`.
    Operator(char),
    Whitespace,
    OpenParen,
    CloseParen,
    OpenBrace,
    CloseBrace,
    Equals,
    Comma,
    /// A character that starts no other token.
    Unknown,
}

/// A token kind with its text as a sequence of characters.
pub enum KindView {
    Ident(Seq<char>),
    Literal(Seq<char>),
    Comment(Seq<char>),
    Keyword(KeywordKind),
    Operator(char),
    Whitespace,
    OpenParen,
    CloseParen,
    OpenBrace,
    CloseBrace,
    Equals,
    Comma,
    Unknown,
}

impl View for TokenKind {
    type V = KindView;

    open spec fn view(&self) -> KindView {
        match self {
            TokenKind::Ident(s) => KindView::Ident(s@),
            TokenKind::Literal(s) => KindView::Literal(s@),
            TokenKind::Comment(s) => KindView::Comment(s@),
            TokenKind::Keyword(k) => KindView::Keyword(*k),
            TokenKind::Operator(c) => KindView::Operator(*c),
            TokenKind::Whitespace => KindView::Whitespace,
            TokenKind::OpenParen => KindView::OpenParen,
            TokenKind::CloseParen => KindView::CloseParen,
            TokenKind::OpenBrace => KindView::OpenBrace,
            TokenKind::CloseBrace => KindView::CloseBrace,
            TokenKind::Equals => KindView::Equals,
            TokenKind::Comma => KindView::Comma,
            TokenKind::Unknown => KindView::Unknown,
        }
    }
}

impl PartialEq for TokenKind {
    fn eq(&self, other: &TokenKind) -> (r: bool) {
        match (self, other) {
            (TokenKind::Ident(a), TokenKind::Ident(b)) => a.eq(b),
            (TokenKind::Literal(a), TokenKind::Literal(b)) => a.eq(b),
            (TokenKind::Comment(a), TokenKind::Comment(b)) => a.eq(b),
            (TokenKind::Keyword(a), TokenKind::Keyword(b)) => *a == *b,
            (TokenKind::Operator(a), TokenKind::Operator(b)) => *a == *b,
            (TokenKind::Whitespace, TokenKind::Whitespace) => true,
            (TokenKind::OpenParen, TokenKind::OpenParen) => true,
            (TokenKind::CloseParen, TokenKind::CloseParen) => true,
            (TokenKind::OpenBrace, TokenKind::OpenBrace) => true,
            (TokenKind::CloseBrace, TokenKind::CloseBrace) => true,
            (TokenKind::Equals, TokenKind::Equals) => true,
            (TokenKind::Comma, TokenKind::Comma) => true,
            (TokenKind::Unknown, TokenKind::Unknown) => true,
            _ => false,
        }
    }
}

impl vstd::std_specs::cmp::PartialEqSpecImpl for TokenKind {
    open spec fn obeys_eq_spec() -> bool {
        true
    }

    open spec fn eq_spec(&self, other: &TokenKind) -> bool {
        self@ == other@
    }
}

/// A classified piece of source text; `len` counts the characters it took.
#[derive(Debug)]
pub struct Token {
    pub kind: TokenKind,
    pub len: usize,
}

/// A token with its kind's text as a sequence of characters.
pub struct TokenView {
    pub kind: KindView,
    pub len: nat,
}

impl View for Token {
    type V = TokenView;

    open spec fn view(&self) -> TokenView {
        TokenView { kind: self.kind@, len: self.len as nat }
    }
}

/// The views of a token sequence.
pub open spec fn tokens_view(ts: Seq<Token>) -> Seq<TokenView> {
    ts.map_values(|t: Token| t@)
}

/// The Unicode `White_Space` property, which `char::is_whitespace` tests.
pub open spec fn is_ws(c: char) -> bool {
    ('\t' <= c <= '\r') || c == ' ' || c == '\u{85}' || c == '\u{a0}' || c == '\u{1680}'
        || ('\u{2000}' <= c <= '\u{200a}') || c == '\u{2028}' || c == '\u{2029}'
        || c == '\u{202f}' || c == '\u{205f}' || c == '\u{3000}'
}

pub open spec fn is_operator_char(c: char) -> bool {
    c == '+' || c == '-' || c == '*' || c == '/' || c == '<'
}

/// Identifiers are made of ASCII letters, digits and `_`.
pub open spec fn is_ascii_letter(c: char) -> bool {
    ('a' <= c <= 'z') || ('A' <= c <= 'Z')
}

pub open spec fn is_ascii_digit(c: char) -> bool {
    '0' <= c <= '9'
}

pub open spec fn starts_word(c: char) -> bool {
    is_ascii_letter(c) || c == '_'
}

pub open spec fn in_word(c: char) -> bool {
    is_ascii_letter(c) || is_ascii_digit(c) || c == '_'
}

pub open spec fn starts_literal(c: char) -> bool {
    is_ascii_digit(c) || c == '"'
}

/// Where a token of several characters ends.
#[derive(Clone, Copy)]
pub enum Until {
    /// A comment runs to the end of the line.
    LineEnd,
    /// An identifier or keyword runs while letters, digits and `_` follow.
    WordEnd,
    /// A literal runs up to whitespace or `"`.
    LiteralEnd,
}

impl Until {
    pub open spec fn stops_at(self, c: char) -> bool {
        match self {
            Until::LineEnd => c == '\n',
            Until::WordEnd => !in_word(c) || c == '\n',
            Until::LiteralEnd => is_ws(c) || c == '"' || c == '\n',
        }
    }

    fn stops(self, c: char) -> (r: bool)
        ensures
            r == self.stops_at(c),
    {
        match self {
            Until::LineEnd => eol(c),
            Until::WordEnd => !valid_multi_char(c) || eol(c),
            Until::LiteralEnd => is_whitespace(c) || c == '"' || eol(c),
        }
    }
}

/// How many characters at the start of `s` come before `u` stops.
pub open spec fn run_len(s: Seq<char>, u: Until) -> nat
    decreases s.len(),
{
    if s.len() == 0 || u.stops_at(s[0]) {
        0
    } else {
        1 + run_len(s.drop_first(), u)
    }
}

/// The keyword that the word `w` spells, if any.
pub open spec fn keyword_of(w: Seq<char>) -> Option<KeywordKind> {
    if w == seq!['f', 'n'] {
        Some(KeywordKind::Fn)
    } else if w == seq!['i', 'f'] {
        Some(KeywordKind::If)
    } else {
        None
    }
}

/// The text of a token that starts with `s[0]` and goes on until `u` stops.
pub open spec fn run_text(s: Seq<char>, u: Until) -> Seq<char> {
    s.take(1 + run_len(s.drop_first(), u) as int)
}

/// A token of one character.
pub open spec fn single(kind: KindView) -> TokenView {
    TokenView { kind, len: 1 }
}

/// The first token of the non-empty text `s`.
pub open spec fn first_token(s: Seq<char>) -> TokenView {
    let c = s[0];
    if is_ws(c) {
        single(KindView::Whitespace)
    } else if is_operator_char(c) {
        single(KindView::Operator(c))
    } else if c == '#' {
        let text = run_text(s, Until::LineEnd);
        TokenView { kind: KindView::Comment(text), len: text.len() }
    } else if c == '(' {
        single(KindView::OpenParen)
    } else if c == ')' {
        single(KindView::CloseParen)
    } else if c == '{' {
        single(KindView::OpenBrace)
    } else if c == '}' {
        single(KindView::CloseBrace)
    } else if c == '=' {
        single(KindView::Equals)
    } else if c == ',' {
        single(KindView::Comma)
    } else if starts_word(c) {
        let text = run_text(s, Until::WordEnd);
        let kind = match keyword_of(text) {
            Some(k) => KindView::Keyword(k),
            None => KindView::Ident(text),
        };
        TokenView { kind, len: text.len() }
    } else if starts_literal(c) {
        let text = run_text(s, Until::LiteralEnd);
        TokenView { kind: KindView::Literal(text), len: text.len() }
    } else {
        single(KindView::Unknown)
    }
}

pub proof fn lemma_run_len_bound(s: Seq<char>, u: Until)
    ensures
        run_len(s, u) <= s.len(),
    decreases s.len(),
{
    if s.len() > 0 && !u.stops_at(s[0]) {
        lemma_run_len_bound(s.drop_first(), u);
    }
}

pub proof fn lemma_first_token_len(s: Seq<char>)
    requires
        s.len() > 0,
    ensures
        1 <= first_token(s).len <= s.len(),
{
    lemma_run_len_bound(s.drop_first(), Until::LineEnd);
    lemma_run_len_bound(s.drop_first(), Until::WordEnd);
    lemma_run_len_bound(s.drop_first(), Until::LiteralEnd);
}

/// The tokens of `s`, in order.
pub open spec fn lex(s: Seq<char>) -> Seq<TokenView>
    decreases s.len(),
{
    if s.len() == 0 {
        seq![]
    } else {
        proof {
            lemma_first_token_len(s);
        }
        seq![first_token(s)] + lex(s.skip(first_token(s).len as int))
    }
}

/// The sum of the tokens' lengths.
pub open spec fn total_len(ts: Seq<TokenView>) -> nat
    decreases ts.len(),
{
    if ts.len() == 0 {
        0
    } else {
        ts[0].len + total_len(ts.drop_first())
    }
}

/// The tokens of a text cover it: their lengths add up to its length.
pub proof fn lemma_lex_covers(s: Seq<char>)
    ensures
        total_len(lex(s)) == s.len(),
    decreases s.len(),
{
    if s.len() > 0 {
        lemma_first_token_len(s);
        let t = first_token(s);
        lemma_lex_covers(s.skip(t.len as int));
        assert((seq![t] + lex(s.skip(t.len as int))).drop_first() =~= lex(s.skip(t.len as int)));
    }
}

/// Lexing depends on the text alone: any two token sequences that `tokenize`
/// may return for one text are the same.
pub proof fn lemma_tokenize_deterministic(s: Seq<char>, a: Seq<Token>, b: Seq<Token>)
    requires
        tokens_view(a) == lex(s),
        tokens_view(b) == lex(s),
    ensures
        tokens_view(a) == tokens_view(b),
{
}

/// Whether `c` is whitespace in Unicode's sense, as `char::is_whitespace` decides.
pub fn is_whitespace(c: char) -> (r: bool)
    ensures
        r == is_ws(c),
{
    ('\t' <= c && c <= '\r') || c == ' ' || c == '\u{85}' || c == '\u{a0}' || c == '\u{1680}'
        || ('\u{2000}' <= c && c <= '\u{200a}') || c == '\u{2028}' || c == '\u{2029}'
        || c == '\u{202f}' || c == '\u{205f}' || c == '\u{3000}'
}

fn is_operator(c: char) -> (r: bool)
    ensures
        r == is_operator_char(c),
{
    c == '+' || c == '-' || c == '*' || c == '/' || c == '<'
}

fn is_letter(c: char) -> (r: bool)
    ensures
        r == is_ascii_letter(c),
{
    ('a' <= c && c <= 'z') || ('A' <= c && c <= 'Z')
}

fn is_digit(c: char) -> (r: bool)
    ensures
        r == is_ascii_digit(c),
{
    '0' <= c && c <= '9'
}

fn valid_literal_start(c: char) -> (r: bool)
    ensures
        r == starts_literal(c),
{
    is_digit(c) || c == '"'
}

fn valid_multi_char(c: char) -> (r: bool)
    ensures
        r == in_word(c),
{
    is_letter(c) || is_digit(c) || c == '_'
}

fn valid_multi_char_start(c: char) -> (r: bool)
    ensures
        r == starts_word(c),
{
    is_letter(c) || c == '_'
}

/// Whether `c` ends a line.
pub fn eol(c: char) -> (r: bool)
    ensures
        r == (c == '\n'),
{
    c == '\n'
}

/// The characters of `s` are all decimal digits.
pub open spec fn all_digits(s: Seq<char>) -> bool {
    forall|i: int| 0 <= i < s.len() ==> is_ascii_digit(#[trigger] s[i])
}

/// The number that the decimal digits `s` write.
pub open spec fn digits_value(s: Seq<char>) -> nat
    decreases s.len(),
{
    if s.len() == 0 {
        0
    } else {
        digits_value(s.drop_last()) * 10 + (s.last() as u32 - '0' as u32) as nat
    }
}

/// The unsigned integer that a literal's text writes, if it writes one that fits.
pub open spec fn literal_value(s: Seq<char>) -> Option<usize> {
    if s.len() > 0 && all_digits(s) && digits_value(s) <= usize::MAX {
        Some(digits_value(s) as usize)
    } else {
        None
    }
}

proof fn lemma_digits_value_prefix(s: Seq<char>, j: int)
    requires
        all_digits(s),
        0 <= j <= s.len(),
    ensures
        digits_value(s.take(j)) <= digits_value(s),
    decreases s.len(),
{
    if j < s.len() {
        let d = s.drop_last();
        assert(d.take(j) =~= s.take(j));
        lemma_digits_value_prefix(d, j);
    } else {
        assert(s.take(j) =~= s);
    }
}

fn parse_decimal(s: &str) -> (r: Option<usize>)
    ensures
        r == literal_value(s@),
{
    let n = s.unicode_len();
    if n == 0 {
        return None;
    }
    let mut value: usize = 0;
    let mut i: usize = 0;
    while i < n
        invariant
            n == s@.len(),
            i <= n,
            all_digits(s@.take(i as int)),
            value == digits_value(s@.take(i as int)),
        decreases n - i,
    {
        let c = s.get_char(i);
        if !is_digit(c) {
            assert(!all_digits(s@));
            return None;
        }
        let d = (c as u32 - '0' as u32) as usize;
        let ghost next = s@.take(i + 1);
        assert(next.drop_last() =~= s@.take(i as int));
        assert(all_digits(next));
        match value.checked_mul(10) {
            None => {
                proof {
                    if all_digits(s@) {
                        lemma_digits_value_prefix(s@, i + 1);
                    }
                }
                return None;
            },
            Some(m) => match m.checked_add(d) {
                None => {
                    proof {
                        if all_digits(s@) {
                            lemma_digits_value_prefix(s@, i + 1);
                        }
                    }
                    return None;
                },
                Some(v) => {
                    value = v;
                },
            },
        }
        i = i + 1;
    }
    assert(s@.take(n as int) =~= s@);
    Some(value)
}

impl Token {
    fn new(kind: TokenKind, len: usize) -> (r: Token)
        ensures
            r.kind == kind,
            r.len == len,
    {
        Token { kind, len }
    }

    fn is_keyword(kw: &str) -> (r: bool)
        ensures
            r == keyword_of(kw@) is Some,
    {
        Self::str_to_keyword(kw).is_some()
    }

    fn str_to_keyword(kw: &str) -> (r: Option<KeywordKind>)
        ensures
            r == keyword_of(kw@),
    {
        if kw.unicode_len() != 2 {
            return None;
        }
        let a = kw.get_char(0);
        let b = kw.get_char(1);
        if a == 'f' && b == 'n' {
            assert(kw@ =~= seq!['f', 'n']);
            Some(KeywordKind::Fn)
        } else if a == 'i' && b == 'f' {
            assert(kw@ =~= seq!['i', 'f']);
            Some(KeywordKind::If)
        } else {
            assert(kw@ != seq!['f', 'n']);
            assert(kw@ != seq!['i', 'f']);
            None
        }
    }

    /// The text of an identifier, literal or comment.
    pub fn inner_string(&self) -> (r: Option<String>)
        ensures
            r == match self.kind {
                TokenKind::Ident(s) => Some(s),
                TokenKind::Literal(s) => Some(s),
                TokenKind::Comment(s) => Some(s),
                _ => None,
            },
    {
        match &self.kind {
            TokenKind::Ident(i) => Some(i.clone()),
            TokenKind::Literal(i) => Some(i.clone()),
            TokenKind::Comment(i) => Some(i.clone()),
            _ => None,
        }
    }

    /// The value of a literal whose text is a decimal number that fits in `usize`.
    pub fn inner_int(&self) -> (r: Option<usize>)
        ensures
            r == match self.kind@ {
                KindView::Literal(s) => literal_value(s),
                _ => None,
            },
    {
        match &self.kind {
            TokenKind::Literal(i) => parse_decimal(i.as_str()),
            _ => None,
        }
    }

    pub fn inner_keyword(&self) -> (r: Option<KeywordKind>)
        ensures
            r == match self.kind {
                TokenKind::Keyword(k) => Some(k),
                _ => None,
            },
    {
        match self.kind {
            TokenKind::Keyword(i) => Some(i),
            _ => None,
        }
    }

    pub fn inner_operator(&self) -> (r: Option<char>)
        ensures
            r == match self.kind {
                TokenKind::Operator(c) => Some(c),
                _ => None,
            },
    {
        match self.kind {
            TokenKind::Operator(i) => Some(i),
            _ => None,
        }
    }
}

/// A pull-based reader of tokens over a text.
pub struct Cursor {
    chars: Vec<char>,
    pos: usize,
    start: usize,
}

impl Cursor {
    /// The text not read yet.
    pub closed spec fn rest(&self) -> Seq<char> {
        self.chars@.skip(self.pos as int)
    }

    pub closed spec fn wf(&self) -> bool {
        self.start <= self.pos <= self.chars.len()
    }

    /// A cursor at the start of `input`.
    pub fn new(input: &str) -> (r: Cursor)
        ensures
            r.wf(),
            r.rest() == input@,
    {
        let mut chars: Vec<char> = Vec::new();
        for c in it: input.chars()
            invariant
                chars@ == it.seq().take(it.index() as int),
        {
            chars.push(c);
        }
        assert(chars@ =~= input@.skip(0));
        Cursor { chars, pos: 0, start: 0 }
    }

    fn is_eof(&self) -> (r: bool)
        requires
            self.wf(),
        ensures
            r == (self.rest().len() == 0),
    {
        self.pos >= self.chars.len()
    }

    fn bump(&mut self) -> (r: Option<char>)
        requires
            old(self).wf(),
        ensures
            final(self).wf(),
            final(self).chars == old(self).chars,
            final(self).start == old(self).start,
            old(self).rest().len() == 0 ==> r is None && final(self).pos == old(self).pos,
            old(self).rest().len() > 0 ==> r == Some(old(self).rest()[0]) && final(self).pos
                == old(self).pos + 1,
    {
        if self.pos < self.chars.len() {
            let c = self.chars[self.pos];
            self.pos = self.pos + 1;
            Some(c)
        } else {
            None
        }
    }

    fn peek(&self) -> (r: Option<char>)
        requires
            self.wf(),
        ensures
            r == if self.rest().len() > 0 {
                Some(self.rest()[0])
            } else {
                None
            },
    {
        if self.pos < self.chars.len() {
            Some(self.chars[self.pos])
        } else {
            None
        }
    }

    /// Appends to `acc` the characters that come before `u` stops.
    fn consume_until_inner(&mut self, acc: String, u: Until) -> (r: String)
        requires
            old(self).wf(),
        ensures
            final(self).wf(),
            final(self).chars == old(self).chars,
            final(self).start == old(self).start,
            final(self).pos == old(self).pos + run_len(old(self).rest(), u),
            r@ == acc@ + old(self).rest().take(run_len(old(self).rest(), u) as int),
    {
        let ghost rest0 = self.rest();
        let ghost pos0 = self.pos as int;
        let mut acc = acc;
        let ghost acc0 = acc@;
        proof {
            lemma_run_len_bound(rest0, u);
        }
        assert(rest0.skip(0) =~= rest0);
        assert(acc0 + rest0.take(0) =~= acc0);
        loop
            invariant
                self.wf(),
                self.chars == old(self).chars,
                self.start == old(self).start,
                pos0 <= self.pos,
                rest0 == self.chars@.skip(pos0),
                rest0.len() == self.chars.len() - pos0,
                self.rest() == rest0.skip(self.pos - pos0),
                acc@ == acc0 + rest0.take(self.pos - pos0),
                run_len(rest0, u) == (self.pos - pos0) + run_len(self.rest(), u),
            ensures
                run_len(self.rest(), u) == 0,
            decreases self.chars.len() - self.pos,
        {
            match self.peek() {
                Some(c) => {
                    if u.stops(c) {
                        break ;
                    }
                    let ghost k = self.pos - pos0;
                    let ghost rest = self.rest();
                    assert(rest.len() > 0 && rest[0] == c);
                    assert(rest0.skip(k)[0] == c);
                    assert(rest0[k] == c);
                    self.bump();
                    acc.push(c);
                    assert(rest0.take(k + 1) =~= rest0.take(k).push(c));
                    assert(rest.drop_first() =~= self.rest());
                    assert(self.rest() =~= rest0.skip(self.pos - pos0));
                    assert(acc@ =~= acc0 + rest0.take(self.pos - pos0));
                },
                None => {
                    break ;
                },
            }
        }
        acc
    }

    /// The text that starts with `c` and goes on until `u` stops.
    fn consume_until(&mut self, c: char, u: Until) -> (r: String)
        requires
            old(self).wf(),
        ensures
            final(self).wf(),
            final(self).chars == old(self).chars,
            final(self).start == old(self).start,
            final(self).pos == old(self).pos + run_len(old(self).rest(), u),
            r@ == seq![c] + old(self).rest().take(run_len(old(self).rest(), u) as int),
    {
        let mut acc = String::new();
        acc.push(c);
        assert(acc@ =~= seq![c]);
        self.consume_until_inner(acc, u)
    }

    fn len_consumed(&self) -> (r: usize)
        requires
            self.wf(),
        ensures
            r == self.pos - self.start,
    {
        self.pos - self.start
    }

    fn reset_len_consumed(&mut self)
        requires
            old(self).wf(),
        ensures
            final(self).wf(),
            final(self).chars == old(self).chars,
            final(self).pos == old(self).pos,
            final(self).start == old(self).pos,
    {
        self.start = self.pos;
    }

    fn comment(&mut self, start: char) -> (r: TokenKind)
        requires
            old(self).wf(),
        ensures
            final(self).wf(),
            final(self).chars == old(self).chars,
            final(self).start == old(self).start,
            final(self).pos == old(self).pos + run_len(old(self).rest(), Until::LineEnd),
            r@ == KindView::Comment(
                seq![start] + old(self).rest().take(
                    run_len(old(self).rest(), Until::LineEnd) as int,
                ),
            ),
    {
        let com = self.consume_until(start, Until::LineEnd);
        TokenKind::Comment(com)
    }

    fn multi_char(&mut self, start: char) -> (r: String)
        requires
            old(self).wf(),
        ensures
            final(self).wf(),
            final(self).chars == old(self).chars,
            final(self).start == old(self).start,
            final(self).pos == old(self).pos + run_len(old(self).rest(), Until::WordEnd),
            r@ == seq![start] + old(self).rest().take(
                run_len(old(self).rest(), Until::WordEnd) as int,
            ),
    {
        self.consume_until(start, Until::WordEnd)
    }

    fn literal(&mut self, start: char) -> (r: String)
        requires
            old(self).wf(),
        ensures
            final(self).wf(),
            final(self).chars == old(self).chars,
            final(self).start == old(self).start,
            final(self).pos == old(self).pos + run_len(old(self).rest(), Until::LiteralEnd),
            r@ == seq![start] + old(self).rest().take(
                run_len(old(self).rest(), Until::LiteralEnd) as int,
            ),
    {
        self.consume_until(start, Until::LiteralEnd)
    }

    /// Reads the next token, or `None` at the end of the text.
    pub fn advance(&mut self) -> (r: Option<Token>)
        requires
            old(self).wf(),
        ensures
            final(self).wf(),
            match r {
                None => old(self).rest().len() == 0 && final(self).rest() == old(self).rest(),
                Some(t) => old(self).rest().len() > 0 && t@ == first_token(old(self).rest())
                    && final(self).rest() == old(self).rest().skip(t.len as int),
            },
    {
        self.reset_len_consumed();
        let ghost s = self.rest();
        let ghost p0 = self.pos as int;
        match self.bump() {
            None => None,
            Some(c) => {
                let ghost s1 = self.rest();
                assert(s1 =~= s.drop_first());
                let kind = if is_whitespace(c) {
                    TokenKind::Whitespace
                } else if is_operator(c) {
                    TokenKind::Operator(c)
                } else if c == '#' {
                    let k = self.comment(c);
                    assert(seq![c] + s1.take(run_len(s1, Until::LineEnd) as int) =~= run_text(
                        s,
                        Until::LineEnd,
                    ));
                    k
                } else if c == '(' {
                    TokenKind::OpenParen
                } else if c == ')' {
                    TokenKind::CloseParen
                } else if c == '{' {
                    TokenKind::OpenBrace
                } else if c == '}' {
                    TokenKind::CloseBrace
                } else if c == '=' {
                    TokenKind::Equals
                } else if c == ',' {
                    TokenKind::Comma
                } else if valid_multi_char_start(c) {
                    let w = self.multi_char(c);
                    assert(w@ =~= run_text(s, Until::WordEnd));
                    if Token::is_keyword(w.as_str()) {
                        TokenKind::Keyword(Token::str_to_keyword(w.as_str()).unwrap())
                    } else {
                        TokenKind::Ident(w)
                    }
                } else if valid_literal_start(c) {
                    let lit = self.literal(c);
                    assert(lit@ =~= run_text(s, Until::LiteralEnd));
                    TokenKind::Literal(lit)
                } else {
                    TokenKind::Unknown
                };
                proof {
                    lemma_run_len_bound(s1, Until::LineEnd);
                    lemma_run_len_bound(s1, Until::WordEnd);
                    lemma_run_len_bound(s1, Until::LiteralEnd);
                }
                let t = Token::new(kind, self.len_consumed());
                assert(t@ == first_token(s));
                assert(self.rest() =~= s.skip(t.len as int));
                Some(t)
            },
        }
    }

    /// The tokens of `input`, in order.
    pub fn tokenize(input: &str) -> (r: Vec<Token>)
        ensures
            tokens_view(r@) == lex(input@),
            total_len(tokens_view(r@)) == input@.len(),
    {
        let mut cursor = Cursor::new(input);
        let mut out: Vec<Token> = Vec::new();
        while !cursor.is_eof()
            invariant
                cursor.wf(),
                tokens_view(out@) + lex(cursor.rest()) == lex(input@),
            decreases cursor.rest().len(),
        {
            let ghost before = cursor.rest();
            proof {
                lemma_first_token_len(before);
            }
            match cursor.advance() {
                Some(t) => {
                    let ghost tv = t@;
                    let ghost prev = tokens_view(out@);
                    out.push(t);
                    assert(tokens_view(out@) =~= prev.push(tv));
                    assert(prev + lex(before) =~= prev.push(tv) + lex(cursor.rest()));
                },
                None => {},
            }
        }
        assert(tokens_view(out@) + lex(cursor.rest()) =~= tokens_view(out@));
        proof {
            lemma_lex_covers(input@);
        }
        out
    }
}

} // verus!
