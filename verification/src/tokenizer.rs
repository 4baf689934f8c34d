//! Lexical analysis: turning a line of characters into tokens.

use vstd::prelude::*;

verus! {

/// A decimal literal: one or more digits, then optionally a decimal point
/// followed by one or more digits. Its value is its text.
#[derive(Debug)]
pub struct Literal {
    text: String,
}

impl View for Literal {
    type V = Seq<char>;

    closed spec fn view(&self) -> Seq<char> {
        self.text@
    }
}

impl PartialEq for Literal {
    fn eq(&self, other: &Self) -> (equal: bool) {
        self.text == other.text
    }
}

impl vstd::std_specs::cmp::PartialEqSpecImpl for Literal {
    open spec fn obeys_eq_spec() -> bool {
        true
    }

    open spec fn eq_spec(&self, other: &Self) -> bool {
        self@ == other@
    }
}

impl Clone for Literal {
    fn clone(&self) -> (copy: Self)
        ensures
            copy@ == self@,
    {
        proof {
            use_type_invariant(self);
        }
        Literal { text: self.text.clone() }
    }
}

/// A lexical token.
#[derive(Debug)]
pub enum Token {
    Plus,
    Minus,
    Star,
    Slash,
    LParen,
    RParen,
    Comma,
    Equals,
    Let,
    Number(Literal),
    Identifier(String),
}

/// The mathematical value of a [`Token`].
pub enum Lexeme {
    Plus,
    Minus,
    Star,
    Slash,
    LParen,
    RParen,
    Comma,
    Equals,
    Let,
    Number(Seq<char>),
    Identifier(Seq<char>),
}

impl View for Token {
    type V = Lexeme;

    open spec fn view(&self) -> Lexeme {
        match self {
            Token::Plus => Lexeme::Plus,
            Token::Minus => Lexeme::Minus,
            Token::Star => Lexeme::Star,
            Token::Slash => Lexeme::Slash,
            Token::LParen => Lexeme::LParen,
            Token::RParen => Lexeme::RParen,
            Token::Comma => Lexeme::Comma,
            Token::Equals => Lexeme::Equals,
            Token::Let => Lexeme::Let,
            Token::Number(literal) => Lexeme::Number(literal@),
            Token::Identifier(name) => Lexeme::Identifier(name@),
        }
    }
}

impl DeepView for Token {
    type V = Lexeme;

    open spec fn deep_view(&self) -> Lexeme {
        self@
    }
}

impl PartialEq for Token {
    fn eq(&self, other: &Self) -> (equal: bool) {
        match self {
            Token::Plus => matches!(other, Token::Plus),
            Token::Minus => matches!(other, Token::Minus),
            Token::Star => matches!(other, Token::Star),
            Token::Slash => matches!(other, Token::Slash),
            Token::LParen => matches!(other, Token::LParen),
            Token::RParen => matches!(other, Token::RParen),
            Token::Comma => matches!(other, Token::Comma),
            Token::Equals => matches!(other, Token::Equals),
            Token::Let => matches!(other, Token::Let),
            Token::Number(mine) => match other {
                Token::Number(theirs) => *mine == *theirs,
                _ => false,
            },
            Token::Identifier(mine) => match other {
                Token::Identifier(theirs) => *mine == *theirs,
                _ => false,
            },
        }
    }
}

impl vstd::std_specs::cmp::PartialEqSpecImpl for Token {
    open spec fn obeys_eq_spec() -> bool {
        true
    }

    open spec fn eq_spec(&self, other: &Self) -> bool {
        self@ == other@
    }
}

impl Clone for Token {
    fn clone(&self) -> (copy: Self)
        ensures
            copy@ == self@,
    {
        match self {
            Token::Plus => Token::Plus,
            Token::Minus => Token::Minus,
            Token::Star => Token::Star,
            Token::Slash => Token::Slash,
            Token::LParen => Token::LParen,
            Token::RParen => Token::RParen,
            Token::Comma => Token::Comma,
            Token::Equals => Token::Equals,
            Token::Let => Token::Let,
            Token::Number(literal) => Token::Number(literal.clone()),
            Token::Identifier(name) => Token::Identifier(name.clone()),
        }
    }
}

/// The character classes that the lexer tells apart by runs.
#[derive(Clone, Copy, Debug)]
pub enum Class {
    /// Space, tab, carriage return and line feed.
    Blank,
    /// The decimal digits `0` to `9`.
    Digit,
    /// The lowercase letters `a` to `z`.
    Letter,
}

impl Class {
    /// Whether `c` belongs to the class.
    pub open spec fn has(self, c: char) -> bool {
        match self {
            Class::Blank => c == ' ' || c == '\r' || c == '\n' || c == '\t',
            Class::Digit => '0' <= c && c <= '9',
            Class::Letter => 'a' <= c && c <= 'z',
        }
    }

    /// Executable membership test.
    pub fn contains(&self, c: char) -> (yes: bool)
        ensures
            yes == self.has(c),
    {
        match self {
            Class::Blank => c == ' ' || c == '\r' || c == '\n' || c == '\t',
            Class::Digit => '0' <= c && c <= '9',
            Class::Letter => 'a' <= c && c <= 'z',
        }
    }
}

/// Length of the longest prefix of `s` made of characters of `class`.
pub open spec fn run_length(class: Class, s: Seq<char>) -> nat
    decreases s.len(),
{
    if s.len() > 0 && class.has(s[0]) {
        1 + run_length(class, s.skip(1))
    } else {
        0
    }
}

/// A run is the maximal prefix of its class: `n` is the run length exactly
/// when the first `n` characters belong to the class and the next one, if
/// there is one, does not.
pub proof fn lemma_run_is_maximal(class: Class, s: Seq<char>, n: nat)
    ensures
        run_length(class, s) == n <==> {
            &&& n <= s.len()
            &&& forall|i: int| 0 <= i < n ==> class.has(#[trigger] s[i])
            &&& n < s.len() ==> !class.has(s[n as int])
        },
    decreases s.len(),
{
    if s.len() > 0 && class.has(s[0]) {
        let t = s.skip(1);
        if n > 0 {
            lemma_run_is_maximal(class, t, (n - 1) as nat);
            if run_length(class, t) == n - 1 {
                assert forall|i: int| 0 <= i < n implies class.has(#[trigger] s[i]) by {
                    if i > 0 {
                        assert(s[i] == t[i - 1]);
                    }
                }
            }
        }
    }
}

/// Number of characters, after the first digit, that belong to the number
/// literal at the start of `s`: the remaining leading digits, then a decimal
/// point and its digits if the point is followed by at least one digit.
pub open spec fn number_tail(s: Seq<char>) -> nat {
    let whole = run_length(Class::Digit, s);
    let point = whole as int;
    if point + 1 < s.len() && s[point] == '.' && Class::Digit.has(s[point + 1]) {
        whole + 1 + run_length(Class::Digit, s.skip(point + 1))
    } else {
        whole
    }
}

/// Whether `text` is a decimal literal: one or more digits, then
/// optionally a decimal point followed by one or more digits.
pub open spec fn is_decimal(text: Seq<char>) -> bool {
    let whole = run_length(Class::Digit, text) as int;
    &&& whole > 0
    &&& whole < text.len() ==> {
        &&& text[whole] == '.'
        &&& whole + 1 < text.len()
        &&& forall|i: int| whole < i < text.len() ==> Class::Digit.has(#[trigger] text[i])
    }
}

/// The token for a single punctuation character, if it is one.
pub open spec fn punctuation(c: char) -> Option<Lexeme> {
    if c == '+' {
        Some(Lexeme::Plus)
    } else if c == '-' {
        Some(Lexeme::Minus)
    } else if c == '*' {
        Some(Lexeme::Star)
    } else if c == '/' {
        Some(Lexeme::Slash)
    } else if c == '(' {
        Some(Lexeme::LParen)
    } else if c == ')' {
        Some(Lexeme::RParen)
    } else if c == ',' {
        Some(Lexeme::Comma)
    } else if c == '=' {
        Some(Lexeme::Equals)
    } else {
        None
    }
}

/// The token for a run of lowercase letters: the keyword `let`, or else an
/// identifier.
pub open spec fn reserved(word: Seq<char>) -> Lexeme {
    if word == seq!['l', 'e', 't'] {
        Lexeme::Let
    } else {
        Lexeme::Identifier(word)
    }
}

/// The first token of `s` together with the characters that follow it.
///
/// Leading blanks are skipped. The result is `None` at the end of the input
/// and at a character that starts no token.
pub open spec fn next_lexeme(s: Seq<char>) -> Option<(Lexeme, Seq<char>)> {
    let t = s.skip(run_length(Class::Blank, s) as int);
    if t.len() == 0 {
        None
    } else if punctuation(t[0]) is Some {
        Some((punctuation(t[0])->0, t.skip(1)))
    } else if Class::Digit.has(t[0]) {
        let n = 1 + number_tail(t.skip(1)) as int;
        Some((Lexeme::Number(t.take(n)), t.skip(n)))
    } else if Class::Letter.has(t[0]) {
        let n = 1 + run_length(Class::Letter, t.skip(1)) as int;
        Some((reserved(t.take(n)), t.skip(n)))
    } else {
        None
    }
}

/// All tokens of `s`, up to the end of the input or to the first character
/// that starts no token.
pub open spec fn lex(s: Seq<char>) -> Seq<Lexeme>
    decreases s.len(),
{
    match next_lexeme(s) {
        Some((lexeme, rest)) => {
            proof {
                lemma_next_lexeme_advances(s);
            }
            seq![lexeme] + lex(rest)
        },
        None => Seq::empty(),
    }
}

/// A run never extends past the end of the text.
pub proof fn lemma_run_is_bounded(class: Class, s: Seq<char>)
    ensures
        run_length(class, s) <= s.len(),
{
    lemma_run_is_maximal(class, s, run_length(class, s));
}

/// A number literal never extends past the end of the text.
pub proof fn lemma_number_tail_is_bounded(s: Seq<char>)
    ensures
        number_tail(s) <= s.len(),
{
    let whole = run_length(Class::Digit, s);
    lemma_run_is_bounded(Class::Digit, s);
    if whole + 1 < s.len() {
        lemma_run_is_bounded(Class::Digit, s.skip(whole + 1 as int));
    }
}

/// A digit with the rest of the number literal that it starts is a decimal
/// literal.
pub proof fn lemma_number_is_decimal(first: char, s: Seq<char>)
    requires
        Class::Digit.has(first),
    ensures
        is_decimal(seq![first] + s.take(number_tail(s) as int)),
{
    let whole = run_length(Class::Digit, s) as int;
    let n = number_tail(s) as int;
    let text = seq![first] + s.take(n);
    lemma_run_is_maximal(Class::Digit, s, whole as nat);
    lemma_number_tail_is_bounded(s);
    if n == whole {
        lemma_run_is_maximal(Class::Digit, text, text.len());
    } else {
        let fraction = s.skip(whole + 1);
        lemma_run_is_maximal(Class::Digit, fraction, run_length(Class::Digit, fraction));
        lemma_run_is_maximal(Class::Digit, text, (whole + 1) as nat);
        assert forall|i: int| whole + 1 < i < text.len() implies Class::Digit.has(
            #[trigger] text[i],
        ) by {
            assert(s[i - 1] == fraction[i - 1 - (whole + 1)]);
        }
    }
}

/// Every token takes at least one character, and what follows it is a
/// suffix of the text.
pub proof fn lemma_next_lexeme_advances(s: Seq<char>)
    ensures
        next_lexeme(s) matches Some((_, rest)) ==> rest.len() < s.len() && rest == s.skip(
            s.len() - rest.len(),
        ),
{
    let k = run_length(Class::Blank, s);
    lemma_run_is_bounded(Class::Blank, s);
    let t = s.skip(k as int);
    if t.len() > 0 {
        lemma_number_tail_is_bounded(t.skip(1));
        lemma_run_is_bounded(Class::Letter, t.skip(1));
    }
}

/// Once the token sequence has ended it stays ended: after the blanks that
/// were skipped, no token follows.
pub proof fn lemma_end_is_final(s: Seq<char>)
    requires
        next_lexeme(s) is None,
    ensures
        next_lexeme(s.skip(run_length(Class::Blank, s) as int)) is None,
{
    let k = run_length(Class::Blank, s);
    lemma_run_is_bounded(Class::Blank, s);
    lemma_run_is_maximal(Class::Blank, s, k);
}

/// Appends one character to a string by `String::push`, which adds the
/// character at the end and leaves the rest as it was.
#[verifier::external_body]
pub(crate) fn push_char(text: &mut String, c: char)
    ensures
        final(text)@ == old(text)@.push(c),
{
    text.push(c);
}

/// The characters of a string, in order.
pub fn characters(text: &str) -> (chars: Vec<char>)
    ensures
        chars@ == text@,
{
    let mut chars: Vec<char> = Vec::new();
    for c in it: text.chars()
        invariant
            chars@ == it.seq().take(it.index() as int),
            it.seq() == text@,
    {
        chars.push(c);
    }
    chars
}

/// The position at which the run of `class` that starts at `start` ends.
fn run_end(input: &Vec<char>, start: usize, class: Class) -> (end: usize)
    requires
        start <= input.len(),
    ensures
        start <= end <= input.len(),
        end - start == run_length(class, input@.skip(start as int)),
{
    let mut end: usize = start;
    while end < input.len() && class.contains(input[end])
        invariant
            start <= end <= input.len(),
            forall|i: int| start <= i < end ==> class.has(#[trigger] input@[i]),
        decreases input.len() - end,
    {
        end += 1;
    }
    proof {
        lemma_run_is_maximal(class, input@.skip(start as int), (end - start) as nat);
    }
    end
}

/// A lexer over one line of text. Its value is the text not yet consumed.
pub struct Tokenizer {
    input: Vec<char>,
    position: usize,
}

impl View for Tokenizer {
    type V = Seq<char>;

    closed spec fn view(&self) -> Seq<char> {
        self.input@.skip(self.position as int)
    }
}

impl Tokenizer {
    #[verifier::type_invariant]
    spec fn in_bounds(&self) -> bool {
        self.position <= self.input.len()
    }

    /// A lexer at the start of `text`.
    pub fn new(text: &str) -> (lexer: Self)
        ensures
            lexer@ == text@,
    {
        let input = characters(text);
        Tokenizer { input, position: 0 }
    }

    /// Length of the run of `class` at the current position.
    fn scan(&self, class: Class) -> (n: usize)
        ensures
            n == run_length(class, self@),
            n <= self@.len(),
            self.position + n <= self.input.len(),
    {
        proof {
            use_type_invariant(self);
        }
        run_end(&self.input, self.position, class) - self.position
    }

    /// Moves `n` characters from the input to the end of `text`.
    fn take(&mut self, n: usize, text: &mut String)
        requires
            n <= old(self)@.len(),
        ensures
            final(self)@ == old(self)@.skip(n as int),
            final(text)@ == old(text)@ + old(self)@.take(n as int),
    {
        proof {
            use_type_invariant(&*self);
        }
        let end: usize = self.position + n;
        while self.position < end
            invariant
                self.input == old(self).input,
                old(self).position <= self.position <= end <= self.input.len(),
                text@ == old(text)@ + self.input@.subrange(
                    old(self).position as int,
                    self.position as int,
                ),
            decreases end - self.position,
        {
            push_char(text, self.input[self.position]);
            self.position += 1;
        }
    }

    /// Reads the rest of a number literal whose first digit, `first`, has
    /// already been consumed: the digits that follow, then a decimal point
    /// and its digits if the point is followed by at least one digit.
    fn parse_number(&mut self, first: char) -> (literal: Option<Literal>)
        requires
            Class::Digit.has(first),
        ensures
            literal matches Some(number) && number@ == seq![first] + old(self)@.take(
                number_tail(old(self)@) as int,
            ),
            final(self)@ == old(self)@.skip(number_tail(old(self)@) as int),
    {
        let mut text = String::new();
        push_char(&mut text, first);
        let whole = self.scan(Class::Digit);
        self.take(whole, &mut text);
        proof {
            use_type_invariant(&*self);
            let s = old(self)@;
            if self@.len() >= 2 {
                assert(self@[0] == s[whole as int]);
                assert(self@[1] == s[whole + 1]);
            }
        }
        if self.input.len() - self.position >= 2 && self.input[self.position] == '.'
            && Class::Digit.contains(self.input[self.position + 1]) {
            self.take(1, &mut text);
            let fraction = self.scan(Class::Digit);
            self.take(fraction, &mut text);
            proof {
                let s = old(self)@;
                assert(s.skip(whole as int).skip(1) =~= s.skip(whole + 1));
            }
        }
        proof {
            lemma_number_is_decimal(first, old(self)@);
            assert(text@ =~= seq![first] + old(self)@.take(number_tail(old(self)@) as int));
        }
        Some(Literal { text })
    }

    /// Reads the rest of a word whose first letter, `first`, has already
    /// been consumed: the longest run of lowercase letters that follows.
    pub fn parse_identifier(&mut self, first: char) -> (word: Option<String>)
        ensures
            word matches Some(text) && text@ == seq![first] + old(self)@.take(
                run_length(Class::Letter, old(self)@) as int,
            ),
            final(self)@ == old(self)@.skip(run_length(Class::Letter, old(self)@) as int),
    {
        let mut text = String::new();
        push_char(&mut text, first);
        let letters = self.scan(Class::Letter);
        self.take(letters, &mut text);
        Some(text)
    }

    /// Tells the keyword `let` from an identifier.
    pub fn parse_reserved(word: String) -> (token: Token)
        ensures
            token@ == reserved(word@),
    {
        proof {
            reveal_strlit("let");
        }
        let keyword = String::from_str("let");
        assert(keyword@ =~= seq!['l', 'e', 't']);
        if word == keyword {
            Token::Let
        } else {
            Token::Identifier(word)
        }
    }

    /// The single-character token that `c` stands for, if any.
    fn parse_punctuation(c: char) -> (token: Option<Token>)
        ensures
            token.deep_view() == punctuation(c),
    {
        match c {
            '+' => Some(Token::Plus),
            '-' => Some(Token::Minus),
            '*' => Some(Token::Star),
            '/' => Some(Token::Slash),
            '(' => Some(Token::LParen),
            ')' => Some(Token::RParen),
            ',' => Some(Token::Comma),
            '=' => Some(Token::Equals),
            _ => None,
        }
    }

    /// Produces the next token and moves past it.
    ///
    /// Leading blanks are skipped. At the end of the input, and at a
    /// character that starts no token, the result is `None` and the lexer
    /// stays where it is, so that every later call gives `None` too.
    pub fn next(&mut self) -> (token: Option<Token>)
        ensures
            match next_lexeme(old(self)@) {
                Some((lexeme, rest)) => token matches Some(t) && t@ == lexeme && final(self)@
                    == rest,
                None => token is None && final(self)@ == old(self)@.skip(
                    run_length(Class::Blank, old(self)@) as int,
                ) && next_lexeme(final(self)@) is None,
            },
    {
        proof {
            if next_lexeme(old(self)@) is None {
                lemma_end_is_final(old(self)@);
            }
        }
        let blanks = self.scan(Class::Blank);
        self.position += blanks;
        assert(self@ =~= old(self)@.skip(blanks as int));
        if self.position == self.input.len() {
            return None;
        }
        let first = self.input[self.position];
        let ghost t = self@;
        match Self::parse_punctuation(first) {
            Some(token) => {
                self.position += 1;
                Some(token)
            },
            None => {
                if Class::Digit.contains(first) {
                    self.position += 1;
                    assert(self@ =~= t.skip(1));
                    let literal = self.parse_number(first);
                    proof {
                        let n = number_tail(t.skip(1));
                        lemma_number_tail_is_bounded(t.skip(1));
                        assert(seq![first] + t.skip(1).take(n as int) =~= t.take(1 + n as int));
                    }
                    match literal {
                        Some(literal) => Some(Token::Number(literal)),
                        None => None,
                    }
                } else if Class::Letter.contains(first) {
                    self.position += 1;
                    assert(self@ =~= t.skip(1));
                    let word = self.parse_identifier(first);
                    proof {
                        let n = run_length(Class::Letter, t.skip(1));
                        lemma_run_is_bounded(Class::Letter, t.skip(1));
                        assert(seq![first] + t.skip(1).take(n as int) =~= t.take(1 + n as int));
                    }
                    match word {
                        Some(word) => Some(Self::parse_reserved(word)),
                        None => None,
                    }
                } else {
                    None
                }
            },
        }
    }
}

impl Literal {
    #[verifier::type_invariant]
    spec fn well_formed(&self) -> bool {
        is_decimal(self.text@)
    }

    /// The literal that `text` spells, if it is a decimal literal.
    pub fn new(text: &str) -> (literal: Option<Literal>)
        ensures
            match literal {
                Some(number) => is_decimal(text@) && number@ == text@,
                None => !is_decimal(text@),
            },
    {
        let input = characters(text);
        assert(input@.skip(0) =~= text@);
        let whole = run_end(&input, 0, Class::Digit);
        if whole == 0 {
            return None;
        }
        if whole < input.len() {
            if input[whole] != '.' || whole + 1 == input.len() {
                return None;
            }
            let fraction = run_end(&input, whole + 1, Class::Digit);
            proof {
                lemma_run_is_maximal(
                    Class::Digit,
                    input@.skip(whole + 1),
                    (fraction - (whole + 1)) as nat,
                );
                if fraction == input.len() {
                    assert forall|i: int| whole < i < input.len() implies Class::Digit.has(
                        #[trigger] text@[i],
                    ) by {
                        assert(input@.skip(whole + 1)[i - (whole + 1)] == text@[i]);
                    }
                }
            }
            if fraction < input.len() {
                return None;
            }
        }
        Some(Literal { text: String::from_str(text) })
    }

    /// The text of the literal.
    pub fn text(&self) -> (text: &String)
        ensures
            text@ == self@,
            is_decimal(text@),
    {
        proof {
            use_type_invariant(self);
        }
        &self.text
    }
}

/// Lexes a whole line: every token up to the end of the text or to the
/// first character that starts no token.
pub fn tokenize(text: &str) -> (tokens: Vec<Token>)
    ensures
        tokens.deep_view() == lex(text@),
{
    let mut lexer = Tokenizer::new(text);
    let mut tokens: Vec<Token> = Vec::new();
    loop
        invariant_except_break
            lex(text@) == tokens.deep_view() + lex(lexer@),
        ensures
            lex(text@) == tokens.deep_view(),
        decreases lexer@.len(),
    {
        proof {
            lemma_next_lexeme_advances(lexer@);
        }
        match lexer.next() {
            Some(token) => {
                tokens.push(token);
            },
            None => {
                break ;
            },
        }
    }
    tokens
}

} // verus!
