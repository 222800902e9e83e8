//! The tokenizer of the command language.
use vstd::prelude::*;

verus! {

#[derive(Debug, Clone, Copy, PartialEq, Eq, Structural)]
pub enum TokenType {
    Eof,
    Insert,
    Delete,
    Select,
    SemiColon,
    Yet,
}

/// One token, with the line and column where reading stopped after it.
#[derive(Debug, PartialEq)]
pub struct Token {
    pub token_type: TokenType,
    pub literal: String,
    pub line: u8,
    pub column: u8,
}

pub open spec fn is_newline(c: char) -> bool {
    c == '\n' || c == '\r'
}

/// White space between tokens.
pub open spec fn is_blank(c: char) -> bool {
    is_newline(c) || c == ' ' || c == '\t' || c == '\u{3000}'
}

/// A character of a word: anything but white space and the statement separator.
pub open spec fn is_word(c: char) -> bool {
    !is_blank(c) && c != ';'
}

/// The first position at or after `pos` that does not hold white space.
pub open spec fn skip_blanks(input: Seq<char>, pos: nat) -> nat
    decreases input.len() - pos,
{
    if pos < input.len() && is_blank(input[pos as int]) {
        skip_blanks(input, pos + 1)
    } else {
        pos
    }
}

/// The first position at or after `pos` that does not hold a word character.
pub open spec fn word_end(input: Seq<char>, pos: nat) -> nat
    decreases input.len() - pos,
{
    if pos < input.len() && is_word(input[pos as int]) {
        word_end(input, pos + 1)
    } else {
        pos
    }
}

/// The literal of the token read from `pos` on, and the position after it: empty
/// at the end of the input, `;` alone, or a whole word.
pub open spec fn scan_token(input: Seq<char>, pos: nat) -> (Seq<char>, nat) {
    let start = skip_blanks(input, pos);
    if start >= input.len() {
        (Seq::empty(), start)
    } else if input[start as int] == ';' {
        (seq![';'], start + 1)
    } else {
        (input.subrange(start as int, word_end(input, start) as int), word_end(input, start))
    }
}

/// The kind of a token, by its literal.
pub open spec fn token_type_of(lit: Seq<char>) -> TokenType {
    if lit == seq!['I', 'N', 'S', 'E', 'R', 'T'] || lit == seq!['i', 'n', 's', 'e', 'r', 't'] {
        TokenType::Insert
    } else if lit == seq!['S', 'E', 'L', 'E', 'C', 'T'] || lit == seq!['s', 'e', 'l', 'e', 'c', 't'] {
        TokenType::Select
    } else if lit == seq!['D', 'E', 'L', 'E', 'T', 'E'] || lit == seq!['d', 'e', 'l', 'e', 't', 'e'] {
        TokenType::Delete
    } else if lit == seq![';'] {
        TokenType::SemiColon
    } else if lit.len() == 0 {
        TokenType::Eof
    } else {
        TokenType::Yet
    }
}

/// `x + 1`, held at 255.
pub open spec fn saturating_inc(x: u8) -> u8 {
    if x < 255 {
        (x + 1) as u8
    } else {
        255
    }
}

/// The line of position `pos`, counted from 1 (held at 255).
pub open spec fn line_at(input: Seq<char>, pos: nat) -> u8
    decreases pos,
{
    if pos == 0 || pos > input.len() {
        1
    } else if is_newline(input[pos - 1]) {
        saturating_inc(line_at(input, (pos - 1) as nat))
    } else {
        line_at(input, (pos - 1) as nat)
    }
}

/// The column of position `pos` within its line, counted from 1 (held at 255).
pub open spec fn column_at(input: Seq<char>, pos: nat) -> u8
    decreases pos,
{
    if pos == 0 || pos > input.len() {
        1
    } else if is_newline(input[pos - 1]) {
        1
    } else {
        saturating_inc(column_at(input, (pos - 1) as nat))
    }
}

pub proof fn lemma_token_type_eof(lit: Seq<char>)
    ensures
        token_type_of(lit) == TokenType::Eof <==> lit.len() == 0,
{
}

pub proof fn lemma_skip_blanks(input: Seq<char>, pos: nat)
    requires
        pos <= input.len(),
    ensures
        pos <= skip_blanks(input, pos) <= input.len(),
        skip_blanks(input, pos) < input.len() ==> !is_blank(input[skip_blanks(input, pos) as int]),
    decreases input.len() - pos,
{
    if pos < input.len() && is_blank(input[pos as int]) {
        lemma_skip_blanks(input, pos + 1);
    }
}

pub proof fn lemma_word_end(input: Seq<char>, pos: nat)
    requires
        pos <= input.len(),
    ensures
        pos <= word_end(input, pos) <= input.len(),
        pos < input.len() && is_word(input[pos as int]) ==> word_end(input, pos) > pos,
        forall|i: int| pos <= i < word_end(input, pos) ==> is_word(#[trigger] input[i]),
    decreases input.len() - pos,
{
    if pos < input.len() && is_word(input[pos as int]) {
        lemma_word_end(input, pos + 1);
    }
}

/// Reading a token never moves back, stays within the input, and moves forward
/// whenever the token is not the end of the input.
pub proof fn lemma_scan_token(input: Seq<char>, pos: nat)
    requires
        pos <= input.len(),
    ensures
        pos <= scan_token(input, pos).1 <= input.len(),
        scan_token(input, pos).0.len() > 0 ==> scan_token(input, pos).1 > pos,
        token_type_of(scan_token(input, pos).0) == TokenType::Eof <==> scan_token(input, pos).0.len()
            == 0,
{
    lemma_skip_blanks(input, pos);
    let start = skip_blanks(input, pos);
    if start < input.len() {
        lemma_word_end(input, start);
    }
    lemma_token_type_eof(scan_token(input, pos).0);
}


/// Relies on `String::push`: appends one character to the string.
#[verifier::external_body]
fn push_char(s: &mut String, c: char)
    ensures
        final(s)@ == old(s)@.push(c),
{
    s.push(c);
}

/// The string of the given characters.
fn string_of(chars: &Vec<char>) -> (r: String)
    ensures
        r@ == chars@,
{
    let mut r = String::new();
    let mut i: usize = 0;
    while i < chars.len()
        invariant
            i <= chars@.len(),
            r@ == chars@.subrange(0, i as int),
        decreases chars@.len() - i,
    {
        push_char(&mut r, chars[i]);
        i = i + 1;
        assert(r@ =~= chars@.subrange(0, i as int));
    }
    assert(chars@.subrange(0, i as int) =~= chars@);
    r
}

/// `lit` spells the given word.
fn spells(lit: &Vec<char>, word: &[char]) -> (r: bool)
    ensures
        r == (lit@ == word@),
{
    if lit.len() != word.len() {
        return false;
    }
    let mut i: usize = 0;
    while i < lit.len()
        invariant
            i <= lit@.len(),
            lit@.len() == word@.len(),
            forall|j: int| 0 <= j < i ==> lit@[j] == word@[j],
        decreases lit@.len() - i,
    {
        if lit[i] != word[i] {
            return false;
        }
        i = i + 1;
    }
    assert(lit@ =~= word@);
    true
}

/// `lit` spells the word in upper or in lower case.
fn spells_either(lit: &Vec<char>, upper: [char; 6], lower: [char; 6]) -> (r: bool)
    ensures
        r == (lit@ == upper@ || lit@ == lower@),
{
    spells(lit, upper.as_slice()) || spells(lit, lower.as_slice())
}

fn is_white_space(c: char) -> (r: bool)
    ensures
        r == is_blank(c),
{
    c == '\n' || c == '\r' || c == ' ' || c == '\t' || c == '\u{3000}'
}

fn is_letter(c: char) -> (r: bool)
    ensures
        r == is_word(c),
{
    !is_white_space(c) && c != ';'
}

fn saturating_inc_u8(x: u8) -> (r: u8)
    ensures
        r == saturating_inc(x),
{
    if x < 255 {
        x + 1
    } else {
        255
    }
}

impl Token {
    fn new(literal: Vec<char>, line: u8, column: u8) -> (t: Token)
        ensures
            t.token_type == token_type_of(literal@),
            t.literal@ == literal@,
            t.line == line,
            t.column == column,
    {
        let token_type = if spells_either(
            &literal,
            ['I', 'N', 'S', 'E', 'R', 'T'],
            ['i', 'n', 's', 'e', 'r', 't'],
        ) {
            TokenType::Insert
        } else if spells_either(
            &literal,
            ['S', 'E', 'L', 'E', 'C', 'T'],
            ['s', 'e', 'l', 'e', 'c', 't'],
        ) {
            TokenType::Select
        } else if spells_either(
            &literal,
            ['D', 'E', 'L', 'E', 'T', 'E'],
            ['d', 'e', 'l', 'e', 't', 'e'],
        ) {
            TokenType::Delete
        } else if literal.len() == 1 && literal[0] == ';' {
            assert(literal@ =~= seq![';']);
            TokenType::SemiColon
        } else if literal.len() == 0 {
            TokenType::Eof
        } else {
            TokenType::Yet
        };
        Token { token_type, literal: string_of(&literal), line, column }
    }
}


/// Reads the tokens of an input string, one at a time.
#[derive(Debug)]
pub struct Lexer {
    input: Vec<char>,
    position: usize,
    line: u8,
    column: u8,
}

impl Lexer {
    /// The characters of the input.
    pub closed spec fn input(&self) -> Seq<char> {
        self.input@
    }

    /// Where reading resumes.
    pub closed spec fn pos(&self) -> nat {
        self.position as nat
    }

    /// The position lies within the input, and the line and column are those of the position.
    pub closed spec fn wf(&self) -> bool {
        &&& self.position <= self.input@.len()
        &&& self.line == line_at(self.input@, self.position as nat)
        &&& self.column == column_at(self.input@, self.position as nat)
    }

    /// Reading never resumes past the end of the input.
    pub proof fn lemma_pos(&self)
        requires
            self.wf(),
        ensures
            self.pos() <= self.input().len(),
    {
    }

    /// A lexer at the start of `input`.
    pub fn new(input: String) -> (l: Self)
        ensures
            l.wf(),
            l.input() == input@,
            l.pos() == 0,
    {
        let mut chars: Vec<char> = Vec::new();
        for c in it: input.as_str().chars()
            invariant
                chars@ == it.seq().take(it.index() as int),
        {
            chars.push(c);
        }
        assert(chars@ =~= input@);
        Lexer { input: chars, position: 0, line: 1, column: 1 }
    }

    fn nth_char(&self, position: usize) -> (r: Option<char>)
        ensures
            r == if position < self.input@.len() {
                Some(self.input@[position as int])
            } else {
                None::<char>
            },
    {
        if position < self.input.len() {
            Some(self.input[position])
        } else {
            None
        }
    }

    /// Moves past the current character, keeping track of line and column.
    fn read_char(&mut self)
        requires
            old(self).wf(),
            old(self).position < old(self).input@.len(),
        ensures
            final(self).wf(),
            final(self).input@ == old(self).input@,
            final(self).position == old(self).position + 1,
    {
        let c = self.input[self.position];
        if c == '\n' || c == '\r' {
            self.line = saturating_inc_u8(self.line);
            self.column = 1;
        } else {
            self.column = saturating_inc_u8(self.column);
        }
        assert(self.input@.len() == self.input.len());
        self.position = self.position + 1;
    }

    fn skip_white_space(&mut self)
        requires
            old(self).wf(),
        ensures
            final(self).wf(),
            final(self).input@ == old(self).input@,
            final(self).position == skip_blanks(old(self).input@, old(self).position as nat),
    {
        loop
            invariant
                self.wf(),
                self.input@ == old(self).input@,
                skip_blanks(self.input@, self.position as nat) == skip_blanks(
                    old(self).input@,
                    old(self).position as nat,
                ),
            ensures
                self.wf(),
                self.input@ == old(self).input@,
                self.position == skip_blanks(old(self).input@, old(self).position as nat),
            decreases self.input@.len() - self.position,
        {
            match self.nth_char(self.position) {
                Some(c) => {
                    if is_white_space(c) {
                        self.read_char();
                    } else {
                        break;
                    }
                },
                None => {
                    break;
                },
            }
        }
    }

    /// Reads the word that starts at the current position.
    fn read_identifier(&mut self) -> (r: Vec<char>)
        requires
            old(self).wf(),
        ensures
            final(self).wf(),
            final(self).input@ == old(self).input@,
            final(self).position == word_end(old(self).input@, old(self).position as nat),
            r@ == old(self).input@.subrange(old(self).position as int, final(self).position as int),
    {
        let start = self.position;
        loop
            invariant
                self.wf(),
                self.input@ == old(self).input@,
                start <= self.position,
                word_end(self.input@, self.position as nat) == word_end(
                    old(self).input@,
                    start as nat,
                ),
            ensures
                self.wf(),
                self.input@ == old(self).input@,
                self.position == word_end(old(self).input@, start as nat),
            decreases self.input@.len() - self.position,
        {
            match self.nth_char(self.position) {
                Some(c) => {
                    if is_letter(c) {
                        self.read_char();
                    } else {
                        break;
                    }
                },
                None => {
                    break;
                },
            }
        }
        let mut word: Vec<char> = Vec::new();
        let mut i: usize = start;
        while i < self.position
            invariant
                start <= i <= self.position <= self.input@.len(),
                word@ == self.input@.subrange(start as int, i as int),
            decreases self.position - i,
        {
            word.push(self.input[i]);
            i = i + 1;
            assert(word@ =~= self.input@.subrange(start as int, i as int));
        }
        word
    }

    /// Reads the next token: the end of the input gives an empty `Eof` token, and
    /// keeps giving it.
    pub fn next_token(&mut self) -> (t: Token)
        requires
            old(self).wf(),
        ensures
            final(self).wf(),
            final(self).input() == old(self).input(),
            (t.literal@, final(self).pos()) == scan_token(old(self).input(), old(self).pos()),
            t.token_type == token_type_of(t.literal@),
            t.line == line_at(final(self).input(), final(self).pos()),
            t.column == column_at(final(self).input(), final(self).pos()),
    {
        self.skip_white_space();
        let literal = match self.nth_char(self.position) {
            None => Vec::new(),
            Some(c) => {
                if c == ';' {
                    self.read_char();
                    let mut semicolon: Vec<char> = Vec::new();
                    semicolon.push(c);
                    assert(semicolon@ =~= seq![';']);
                    semicolon
                } else {
                    self.read_identifier()
                }
            },
        };
        Token::new(literal, self.line, self.column)
    }
}

} // verus!
