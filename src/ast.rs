//! The parser of the command language: statements separated by `;`.
use vstd::prelude::*;
use crate::lexer::{
    lemma_scan_token, scan_token, token_type_of, Lexer, Token, TokenType};

verus! {

#[derive(Debug, PartialEq)]
pub enum Ast {
    InsertExpression(Vec<String>),
    DeleteExpression,
    SelectExpression,
}

pub type Expressions = Vec<Ast>;

/// A statement as a mathematical value.
pub enum Statement {
    Insert(Seq<Seq<char>>),
    Delete,
    Select,
}

impl View for Ast {
    type V = Statement;

    open spec fn view(&self) -> Statement {
        match self {
            Ast::InsertExpression(args) => Statement::Insert(args@.map_values(|s: String| s@)),
            Ast::DeleteExpression => Statement::Delete,
            Ast::SelectExpression => Statement::Select,
        }
    }
}

/// The arguments of an `INSERT`, read from `pos` on up to the `;` that ends them,
/// and the position where that `;` is read; `None` where the input ends first.
pub open spec fn insert_args(input: Seq<char>, pos: nat) -> Option<(Seq<Seq<char>>, nat)>
    decreases input.len() - pos,
    when pos <= input.len()
{
    let (lit, next) = scan_token(input, pos);
    proof {
        lemma_scan_token(input, pos);
    }
    if token_type_of(lit) == TokenType::Eof {
        None
    } else if token_type_of(lit) == TokenType::SemiColon {
        Some((Seq::empty(), pos))
    } else {
        match insert_args(input, next) {
            Some((rest, end)) => Some((seq![lit] + rest, end)),
            None => None,
        }
    }
}

/// The statement whose first token is read at `pos`, and the position where its
/// last token is read: the token after `SELECT` or `DELETE`, or the `;` that ends
/// an `INSERT`. `None` where no statement starts there.
pub open spec fn statement_at(input: Seq<char>, pos: nat) -> Option<(Statement, nat)> {
    let (lit, next) = scan_token(input, pos);
    let t = token_type_of(lit);
    if t == TokenType::Select {
        Some((Statement::Select, next))
    } else if t == TokenType::Delete {
        Some((Statement::Delete, next))
    } else if t == TokenType::Insert {
        match insert_args(input, next) {
            Some((args, end)) => Some((Statement::Insert(args), end)),
            None => None,
        }
    } else {
        None
    }
}

pub proof fn lemma_insert_args(input: Seq<char>, pos: nat)
    requires
        pos <= input.len(),
    ensures
        insert_args(input, pos) matches Some((_, end)) ==> pos <= end <= input.len(),
    decreases input.len() - pos,
{
    lemma_scan_token(input, pos);
    let (lit, next) = scan_token(input, pos);
    if token_type_of(lit) != TokenType::Eof && token_type_of(lit) != TokenType::SemiColon {
        lemma_insert_args(input, next);
    }
}

/// Where a statement ends: the position after its last token, past the first token.
pub proof fn lemma_statement_at(input: Seq<char>, pos: nat)
    requires
        pos <= input.len(),
    ensures
        statement_at(input, pos) matches Some((_, last)) ==> pos < scan_token(input, last).1
            <= input.len() && last <= input.len(),
{
    lemma_scan_token(input, pos);
    let (lit, next) = scan_token(input, pos);
    let t = token_type_of(lit);
    if t == TokenType::Insert {
        lemma_insert_args(input, next);
    }
    if let Some((_, last)) = statement_at(input, pos) {
        lemma_scan_token(input, last);
    }
}

/// The statements read from `pos` on, up to the end of the input; `None` where
/// one of them does not parse.
pub open spec fn parse_from(input: Seq<char>, pos: nat) -> Option<Seq<Statement>>
    decreases input.len() - pos,
    when pos <= input.len()
{
    let (lit, next) = scan_token(input, pos);
    proof {
        lemma_statement_at(input, pos);
    }
    if token_type_of(lit) == TokenType::Eof {
        Some(Seq::empty())
    } else {
        match statement_at(input, pos) {
            Some((s, last)) => match parse_from(input, scan_token(input, last).1) {
                Some(rest) => Some(seq![s] + rest),
                None => None,
            },
            None => None,
        }
    }
}


/// Reads statements from a lexer, with one token of look-ahead.
pub struct Parser {
    lexer: Lexer,
    current_token: Token,
    peek_token: Token,
    cursor: Ghost<nat>,
}

impl Parser {
    /// The characters of the input.
    pub closed spec fn input(&self) -> Seq<char> {
        self.lexer.input()
    }

    /// Where the current token is read.
    pub closed spec fn cursor(&self) -> nat {
        self.cursor@
    }

    /// The current token and the one after it are those read at the cursor, and
    /// the lexer stands after both.
    pub closed spec fn wf(&self) -> bool {
        let input = self.lexer.input();
        let (lit0, pos1) = scan_token(input, self.cursor@);
        let (lit1, pos2) = scan_token(input, pos1);
        &&& self.lexer.wf()
        &&& self.cursor@ <= input.len()
        &&& self.current_token.literal@ == lit0
        &&& self.current_token.token_type == token_type_of(lit0)
        &&& self.peek_token.literal@ == lit1
        &&& self.peek_token.token_type == token_type_of(lit1)
        &&& self.lexer.pos() == pos2
    }

    pub fn new(mut lexer: Lexer) -> (p: Self)
        requires
            lexer.wf(),
        ensures
            p.wf(),
            p.input() == lexer.input(),
            p.cursor() == lexer.pos(),
    {
        let ghost start = lexer.pos();
        proof {
            lexer.lemma_pos();
        }
        let current_token = lexer.next_token();
        let peek_token = lexer.next_token();
        Parser { lexer, current_token, peek_token, cursor: Ghost(start) }
    }

    /// The statements of the rest of the input; `None` where one of them does not parse.
    pub fn parse(&mut self) -> (r: Option<Expressions>)
        requires
            old(self).wf(),
        ensures
            final(self).wf(),
            final(self).input() == old(self).input(),
            match r {
                Some(v) => parse_from(old(self).input(), old(self).cursor()) == Some(
                    v@.map_values(|a: Ast| a@),
                ),
                None => parse_from(old(self).input(), old(self).cursor()) is None,
            },
    {
        let ghost input = self.lexer.input();
        let ghost start = self.cursor@;
        let mut expressions: Vec<Ast> = Vec::new();
        let mut failed = false;
        assert(expressions@.map_values(|a: Ast| a@) + parse_from(input, start)->Some_0
            =~= parse_from(input, start)->Some_0);
        loop
            invariant_except_break
                !failed,
                parse_from(input, start) == match parse_from(input, self.cursor@) {
                    Some(rest) => Some(expressions@.map_values(|a: Ast| a@) + rest),
                    None => None,
                },
            invariant
                self.wf(),
                self.input() == input,
            ensures
                self.wf(),
                self.input() == input,
                failed ==> parse_from(input, start) is None,
                !failed ==> parse_from(input, start) == Some(expressions@.map_values(|a: Ast| a@)),
            decreases input.len() - self.cursor@,
        {
            let ghost pos = self.cursor@;
            proof {
                lemma_statement_at(input, pos);
                lemma_scan_token(input, pos);
            }
            if self.current_token.token_type == TokenType::Eof {
                assert(expressions@.map_values(|a: Ast| a@) + Seq::<Statement>::empty()
                    =~= expressions@.map_values(|a: Ast| a@));
                break;
            }
            match self.parse_expression() {
                Some(ast) => {
                    expressions.push(ast);
                },
                None => {
                    failed = true;
                    break;
                },
            }
            self.next_token();
            proof {
                let ghost views = expressions@.map_values(|a: Ast| a@);
                assert(views =~= views.drop_last().push(views.last()));
                assert(expressions@.drop_last().map_values(|a: Ast| a@) =~= views.drop_last());
                if let Some(rest) = parse_from(input, self.cursor@) {
                    assert(views + rest =~= views.drop_last() + (seq![views.last()] + rest));
                }
            }
        }
        if failed {
            None
        } else {
            Some(expressions)
        }
    }

    fn parse_expression(&mut self) -> (r: Option<Ast>)
        requires
            old(self).wf(),
        ensures
            final(self).wf(),
            final(self).input() == old(self).input(),
            match r {
                Some(a) => statement_at(old(self).input(), old(self).cursor()) == Some(
                    (a@, final(self).cursor()),
                ),
                None => statement_at(old(self).input(), old(self).cursor()) is None,
            },
    {
        match self.current_token.token_type {
            TokenType::Insert => self.parse_insert(),
            TokenType::Delete => {
                self.next_token();
                Some(Ast::DeleteExpression)
            },
            TokenType::Select => {
                self.next_token();
                Some(Ast::SelectExpression)
            },
            _ => None,
        }
    }

    /// Moves one token on.
    fn next_token(&mut self)
        requires
            old(self).wf(),
        ensures
            final(self).wf(),
            final(self).input() == old(self).input(),
            final(self).cursor() == scan_token(old(self).input(), old(self).cursor()).1,
    {
        proof {
            lemma_scan_token(self.lexer.input(), self.cursor@);
        }
        let mut token = self.lexer.next_token();
        std::mem::swap(&mut self.peek_token, &mut token);
        self.current_token = token;
        self.cursor = Ghost(scan_token(self.lexer.input(), self.cursor@).1);
    }

    fn parse_insert(&mut self) -> (r: Option<Ast>)
        requires
            old(self).wf(),
            old(self).current_token.token_type == TokenType::Insert,
        ensures
            final(self).wf(),
            final(self).input() == old(self).input(),
            match r {
                Some(a) => statement_at(old(self).input(), old(self).cursor()) == Some(
                    (a@, final(self).cursor()),
                ),
                None => statement_at(old(self).input(), old(self).cursor()) is None,
            },
    {
        let ghost input = self.lexer.input();
        self.next_token();
        let ghost first = self.cursor@;
        let mut instructions: Vec<String> = Vec::new();
        assert(instructions@.map_values(|s: String| s@) =~= Seq::<Seq<char>>::empty());
        while self.current_token.token_type != TokenType::SemiColon && self.current_token.token_type
            != TokenType::Eof
            invariant
                self.wf(),
                self.input() == input,
                insert_args(input, first) == match insert_args(input, self.cursor@) {
                    Some((rest, end)) => Some(
                        (instructions@.map_values(|s: String| s@) + rest, end),
                    ),
                    None => None,
                },
            decreases input.len() - self.cursor@,
        {
            let ghost pos = self.cursor@;
            proof {
                lemma_scan_token(input, pos);
            }
            let ghost lit = self.current_token.literal@;
            instructions.push(self.current_token.literal.clone());
            self.next_token();
            proof {
                let views = instructions@.map_values(|s: String| s@);
                assert(views.drop_last() =~= instructions@.drop_last().map_values(|s: String| s@));
                assert(views.last() == lit);
                if let Some((rest, end)) = insert_args(input, self.cursor@) {
                    assert(views + rest =~= views.drop_last() + (seq![lit] + rest));
                }
            }
        }
        if self.current_token.token_type == TokenType::Eof {
            return None;
        }
        proof {
            let views = instructions@.map_values(|s: String| s@);
            assert(views + Seq::<Seq<char>>::empty() =~= views);
        }
        Some(Ast::InsertExpression(instructions))
    }
}

} // verus!
