//! Predictive recursive-descent parsing of a token sequence into an abstract
//! syntax tree, with one token of lookahead and three precedence tiers:
//!
//! ```text
//! expression := term ( ('+'|'-') expression )?
//!             | identifier '=' expression
//! term       := factor ( ('*'|'/') term )?
//! factor     := number | identifier | ('+'|'-') factor | '(' expression ')'
//! ```
//!
//! Repeated operators of one tier nest to the right. Assignment is recognized
//! only when the term before `=` reduced to a bare variable. An error token is
//! propagated at once as a parse failure carrying the offending text. Trailing
//! tokens after a structurally complete expression are left unconsumed, not
//! rejected.

use vstd::prelude::*;

use crate::lexer::Operator;
use crate::lexer::Token;
use crate::lexer::TokenModel;

verus! {

/// An abstract syntax tree node. Each node exclusively owns its children.
#[derive(PartialEq, Debug)]
pub enum ParseTree {
    Sum(SumOp, Box<ParseTree>, Box<ParseTree>),
    Prod(ProdOp, Box<ParseTree>, Box<ParseTree>),
    Assign(String, Box<ParseTree>),
    Unary(SumOp, Box<ParseTree>),
    Num(i32),
    Var(String),
}

/// An additive operator.
#[derive(PartialEq, Debug)]
pub enum SumOp {
    Plus,
    Minus,
}

/// A multiplicative operator.
#[derive(PartialEq, Debug)]
pub enum ProdOp {
    Times,
    Divide,
}

/// Mathematical model of a syntax tree: names as character sequences.
pub enum TreeModel {
    Sum(SumOp, Box<TreeModel>, Box<TreeModel>),
    Prod(ProdOp, Box<TreeModel>, Box<TreeModel>),
    Assign(Seq<char>, Box<TreeModel>),
    Unary(SumOp, Box<TreeModel>),
    Num(i32),
    Var(Seq<char>),
}

/// The model of a syntax tree.
pub open spec fn tree_model(t: ParseTree) -> TreeModel
    decreases t,
{
    match t {
        ParseTree::Sum(op, l, r) => TreeModel::Sum(
            op,
            Box::new(tree_model(*l)),
            Box::new(tree_model(*r)),
        ),
        ParseTree::Prod(op, l, r) => TreeModel::Prod(
            op,
            Box::new(tree_model(*l)),
            Box::new(tree_model(*r)),
        ),
        ParseTree::Assign(name, v) => TreeModel::Assign(name@, Box::new(tree_model(*v))),
        ParseTree::Unary(op, t0) => TreeModel::Unary(op, Box::new(tree_model(*t0))),
        ParseTree::Num(n) => TreeModel::Num(n),
        ParseTree::Var(name) => TreeModel::Var(name@),
    }
}

impl DeepView for ParseTree {
    type V = TreeModel;

    open spec fn deep_view(&self) -> TreeModel {
        tree_model(*self)
    }
}

/// Why a parse failed.
#[derive(PartialEq, Debug)]
pub enum ParseError {
    /// No input has been parsed yet.
    NothingToParse,
    /// The input ended, or a token closed a group, where an operand was
    /// expected.
    UnexpectedEnd,
    /// A `*` or `/` stood where a factor was expected.
    InvalidUnary,
    /// A parenthesized expression was not closed.
    MissingRParen,
    /// Something other than a bare variable stood before `=`.
    AssignTarget,
    /// The lexer emitted an error token; its text is carried along.
    ErrorToken(String),
}

/// Mathematical model of a parse error: text as a character sequence.
pub enum ParseErrorModel {
    NothingToParse,
    UnexpectedEnd,
    InvalidUnary,
    MissingRParen,
    AssignTarget,
    ErrorToken(Seq<char>),
}

impl DeepView for ParseError {
    type V = ParseErrorModel;

    open spec fn deep_view(&self) -> ParseErrorModel {
        match self {
            ParseError::NothingToParse => ParseErrorModel::NothingToParse,
            ParseError::UnexpectedEnd => ParseErrorModel::UnexpectedEnd,
            ParseError::InvalidUnary => ParseErrorModel::InvalidUnary,
            ParseError::MissingRParen => ParseErrorModel::MissingRParen,
            ParseError::AssignTarget => ParseErrorModel::AssignTarget,
            ParseError::ErrorToken(s) => ParseErrorModel::ErrorToken(s@),
        }
    }
}

/// The model of a parse result.
pub open spec fn tree_result_model(r: Result<Box<ParseTree>, ParseError>) -> Result<
    TreeModel,
    ParseErrorModel,
> {
    match r {
        Ok(t) => Ok(t.deep_view()),
        Err(e) => Err(e.deep_view()),
    }
}

/// The token at position `i`; past the end the lookahead reads as end of
/// input, which the grammar treats the same way.
pub open spec fn tok_at(ts: Seq<TokenModel>, i: int) -> TokenModel {
    if 0 <= i < ts.len() {
        ts[i]
    } else {
        TokenModel::End
    }
}

/// How many tokens are left at position `i`.
pub open spec fn toks_left(ts: Seq<TokenModel>, i: int) -> int {
    if i <= ts.len() {
        ts.len() - i
    } else {
        0
    }
}

/// What parsing a factor at position `i` yields, and the position after it.
pub open spec fn spec_factor(ts: Seq<TokenModel>, i: int) -> (Result<TreeModel, ParseErrorModel>, int)
    decreases toks_left(ts, i), 0int,
{
    match tok_at(ts, i) {
        TokenModel::Num(n) => (Ok(TreeModel::Num(n)), i + 1),
        TokenModel::Ident(name) => (Ok(TreeModel::Var(name)), i + 1),
        TokenModel::Op(op) => {
            if op == Operator::Plus || op == Operator::Minus {
                let sop = if op == Operator::Plus {
                    SumOp::Plus
                } else {
                    SumOp::Minus
                };
                let (r, j) = spec_factor(ts, i + 1);
                match r {
                    Ok(t) => (Ok(TreeModel::Unary(sop, Box::new(t))), j),
                    Err(e) => (Err(e), j),
                }
            } else {
                (Err(ParseErrorModel::InvalidUnary), i + 1)
            }
        },
        TokenModel::LParen => {
            let (r, j) = spec_expression(ts, i + 1);
            match r {
                Ok(t) => {
                    if tok_at(ts, j) == TokenModel::RParen {
                        (Ok(t), j + 1)
                    } else {
                        (Err(ParseErrorModel::MissingRParen), j)
                    }
                },
                Err(e) => (Err(ParseErrorModel::MissingRParen), j),
            }
        },
        TokenModel::Error(text) => (Err(ParseErrorModel::ErrorToken(text)), i + 1),
        _ => (Err(ParseErrorModel::UnexpectedEnd), i),
    }
}

/// What parsing a term at position `i` yields, and the position after it.
pub open spec fn spec_term(ts: Seq<TokenModel>, i: int) -> (Result<TreeModel, ParseErrorModel>, int)
    decreases toks_left(ts, i), 1int,
{
    if i >= ts.len() {
        // Past the end the first factor reads end of input; written out so
        // each recursive call below starts strictly inside the sequence.
        (Err(ParseErrorModel::UnexpectedEnd), i)
    } else {
        let (r, j) = spec_factor(ts, i);
        match r {
            Err(e) => (Err(e), j),
            Ok(ft) => match tok_at(ts, j) {
                TokenModel::Op(op) => {
                    if op == Operator::Times || op == Operator::Divide {
                        let pop = if op == Operator::Times {
                            ProdOp::Times
                        } else {
                            ProdOp::Divide
                        };
                        let k = if j + 1 > i + 1 {
                            j + 1
                        } else {
                            i + 1
                        };
                        let (r2, m) = spec_term(ts, k);
                        match r2 {
                            Ok(tt) => (Ok(TreeModel::Prod(pop, Box::new(ft), Box::new(tt))), m),
                            Err(e) => (Err(e), m),
                        }
                    } else {
                        (Ok(ft), j)
                    }
                },
                TokenModel::Error(text) => (Err(ParseErrorModel::ErrorToken(text)), j + 1),
                _ => (Ok(ft), j),
            },
        }
    }
}

/// What parsing an expression at position `i` yields, and the position after
/// it.
pub open spec fn spec_expression(ts: Seq<TokenModel>, i: int) -> (
    Result<TreeModel, ParseErrorModel>,
    int,
)
    decreases toks_left(ts, i), 2int,
{
    if i >= ts.len() {
        // Past the end the first factor reads end of input; written out so
        // each recursive call below starts strictly inside the sequence.
        (Err(ParseErrorModel::UnexpectedEnd), i)
    } else {
        let (r, j) = spec_term(ts, i);
        match r {
            Err(e) => (Err(e), j),
            Ok(tt) => match tok_at(ts, j) {
                TokenModel::Op(op) => {
                    if op == Operator::Plus || op == Operator::Minus {
                        let sop = if op == Operator::Plus {
                            SumOp::Plus
                        } else {
                            SumOp::Minus
                        };
                        let k = if j + 1 > i + 1 {
                            j + 1
                        } else {
                            i + 1
                        };
                        let (r2, m) = spec_expression(ts, k);
                        match r2 {
                            Ok(et) => (Ok(TreeModel::Sum(sop, Box::new(tt), Box::new(et))), m),
                            Err(e) => (Err(e), m),
                        }
                    } else {
                        (Ok(tt), j)
                    }
                },
                TokenModel::Assign => match tt {
                    TreeModel::Var(name) => {
                        let k = if j + 1 > i + 1 {
                            j + 1
                        } else {
                            i + 1
                        };
                        let (r2, m) = spec_expression(ts, k);
                        match r2 {
                            Ok(et) => (Ok(TreeModel::Assign(name, Box::new(et))), m),
                            Err(e) => (Err(e), m),
                        }
                    },
                    _ => (Err(ParseErrorModel::AssignTarget), j + 1),
                },
                TokenModel::Error(text) => (Err(ParseErrorModel::ErrorToken(text)), j + 1),
                _ => (Ok(tt), j),
            },
        }
    }
}

/// What parsing a whole token sequence yields.
pub open spec fn spec_parse(ts: Seq<TokenModel>) -> Result<TreeModel, ParseErrorModel> {
    spec_expression(ts, 0).0
}

/// Whether every variable name in the tree is nonempty.
pub open spec fn tree_names_nonempty(t: TreeModel) -> bool
    decreases t,
{
    match t {
        TreeModel::Sum(_, l, r) => tree_names_nonempty(*l) && tree_names_nonempty(*r),
        TreeModel::Prod(_, l, r) => tree_names_nonempty(*l) && tree_names_nonempty(*r),
        TreeModel::Unary(_, t0) => tree_names_nonempty(*t0),
        TreeModel::Assign(name, v) => name.len() > 0 && tree_names_nonempty(*v),
        TreeModel::Num(_) => true,
        TreeModel::Var(name) => name.len() > 0,
    }
}

/// Whether every identifier token in the sequence is nonempty.
pub open spec fn idents_nonempty(ts: Seq<TokenModel>) -> bool {
    forall|k: int| 0 <= k < ts.len() && (#[trigger] ts[k]) is Ident ==> ts[k]->Ident_0.len() > 0
}

proof fn lemma_factor_names(ts: Seq<TokenModel>, i: int)
    requires
        idents_nonempty(ts),
    ensures
        spec_factor(ts, i).0 is Ok ==> tree_names_nonempty(spec_factor(ts, i).0->Ok_0),
    decreases toks_left(ts, i), 0int,
{
    match tok_at(ts, i) {
        TokenModel::Ident(name) => {
            assert(ts[i] is Ident);
        },
        TokenModel::Op(op) => {
            if op == Operator::Plus || op == Operator::Minus {
                lemma_factor_names(ts, i + 1);
            }
        },
        TokenModel::LParen => {
            lemma_expression_names(ts, i + 1);
        },
        _ => {},
    }
}

proof fn lemma_term_names(ts: Seq<TokenModel>, i: int)
    requires
        idents_nonempty(ts),
    ensures
        spec_term(ts, i).0 is Ok ==> tree_names_nonempty(spec_term(ts, i).0->Ok_0),
    decreases toks_left(ts, i), 1int,
{
    if i < ts.len() {
        lemma_factor_names(ts, i);
        let (r, j) = spec_factor(ts, i);
        if r is Ok {
            match tok_at(ts, j) {
                TokenModel::Op(op) => {
                    if op == Operator::Times || op == Operator::Divide {
                        let k = if j + 1 > i + 1 {
                            j + 1
                        } else {
                            i + 1
                        };
                        lemma_term_names(ts, k);
                    }
                },
                _ => {},
            }
        }
    }
}

proof fn lemma_expression_names(ts: Seq<TokenModel>, i: int)
    requires
        idents_nonempty(ts),
    ensures
        spec_expression(ts, i).0 is Ok ==> tree_names_nonempty(spec_expression(ts, i).0->Ok_0),
    decreases toks_left(ts, i), 2int,
{
    if i < ts.len() {
        lemma_term_names(ts, i);
        let (r, j) = spec_term(ts, i);
        if r is Ok {
            match tok_at(ts, j) {
                TokenModel::Op(op) => {
                    if op == Operator::Plus || op == Operator::Minus {
                        let k = if j + 1 > i + 1 {
                            j + 1
                        } else {
                            i + 1
                        };
                        lemma_expression_names(ts, k);
                    }
                },
                TokenModel::Assign => {
                    let k = if j + 1 > i + 1 {
                        j + 1
                    } else {
                        i + 1
                    };
                    lemma_expression_names(ts, k);
                },
                _ => {},
            }
        }
    }
}

/// Law: a tree parsed from tokens whose identifiers are all nonempty never
/// holds an empty variable name, in a `Var` or an `Assign` node.
pub proof fn lemma_parse_names_nonempty(ts: Seq<TokenModel>)
    requires
        idents_nonempty(ts),
    ensures
        spec_parse(ts) is Ok ==> tree_names_nonempty(spec_parse(ts)->Ok_0),
{
    lemma_expression_names(ts, 0);
}

/// Law: a tree parsed from a lexed line never holds an empty variable name;
/// the lexer only emits nonempty identifiers, and the parser only builds
/// names from identifier tokens.
pub proof fn lemma_lexed_line_names_nonempty(s: Seq<char>)
    ensures
        spec_parse(crate::lexer::spec_lex(s)) is Ok ==> tree_names_nonempty(
            spec_parse(crate::lexer::spec_lex(s))->Ok_0,
        ),
{
    crate::lexer::lemma_lex_well_formed(s);
    lemma_parse_names_nonempty(crate::lexer::spec_lex(s));
}

/// The parser: it holds the tree of the last line parsed, or why there is
/// none.
#[derive(Debug)]
pub struct Parser {
    pub tree: Result<Box<ParseTree>, ParseError>,
}

impl Parser {
    pub fn new() -> (p: Parser)
        ensures
            p.tree == Err::<Box<ParseTree>, ParseError>(ParseError::NothingToParse),
    {
        Parser { tree: Err(ParseError::NothingToParse) }
    }

    /// Parses one line's tokens into a tree, kept in `self.tree`.
    pub fn parse(&mut self, tokens: Vec<Token>)
        ensures
            tree_result_model(final(self).tree) == spec_parse(tokens.deep_view()),
    {
        let (r, _last) = Parser::expression(&tokens, 0);
        self.tree = r;
    }

    fn expression(tokens: &Vec<Token>, i: usize) -> (res: (
        Result<Box<ParseTree>, ParseError>,
        usize,
    ))
        requires
            i <= tokens@.len(),
        ensures
            ({
                let (sr, sj) = spec_expression(tokens.deep_view(), i as int);
                &&& tree_result_model(res.0) == sr
                &&& res.1 as int == sj
            }),
            res.1 <= tokens@.len(),
            res.0 is Ok ==> res.1 > i,
        decreases tokens@.len() - i, 2int,
    {
        let (r, j) = Parser::term(tokens, i);
        match r {
            Err(e) => (Err(e), j),
            Ok(tt) => {
                if j < tokens.len() {
                    match &tokens[j] {
                        Token::Op(op) => match op {
                            Operator::Plus | Operator::Minus => {
                                let sop = match op {
                                    Operator::Plus => SumOp::Plus,
                                    _ => SumOp::Minus,
                                };
                                let (r2, m) = Parser::expression(tokens, j + 1);
                                match r2 {
                                    Ok(et) => (Ok(Box::new(ParseTree::Sum(sop, tt, et))), m),
                                    Err(e) => (Err(e), m),
                                }
                            },
                            _ => (Ok(tt), j),
                        },
                        Token::Assign => match *tt {
                            ParseTree::Var(name) => {
                                let (r2, m) = Parser::expression(tokens, j + 1);
                                match r2 {
                                    Ok(et) => (Ok(Box::new(ParseTree::Assign(name, et))), m),
                                    Err(e) => (Err(e), m),
                                }
                            },
                            _ => (Err(ParseError::AssignTarget), j + 1),
                        },
                        Token::Error(text) => (Err(ParseError::ErrorToken(text.clone())), j + 1),
                        _ => (Ok(tt), j),
                    }
                } else {
                    (Ok(tt), j)
                }
            },
        }
    }

    fn term(tokens: &Vec<Token>, i: usize) -> (res: (Result<Box<ParseTree>, ParseError>, usize))
        requires
            i <= tokens@.len(),
        ensures
            ({
                let (sr, sj) = spec_term(tokens.deep_view(), i as int);
                &&& tree_result_model(res.0) == sr
                &&& res.1 as int == sj
            }),
            res.1 <= tokens@.len(),
            res.0 is Ok ==> res.1 > i,
        decreases tokens@.len() - i, 1int,
    {
        let (r, j) = Parser::factor(tokens, i);
        match r {
            Err(e) => (Err(e), j),
            Ok(ft) => {
                if j < tokens.len() {
                    match &tokens[j] {
                        Token::Op(op) => match op {
                            Operator::Times | Operator::Divide => {
                                let pop = match op {
                                    Operator::Times => ProdOp::Times,
                                    _ => ProdOp::Divide,
                                };
                                let (r2, m) = Parser::term(tokens, j + 1);
                                match r2 {
                                    Ok(tt) => (Ok(Box::new(ParseTree::Prod(pop, ft, tt))), m),
                                    Err(e) => (Err(e), m),
                                }
                            },
                            _ => (Ok(ft), j),
                        },
                        Token::Error(text) => (Err(ParseError::ErrorToken(text.clone())), j + 1),
                        _ => (Ok(ft), j),
                    }
                } else {
                    (Ok(ft), j)
                }
            },
        }
    }

    fn factor(tokens: &Vec<Token>, i: usize) -> (res: (Result<Box<ParseTree>, ParseError>, usize))
        requires
            i <= tokens@.len(),
        ensures
            ({
                let (sr, sj) = spec_factor(tokens.deep_view(), i as int);
                &&& tree_result_model(res.0) == sr
                &&& res.1 as int == sj
            }),
            res.1 <= tokens@.len(),
            res.0 is Ok ==> res.1 > i,
        decreases tokens@.len() - i, 0int,
    {
        if i < tokens.len() {
            match &tokens[i] {
                Token::Num(n) => (Ok(Box::new(ParseTree::Num(*n))), i + 1),
                Token::Ident(name) => (Ok(Box::new(ParseTree::Var(name.clone()))), i + 1),
                Token::Op(op) => match op {
                    Operator::Plus | Operator::Minus => {
                        let sop = match op {
                            Operator::Plus => SumOp::Plus,
                            _ => SumOp::Minus,
                        };
                        let (r, j) = Parser::factor(tokens, i + 1);
                        match r {
                            Ok(t) => (Ok(Box::new(ParseTree::Unary(sop, t))), j),
                            Err(e) => (Err(e), j),
                        }
                    },
                    _ => (Err(ParseError::InvalidUnary), i + 1),
                },
                Token::LParen => {
                    let (r, j) = Parser::expression(tokens, i + 1);
                    match r {
                        Ok(t) => {
                            if rparen_at(tokens, j) {
                                (Ok(t), j + 1)
                            } else {
                                (Err(ParseError::MissingRParen), j)
                            }
                        },
                        Err(_) => (Err(ParseError::MissingRParen), j),
                    }
                },
                Token::Error(text) => (Err(ParseError::ErrorToken(text.clone())), i + 1),
                _ => (Err(ParseError::UnexpectedEnd), i),
            }
        } else {
            (Err(ParseError::UnexpectedEnd), i)
        }
    }
}

/// Whether the token at position `j` closes a group.
fn rparen_at(tokens: &Vec<Token>, j: usize) -> (r: bool)
    ensures
        r == (tok_at(tokens.deep_view(), j as int) == TokenModel::RParen),
{
    if j < tokens.len() {
        match &tokens[j] {
            Token::RParen => true,
            _ => false,
        }
    } else {
        false
    }
}

} // verus!
