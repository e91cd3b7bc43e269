use vstd::prelude::*;
use crate::token::{Token, SpecToken, TokenType, tokens_view, spec_is_digit, is_digit};
use crate::ast::{
    ParseNode, ParserError, Rational, Rat, is_syntax_error, fits, eval_result_matches, spec_eval,
};

verus! {

/// Why a parse failed: the cursor ran off the end, the current token fits no
/// grammar rule, a `(` was never closed, or a number lexeme denotes no value.
pub enum ParseErrKind {
    EndOfInput,
    UnexpectedToken,
    NoClosingParen,
    BadNumber,
}

/// The message reported for each kind of syntax error.
pub open spec fn syntax_error_message(k: ParseErrKind) -> Seq<char> {
    match k {
        ParseErrKind::EndOfInput => "Unexpected End Of Input"@,
        ParseErrKind::UnexpectedToken => "Unexpected Token"@,
        ParseErrKind::NoClosingParen => "No Closing Parenthesis Found"@,
        ParseErrKind::BadNumber => "Malformed Number Literal"@,
    }
}

/// What the grammar says about a token sequence read from some position:
/// the tree built and the first position not consumed, or the first error.
pub enum PResult {
    Parsed(ParseNode, int),
    Fail(ParseErrKind),
}

/// One step of the left-to-right scan of a number lexeme. `num` and `den`
/// accumulate the value read so far; after the one permitted `.`, each digit
/// multiplies `den` by ten. A `,`, a second `.`, any other character, or a
/// value beyond the machine word yields nothing.
pub open spec fn number_scan(lex: Seq<char>, i: int, num: int, den: int, seen_dot: bool) -> Option<
    Rat,
>
    decreases lex.len() - i,
{
    if i < 0 || i >= lex.len() {
        Some(Rat { num, den })
    } else if spec_is_digit(lex[i]) {
        let n2 = num * 10 + (lex[i] as u32 - 48);
        let d2 = if seen_dot {
            den * 10
        } else {
            den
        };
        if fits(n2) && fits(d2) {
            number_scan(lex, i + 1, n2, d2, seen_dot)
        } else {
            None
        }
    } else if lex[i] == '.' {
        if seen_dot {
            None
        } else {
            number_scan(lex, i + 1, num, den, true)
        }
    } else {
        None
    }
}

/// The exact rational a number lexeme denotes: a digit-led run of digits
/// with at most one `.`, read as a decimal numeral. Anything else — empty,
/// a `,` separator, two dots, or a numeral too large for the machine word —
/// denotes nothing and is rejected as malformed.
pub open spec fn spec_rat_of_lexeme(lex: Seq<char>) -> Option<Rat> {
    if lex.len() == 0 || !spec_is_digit(lex[0]) {
        None
    } else {
        number_scan(lex, 0, 0, 1, false)
    }
}

/// The machine rational with the fields of `v`; faithful when both fit.
pub open spec fn rat_to_rational(v: Rat) -> Rational {
    Rational { num: v.num as i128, den: v.den as i128 }
}

/// Converts a number lexeme into an exact rational, mirroring
/// `spec_rat_of_lexeme`.
fn rational_of_lexeme(lex: &String) -> (r: Option<Rational>)
    ensures
        match r {
            Some(v) => spec_rat_of_lexeme(lex@) == Some(v@) && v.den > 0 && (rat_to_rational(v@))
                == v,
            None => spec_rat_of_lexeme(lex@) is None,
        },
{
    let s = lex.as_str();
    let n = s.unicode_len();
    if n == 0 {
        return None;
    }
    if !is_digit(s.get_char(0)) {
        return None;
    }
    let mut num: i128 = 0;
    let mut den: i128 = 1;
    let mut seen_dot = false;
    let mut i: usize = 0;
    while i < n
        invariant
            s@ == lex@,
            n == lex@.len(),
            i <= n,
            0 <= num,
            1 <= den,
            spec_is_digit(lex@[0]),
            spec_rat_of_lexeme(lex@) == number_scan(lex@, i as int, num as int, den as int,
                seen_dot),
        decreases n - i,
    {
        let c = s.get_char(i);
        if is_digit(c) {
            let d = ((c as u32) as i128) - 48;
            match num.checked_mul(10) {
                None => {
                    return None;
                },
                Some(m) => match m.checked_add(d) {
                    None => {
                        return None;
                    },
                    Some(n2) => {
                        if seen_dot {
                            match den.checked_mul(10) {
                                None => {
                                    return None;
                                },
                                Some(d2) => {
                                    num = n2;
                                    den = d2;
                                },
                            }
                        } else {
                            num = n2;
                        }
                    },
                },
            }
        } else if c == '.' {
            if seen_dot {
                return None;
            }
            seen_dot = true;
        } else {
            return None;
        }
        i = i + 1;
    }
    Some(Rational { num, den })
}

/// Whether `t` continues an expression: a binary `+` or `-`.
pub open spec fn is_add_op(t: SpecToken) -> bool {
    t.typ == TokenType::BinaryOp && (t.lex == seq!['+'] || t.lex == seq!['-'])
}

/// Whether `t` continues a term: a `*` or `/` lexeme.
pub open spec fn is_mul_op(t: SpecToken) -> bool {
    t.lex == seq!['*'] || t.lex == seq!['/']
}

/// Whether `t` continues a power chain: a `^` lexeme.
pub open spec fn is_pow_op(t: SpecToken) -> bool {
    t.lex == seq!['^']
}

/// The grammar, one rule per function, precedence low to high and
/// left-associative at each level:
///
/// ```text
/// expression := term ( ('+' | '-') term )*
/// term       := power ( ('*' | '/') power )*
/// power      := factor ( '^' factor )*
/// factor     := Number | '(' expression ')'
/// ```
///
/// Repeated operators at one level fold left to right, so `a-b-c` reads as
/// `(a-b)-c` and `2^3^2` as `(2^3)^2`. A run past the end of the tokens is
/// an explicit end-of-input failure, never an out-of-range read.
pub open spec fn spec_parse_expression(toks: Seq<SpecToken>, pos: int) -> PResult
    decreases toks.len() - pos, 3int,
{
    match spec_parse_term(toks, pos) {
        PResult::Parsed(left, p) => if p <= pos || p > toks.len() {
            PResult::Fail(ParseErrKind::UnexpectedToken)
        } else {
            spec_parse_expression_rest(toks, p, left)
        },
        fail => fail,
    }
}

/// The `( ('+' | '-') term )*` tail, folding onto `acc` from the left.
pub open spec fn spec_parse_expression_rest(toks: Seq<SpecToken>, pos: int, acc: ParseNode) -> PResult
    decreases toks.len() - pos, 0int,
{
    if 0 <= pos < toks.len() && is_add_op(toks[pos]) {
        let op = toks[pos].lex[0];
        match spec_parse_term(toks, pos + 1) {
            PResult::Parsed(right, p2) => if p2 <= pos || p2 > toks.len() {
                PResult::Fail(ParseErrKind::UnexpectedToken)
            } else {
                spec_parse_expression_rest(
                    toks,
                    p2,
                    ParseNode::Binary(op, Box::new(acc), Box::new(right)),
                )
            },
            fail => fail,
        }
    } else {
        PResult::Parsed(acc, pos)
    }
}

/// `term := power ( ('*' | '/') power )*`.
pub open spec fn spec_parse_term(toks: Seq<SpecToken>, pos: int) -> PResult
    decreases toks.len() - pos, 2int,
{
    match spec_parse_power(toks, pos) {
        PResult::Parsed(left, p) => if p <= pos || p > toks.len() {
            PResult::Fail(ParseErrKind::UnexpectedToken)
        } else {
            spec_parse_term_rest(toks, p, left)
        },
        fail => fail,
    }
}

/// The `( ('*' | '/') power )*` tail, folding onto `acc` from the left.
pub open spec fn spec_parse_term_rest(toks: Seq<SpecToken>, pos: int, acc: ParseNode) -> PResult
    decreases toks.len() - pos, 0int,
{
    if 0 <= pos < toks.len() && is_mul_op(toks[pos]) {
        let op = toks[pos].lex[0];
        match spec_parse_power(toks, pos + 1) {
            PResult::Parsed(right, p2) => if p2 <= pos || p2 > toks.len() {
                PResult::Fail(ParseErrKind::UnexpectedToken)
            } else {
                spec_parse_term_rest(
                    toks,
                    p2,
                    ParseNode::Binary(op, Box::new(acc), Box::new(right)),
                )
            },
            fail => fail,
        }
    } else {
        PResult::Parsed(acc, pos)
    }
}

/// `power := factor ( '^' factor )*`, the tightest-binding level.
pub open spec fn spec_parse_power(toks: Seq<SpecToken>, pos: int) -> PResult
    decreases toks.len() - pos, 1int,
{
    match spec_parse_factor(toks, pos) {
        PResult::Parsed(left, p) => if p <= pos || p > toks.len() {
            PResult::Fail(ParseErrKind::UnexpectedToken)
        } else {
            spec_parse_power_rest(toks, p, left)
        },
        fail => fail,
    }
}

/// The `( '^' factor )*` tail, folding onto `acc` from the left.
pub open spec fn spec_parse_power_rest(toks: Seq<SpecToken>, pos: int, acc: ParseNode) -> PResult
    decreases toks.len() - pos, 0int,
{
    if 0 <= pos < toks.len() && is_pow_op(toks[pos]) {
        match spec_parse_factor(toks, pos + 1) {
            PResult::Parsed(right, p2) => if p2 <= pos || p2 > toks.len() {
                PResult::Fail(ParseErrKind::UnexpectedToken)
            } else {
                spec_parse_power_rest(
                    toks,
                    p2,
                    ParseNode::Binary('^', Box::new(acc), Box::new(right)),
                )
            },
            fail => fail,
        }
    } else {
        PResult::Parsed(acc, pos)
    }
}

/// `factor := Number | '(' expression ')'`. A unary minus or a function
/// name has no production and is rejected here as an unexpected token.
pub open spec fn spec_parse_factor(toks: Seq<SpecToken>, pos: int) -> PResult
    decreases toks.len() - pos, 0int,
{
    if pos < 0 || pos >= toks.len() {
        PResult::Fail(ParseErrKind::EndOfInput)
    } else if toks[pos].typ == TokenType::Number {
        match spec_rat_of_lexeme(toks[pos].lex) {
            Some(v) => PResult::Parsed(ParseNode::Number(rat_to_rational(v)), pos + 1),
            None => PResult::Fail(ParseErrKind::BadNumber),
        }
    } else if toks[pos].lex == seq!['('] {
        match spec_parse_expression(toks, pos + 1) {
            PResult::Parsed(node, p) => if 0 <= p < toks.len() && toks[p].lex == seq![')'] {
                PResult::Parsed(node, p + 1)
            } else {
                PResult::Fail(ParseErrKind::NoClosingParen)
            },
            fail => fail,
        }
    } else {
        PResult::Fail(ParseErrKind::UnexpectedToken)
    }
}

/// The parse of a whole token sequence: the expression grammar applied at
/// position zero. Tokens left over after one full expression are ignored.
pub open spec fn spec_parse(toks: Seq<SpecToken>) -> PResult {
    spec_parse_expression(toks, 0)
}

/// The contract each parsing method meets against its grammar rule's answer
/// `res`: a tree equal to the one the rule names, with the cursor on `end`,
/// or the error the rule names, carried as a syntax error message.
pub open spec fn parse_result_matches(
    r: Result<Box<ParseNode>, ParserError>,
    res: PResult,
    end: int,
) -> bool {
    match r {
        Ok(b) => res == PResult::Parsed(*b, end) && b.wf(),
        Err(e) => res matches PResult::Fail(k) && is_syntax_error(e, syntax_error_message(k)),
    }
}

/// Whether `t`'s lexeme is exactly the one character `c`.
fn lexeme_is_char(t: &Token, c: char) -> (r: bool)
    ensures
        r == (t.lex@ == seq![c]),
{
    let s = t.lex.as_str();
    let r = s.unicode_len() == 1 && s.get_char(0) == c;
    proof {
        if r {
            assert(t.lex@ =~= seq![c]);
        }
    }
    r
}

/// The recursive-descent parser: a cursor over an owned token buffer. The
/// buffer is replaced and the cursor reset for each line parsed.
pub struct Parser {
    pub curr_index: usize,
    pub all_tokens: Vec<Token>,
}

impl Parser {
    /// The token images the cursor walks over.
    pub open spec fn toks(&self) -> Seq<SpecToken> {
        tokens_view(self.all_tokens@)
    }

    /// The cursor never points past the end of the token buffer.
    pub open spec fn wf(&self) -> bool {
        self.curr_index <= self.all_tokens@.len()
    }

    /// A fresh parser: empty token buffer, cursor at the start.
    pub fn new() -> (p: Self)
        ensures
            p.wf(),
            p.curr_index == 0,
            p.all_tokens@.len() == 0,
    {
        Self { curr_index: 0, all_tokens: Vec::new() }
    }

    /// Advances the cursor one token; at the end of the buffer it stays put,
    /// and the end is reported by the read that finds no current token.
    fn next_token(&mut self)
        requires
            old(self).wf(),
        ensures
            final(self).wf(),
            final(self).all_tokens@ == old(self).all_tokens@,
            final(self).curr_index == if old(self).curr_index < old(self).all_tokens@.len() {
                old(self).curr_index + 1
            } else {
                old(self).curr_index as int
            },
    {
        if self.curr_index < self.all_tokens.len() {
            self.curr_index = self.curr_index + 1;
        }
    }

    /// Replaces the token buffer, resets the cursor, and parses one
    /// expression from the start.
    pub fn create_ast(&mut self, tokens: Vec<Token>) -> (r: Result<Box<ParseNode>, ParserError>)
        ensures
            final(self).wf(),
            final(self).all_tokens@ == tokens@,
            parse_result_matches(r, spec_parse(tokens_view(tokens@)),
                final(self).curr_index as int),
    {
        self.all_tokens = tokens;
        self.curr_index = 0;
        self.parse_expression()
    }

    /// `expression := term ( ('+' | '-') term )*`, folded left.
    fn parse_expression(&mut self) -> (r: Result<Box<ParseNode>, ParserError>)
        requires
            old(self).wf(),
        ensures
            final(self).wf(),
            final(self).all_tokens@ == old(self).all_tokens@,
            old(self).curr_index <= final(self).curr_index,
            r is Ok ==> old(self).curr_index < final(self).curr_index,
            parse_result_matches(r, spec_parse_expression(old(self).toks(),
                old(self).curr_index as int), final(self).curr_index as int),
        decreases old(self).all_tokens@.len() - old(self).curr_index, 3int,
    {
        let ghost toks = self.toks();
        let ghost pos0 = self.curr_index as int;
        let mut node = match self.parse_term() {
            Ok(n) => n,
            Err(e) => {
                return Err(e);
            },
        };
        loop
            invariant
                self.wf(),
                self.all_tokens@ == old(self).all_tokens@,
                toks == self.toks(),
                pos0 == old(self).curr_index as int,
                pos0 < self.curr_index as int <= toks.len(),
                node.wf(),
                spec_parse_expression(toks, pos0) == spec_parse_expression_rest(toks,
                    self.curr_index as int, *node),
            decreases toks.len() - self.curr_index,
        {
            if self.curr_index >= self.all_tokens.len() {
                return Ok(node);
            }
            proof {
                assert(toks[self.curr_index as int] == self.all_tokens@[self.curr_index as int]@);
            }
            let is_plus = lexeme_is_char(&self.all_tokens[self.curr_index], '+');
            let is_minus = lexeme_is_char(&self.all_tokens[self.curr_index], '-');
            let is_binary = self.all_tokens[self.curr_index].typ == TokenType::BinaryOp;
            if !((is_plus || is_minus) && is_binary) {
                return Ok(node);
            }
            let op = if is_plus {
                '+'
            } else {
                '-'
            };
            self.next_token();
            match self.parse_term() {
                Ok(right) => {
                    node = Box::new(ParseNode::Binary(op, node, right));
                },
                Err(e) => {
                    return Err(e);
                },
            }
        }
    }

    /// `term := power ( ('*' | '/') power )*`, folded left.
    fn parse_term(&mut self) -> (r: Result<Box<ParseNode>, ParserError>)
        requires
            old(self).wf(),
        ensures
            final(self).wf(),
            final(self).all_tokens@ == old(self).all_tokens@,
            old(self).curr_index <= final(self).curr_index,
            r is Ok ==> old(self).curr_index < final(self).curr_index,
            parse_result_matches(r, spec_parse_term(old(self).toks(),
                old(self).curr_index as int), final(self).curr_index as int),
        decreases old(self).all_tokens@.len() - old(self).curr_index, 2int,
    {
        let ghost toks = self.toks();
        let ghost pos0 = self.curr_index as int;
        let mut node = match self.parse_power() {
            Ok(n) => n,
            Err(e) => {
                return Err(e);
            },
        };
        loop
            invariant
                self.wf(),
                self.all_tokens@ == old(self).all_tokens@,
                toks == self.toks(),
                pos0 == old(self).curr_index as int,
                pos0 < self.curr_index as int <= toks.len(),
                node.wf(),
                spec_parse_term(toks, pos0) == spec_parse_term_rest(toks, self.curr_index as int,
                    *node),
            decreases toks.len() - self.curr_index,
        {
            if self.curr_index >= self.all_tokens.len() {
                return Ok(node);
            }
            proof {
                assert(toks[self.curr_index as int] == self.all_tokens@[self.curr_index as int]@);
            }
            let is_times = lexeme_is_char(&self.all_tokens[self.curr_index], '*');
            let is_slash = lexeme_is_char(&self.all_tokens[self.curr_index], '/');
            if !(is_times || is_slash) {
                return Ok(node);
            }
            let op = if is_times {
                '*'
            } else {
                '/'
            };
            self.next_token();
            match self.parse_power() {
                Ok(right) => {
                    node = Box::new(ParseNode::Binary(op, node, right));
                },
                Err(e) => {
                    return Err(e);
                },
            }
        }
    }

    /// `power := factor ( '^' factor )*`, folded left: `2^3^2` is `(2^3)^2`.
    fn parse_power(&mut self) -> (r: Result<Box<ParseNode>, ParserError>)
        requires
            old(self).wf(),
        ensures
            final(self).wf(),
            final(self).all_tokens@ == old(self).all_tokens@,
            old(self).curr_index <= final(self).curr_index,
            r is Ok ==> old(self).curr_index < final(self).curr_index,
            parse_result_matches(r, spec_parse_power(old(self).toks(),
                old(self).curr_index as int), final(self).curr_index as int),
        decreases old(self).all_tokens@.len() - old(self).curr_index, 1int,
    {
        let ghost toks = self.toks();
        let ghost pos0 = self.curr_index as int;
        let mut node = match self.parse_factor() {
            Ok(n) => n,
            Err(e) => {
                return Err(e);
            },
        };
        loop
            invariant
                self.wf(),
                self.all_tokens@ == old(self).all_tokens@,
                toks == self.toks(),
                pos0 == old(self).curr_index as int,
                pos0 < self.curr_index as int <= toks.len(),
                node.wf(),
                spec_parse_power(toks, pos0) == spec_parse_power_rest(toks, self.curr_index as int,
                    *node),
            decreases toks.len() - self.curr_index,
        {
            if self.curr_index >= self.all_tokens.len() {
                return Ok(node);
            }
            proof {
                assert(toks[self.curr_index as int] == self.all_tokens@[self.curr_index as int]@);
            }
            if !lexeme_is_char(&self.all_tokens[self.curr_index], '^') {
                return Ok(node);
            }
            self.next_token();
            match self.parse_factor() {
                Ok(right) => {
                    node = Box::new(ParseNode::Binary('^', node, right));
                },
                Err(e) => {
                    return Err(e);
                },
            }
        }
    }

    /// `factor := Number | '(' expression ')'`. A missing `)` and a read
    /// past the last token are reported as syntax errors; a malformed
    /// number lexeme is rejected here rather than aborting.
    fn parse_factor(&mut self) -> (r: Result<Box<ParseNode>, ParserError>)
        requires
            old(self).wf(),
        ensures
            final(self).wf(),
            final(self).all_tokens@ == old(self).all_tokens@,
            old(self).curr_index <= final(self).curr_index,
            r is Ok ==> old(self).curr_index < final(self).curr_index,
            parse_result_matches(r, spec_parse_factor(old(self).toks(),
                old(self).curr_index as int), final(self).curr_index as int),
        decreases old(self).all_tokens@.len() - old(self).curr_index, 0int,
    {
        if self.curr_index >= self.all_tokens.len() {
            return Err(ParserError::SyntaxError(String::from_str("Unexpected End Of Input")));
        }
        let is_number = self.all_tokens[self.curr_index].typ == TokenType::Number;
        if is_number {
            let converted = rational_of_lexeme(&self.all_tokens[self.curr_index].lex);
            match converted {
                Some(v) => {
                    self.next_token();
                    Ok(Box::new(ParseNode::Number(v)))
                },
                None => Err(ParserError::SyntaxError(String::from_str(
                    "Malformed Number Literal",
                ))),
            }
        } else if lexeme_is_char(&self.all_tokens[self.curr_index], '(') {
            self.next_token();
            match self.parse_expression() {
                Ok(node) => {
                    if self.curr_index < self.all_tokens.len() && lexeme_is_char(
                        &self.all_tokens[self.curr_index],
                        ')',
                    ) {
                        self.next_token();
                        Ok(node)
                    } else {
                        Err(ParserError::SyntaxError(String::from_str(
                            "No Closing Parenthesis Found",
                        )))
                    }
                },
                Err(e) => Err(e),
            }
        } else {
            Err(ParserError::SyntaxError(String::from_str("Unexpected Token")))
        }
    }
}

/// Parses one expression from `tokens` and evaluates it exactly: the two
/// entry points of the core, chained.
pub fn parse_and_evaluate(tokens: Vec<Token>) -> (r: Result<Rational, ParserError>)
    ensures
        match spec_parse(tokens_view(tokens@)) {
            PResult::Parsed(node, _) => eval_result_matches(r, spec_eval(node)),
            PResult::Fail(k) => r matches Err(e) && is_syntax_error(e, syntax_error_message(k)),
        },
{
    let mut parser = Parser::new();
    match parser.create_ast(tokens) {
        Ok(node) => node.evaluate(),
        Err(e) => Err(e),
    }
}


/// What a rule parses ends strictly past where it began and never past the
/// end of the tokens; the bound guards in the rules above therefore never
/// pick their failing arm.
proof fn lemma_positions_factor(toks: Seq<SpecToken>, pos: int)
    requires
        0 <= pos <= toks.len(),
    ensures
        spec_parse_factor(toks, pos) matches PResult::Parsed(_, p) ==> pos < p <= toks.len(),
    decreases toks.len() - pos, 0int,
{
    if pos < toks.len() && toks[pos].typ != TokenType::Number && toks[pos].lex == seq!['('] {
        lemma_positions_expression(toks, pos + 1);
    }
}

proof fn lemma_positions_power(toks: Seq<SpecToken>, pos: int)
    requires
        0 <= pos <= toks.len(),
    ensures
        spec_parse_power(toks, pos) matches PResult::Parsed(_, p) ==> pos < p <= toks.len(),
    decreases toks.len() - pos, 1int,
{
    lemma_positions_factor(toks, pos);
    match spec_parse_factor(toks, pos) {
        PResult::Parsed(left, p) => {
            if !(p <= pos || p > toks.len()) {
                lemma_positions_power_rest(toks, p, left);
            }
        },
        _ => {},
    }
}

proof fn lemma_positions_power_rest(toks: Seq<SpecToken>, pos: int, acc: ParseNode)
    requires
        0 <= pos <= toks.len(),
    ensures
        spec_parse_power_rest(toks, pos, acc) matches PResult::Parsed(_, p) ==> pos <= p
            <= toks.len(),
    decreases toks.len() - pos, 0int,
{
    if 0 <= pos < toks.len() && is_pow_op(toks[pos]) {
        lemma_positions_factor(toks, pos + 1);
        match spec_parse_factor(toks, pos + 1) {
            PResult::Parsed(right, p2) => {
                if !(p2 <= pos || p2 > toks.len()) {
                    lemma_positions_power_rest(toks, p2, ParseNode::Binary('^', Box::new(acc),
                        Box::new(right)));
                }
            },
            _ => {},
        }
    }
}

proof fn lemma_positions_term(toks: Seq<SpecToken>, pos: int)
    requires
        0 <= pos <= toks.len(),
    ensures
        spec_parse_term(toks, pos) matches PResult::Parsed(_, p) ==> pos < p <= toks.len(),
    decreases toks.len() - pos, 2int,
{
    lemma_positions_power(toks, pos);
    match spec_parse_power(toks, pos) {
        PResult::Parsed(left, p) => {
            if !(p <= pos || p > toks.len()) {
                lemma_positions_term_rest(toks, p, left);
            }
        },
        _ => {},
    }
}

proof fn lemma_positions_term_rest(toks: Seq<SpecToken>, pos: int, acc: ParseNode)
    requires
        0 <= pos <= toks.len(),
    ensures
        spec_parse_term_rest(toks, pos, acc) matches PResult::Parsed(_, p) ==> pos <= p
            <= toks.len(),
    decreases toks.len() - pos, 0int,
{
    if 0 <= pos < toks.len() && is_mul_op(toks[pos]) {
        let op = toks[pos].lex[0];
        lemma_positions_power(toks, pos + 1);
        match spec_parse_power(toks, pos + 1) {
            PResult::Parsed(right, p2) => {
                if !(p2 <= pos || p2 > toks.len()) {
                    lemma_positions_term_rest(toks, p2, ParseNode::Binary(op, Box::new(acc),
                        Box::new(right)));
                }
            },
            _ => {},
        }
    }
}

proof fn lemma_positions_expression(toks: Seq<SpecToken>, pos: int)
    requires
        0 <= pos <= toks.len(),
    ensures
        spec_parse_expression(toks, pos) matches PResult::Parsed(_, p) ==> pos < p <= toks.len(),
    decreases toks.len() - pos, 3int,
{
    lemma_positions_term(toks, pos);
    match spec_parse_term(toks, pos) {
        PResult::Parsed(left, p) => {
            if !(p <= pos || p > toks.len()) {
                lemma_positions_expression_rest(toks, p, left);
            }
        },
        _ => {},
    }
}

proof fn lemma_positions_expression_rest(toks: Seq<SpecToken>, pos: int, acc: ParseNode)
    requires
        0 <= pos <= toks.len(),
    ensures
        spec_parse_expression_rest(toks, pos, acc) matches PResult::Parsed(_, p) ==> pos <= p
            <= toks.len(),
    decreases toks.len() - pos, 0int,
{
    if 0 <= pos < toks.len() && is_add_op(toks[pos]) {
        let op = toks[pos].lex[0];
        lemma_positions_term(toks, pos + 1);
        match spec_parse_term(toks, pos + 1) {
            PResult::Parsed(right, p2) => {
                if !(p2 <= pos || p2 > toks.len()) {
                    lemma_positions_expression_rest(toks, p2, ParseNode::Binary(op, Box::new(acc),
                        Box::new(right)));
                }
            },
            _ => {},
        }
    }
}

/// A successful parse of a token sequence consumes at least one token and
/// never reads past the end.
pub proof fn lemma_parse_consumes(toks: Seq<SpecToken>)
    ensures
        spec_parse(toks) matches PResult::Parsed(_, p) ==> 0 < p <= toks.len(),
{
    lemma_positions_expression(toks, 0);
}


/// An empty token sequence parses to an end-of-input syntax failure, never
/// an out-of-range read.
pub proof fn lemma_empty_input_fails_to_parse()
    ensures
        spec_parse(Seq::<SpecToken>::empty()) == PResult::Fail(ParseErrKind::EndOfInput),
{
    let toks = Seq::<SpecToken>::empty();
    assert(spec_parse_factor(toks, 0) == PResult::Fail(ParseErrKind::EndOfInput));
    assert(spec_parse_power(toks, 0) == PResult::Fail(ParseErrKind::EndOfInput));
    assert(spec_parse_term(toks, 0) == PResult::Fail(ParseErrKind::EndOfInput));
}

} // verus!
