use vstd::prelude::*;
use crate::token::{
    Token, TokenType, SpecToken, tokens_view, spec_is_operator, spec_is_decimal,
    spec_is_parenthesis, spec_is_digit, spec_is_alpha, spec_is_space, is_operator, is_decimal,
    is_parenthesis, is_digit, is_alpha, is_space,
};

verus! {

/// The token the scanner pretends precedes the input: a number sentinel, so
/// that a minus at the very start of a line is read as a binary operator.
pub open spec fn initial_last_token() -> SpecToken {
    SpecToken { typ: TokenType::Number, lex: seq!['0'] }
}

/// Length of the longest prefix of `s` made of digits and decimal separators.
pub open spec fn number_run(s: Seq<char>) -> nat
    decreases s.len(),
{
    if s.len() == 0 || !(spec_is_digit(s[0]) || spec_is_decimal(s[0])) {
        0
    } else {
        1 + number_run(s.drop_first())
    }
}

/// Length of the longest prefix of `s` made of letters.
pub open spec fn alpha_run(s: Seq<char>) -> nat
    decreases s.len(),
{
    if s.len() == 0 || !spec_is_alpha(s[0]) {
        0
    } else {
        1 + alpha_run(s.drop_first())
    }
}

pub proof fn lemma_number_run_le(s: Seq<char>)
    ensures
        number_run(s) <= s.len(),
    decreases s.len(),
{
    if s.len() > 0 && (spec_is_digit(s[0]) || spec_is_decimal(s[0])) {
        lemma_number_run_le(s.drop_first());
    }
}

pub proof fn lemma_alpha_run_le(s: Seq<char>)
    ensures
        alpha_run(s) <= s.len(),
    decreases s.len(),
{
    if s.len() > 0 && spec_is_alpha(s[0]) {
        lemma_alpha_run_le(s.drop_first());
    }
}

/// The classification an operator character receives from one token of
/// lookback: `-` is unary after a binary operator or an opening parenthesis,
/// and every other operator occurrence is binary.
pub open spec fn operator_kind(c: char, last: SpecToken) -> TokenType {
    if c == '-' && (last.typ == TokenType::BinaryOp || (last.typ == TokenType::Parenthesis
        && last.lex == seq!['('])) {
        TokenType::UnaryOp
    } else {
        TokenType::BinaryOp
    }
}

/// The token sequence of `s`, scanned left to right with `last` as the most
/// recently emitted token. Blanks and unrecognized characters are skipped; a
/// digit begins a maximal run of digits and decimal separators; a letter
/// begins a maximal run of letters; operators and parentheses stand alone.
pub open spec fn spec_tokenize_from(s: Seq<char>, last: SpecToken) -> Seq<SpecToken>
    decreases s.len(),
    via spec_tokenize_from_decreases
{
    if s.len() == 0 {
        Seq::empty()
    } else if spec_is_space(s[0]) {
        spec_tokenize_from(s.drop_first(), last)
    } else if spec_is_digit(s[0]) {
        let k = 1 + number_run(s.drop_first());
        let t = SpecToken { typ: TokenType::Number, lex: s.take(k as int) };
        seq![t] + spec_tokenize_from(s.skip(k as int), t)
    } else if spec_is_alpha(s[0]) {
        let k = 1 + alpha_run(s.drop_first());
        let t = SpecToken { typ: TokenType::Function, lex: s.take(k as int) };
        seq![t] + spec_tokenize_from(s.skip(k as int), t)
    } else if spec_is_operator(s[0]) {
        let t = SpecToken { typ: operator_kind(s[0], last), lex: seq![s[0]] };
        seq![t] + spec_tokenize_from(s.drop_first(), t)
    } else if spec_is_parenthesis(s[0]) {
        let t = SpecToken { typ: TokenType::Parenthesis, lex: seq![s[0]] };
        seq![t] + spec_tokenize_from(s.drop_first(), t)
    } else {
        spec_tokenize_from(s.drop_first(), last)
    }
}

#[via_fn]
proof fn spec_tokenize_from_decreases(s: Seq<char>, last: SpecToken) {
    if s.len() > 0 {
        lemma_number_run_le(s.drop_first());
        lemma_alpha_run_le(s.drop_first());
    }
}

/// The token sequence of a whole line of text.
pub open spec fn spec_tokenize(s: Seq<char>) -> Seq<SpecToken> {
    spec_tokenize_from(s, initial_last_token())
}

/// `number_run` is exactly the distance to the first character that is not a
/// digit or a decimal separator.
proof fn lemma_number_run_exact(s: Seq<char>, k: int)
    requires
        0 <= k <= s.len(),
        forall|m: int| 0 <= m < k ==> spec_is_digit(s[m]) || spec_is_decimal(s[m]),
        k == s.len() || !(spec_is_digit(s[k]) || spec_is_decimal(s[k])),
    ensures
        number_run(s) == k,
    decreases k,
{
    if k > 0 {
        assert(spec_is_digit(s[0]) || spec_is_decimal(s[0]));
        assert(forall|m: int| 0 <= m < k - 1 ==> spec_is_digit(#[trigger] s.drop_first()[m])
            || spec_is_decimal(s.drop_first()[m]));
        lemma_number_run_exact(s.drop_first(), k - 1);
    }
}

/// `alpha_run` is exactly the distance to the first non-letter.
proof fn lemma_alpha_run_exact(s: Seq<char>, k: int)
    requires
        0 <= k <= s.len(),
        forall|m: int| 0 <= m < k ==> spec_is_alpha(s[m]),
        k == s.len() || !spec_is_alpha(s[k]),
    ensures
        alpha_run(s) == k,
    decreases k,
{
    if k > 0 {
        assert(forall|m: int| 0 <= m < k - 1 ==> spec_is_alpha(#[trigger] s.drop_first()[m]));
        lemma_alpha_run_exact(s.drop_first(), k - 1);
    }
}

/// Whether `c` may continue a number lexeme.
fn is_number_char(c: char) -> (r: bool)
    ensures
        r == (spec_is_digit(c) || spec_is_decimal(c)),
{
    is_digit(c) || is_decimal(c)
}

/// Whether the token records an opening parenthesis lexeme.
fn is_open_paren_lexeme(t: &Token) -> (r: bool)
    ensures
        r == (t.lex@ == seq!['(']),
{
    let s = t.lex.as_str();
    let r = s.unicode_len() == 1 && s.get_char(0) == '(';
    proof {
        if r {
            assert(t.lex@ =~= seq!['(']);
        }
    }
    r
}

/// Converts one line of text into its sequence of classified tokens.
///
/// Tokenizing never fails: unrecognized characters are consumed and
/// discarded, exactly as `spec_tokenize` describes.
pub fn lexer(data: &str) -> (tokens: Vec<Token>)
    ensures
        tokens_view(tokens@) == spec_tokenize(data@),
{
    let n: usize = data.unicode_len();
    let mut tokens: Vec<Token> = Vec::new();
    let mut last: Token = Token { typ: TokenType::Number, lex: String::from_str("0") };
    proof {
        reveal_strlit("0");
        assert(last@.lex =~= initial_last_token().lex);
        assert(data@.skip(0) =~= data@);
    }
    let mut i: usize = 0;
    while i < n
        invariant
            n == data@.len(),
            i <= n,
            spec_tokenize(data@) =~= tokens_view(tokens@) + spec_tokenize_from(
                data@.skip(i as int),
                last@,
            ),
        decreases n - i,
    {
        let ghost rest = data@.skip(i as int);
        proof {
            assert(rest[0] == data@[i as int]);
            assert(rest.drop_first() =~= data@.skip(i as int + 1));
        }
        let c = data.get_char(i);
        if is_space(c) {
            i = i + 1;
        } else if is_digit(c) {
            let mut j: usize = i + 1;
            while j < n && is_number_char(data.get_char(j))
                invariant
                    n == data@.len(),
                    i < j <= n,
                    forall|m: int| i < m < j ==> spec_is_digit(#[trigger] data@[m])
                        || spec_is_decimal(data@[m]),
                decreases n - j,
            {
                j = j + 1;
            }
            let lex = data.substring_char(i, j);
            let tok = Token { typ: TokenType::Number, lex: String::from_str(lex) };
            let keep = tok.copy();
            proof {
                let tail = data@.skip(i as int + 1);
                assert(forall|m: int| 0 <= m < j - i - 1 ==> (spec_is_digit(#[trigger] tail[m])
                    || spec_is_decimal(tail[m])) && tail[m] == data@[m + i + 1]);
                if j < n {
                    assert(tail[j - i - 1] == data@[j as int]);
                }
                lemma_number_run_exact(tail, j - i - 1);
                assert(rest.take(j - i) =~= data@.subrange(i as int, j as int));
                assert(rest.skip(j - i) =~= data@.skip(j as int));
                assert(spec_tokenize_from(rest, last@) =~= seq![tok@] + spec_tokenize_from(
                    data@.skip(j as int), tok@));
                lemma_invariant_step(tokens@, tok, spec_tokenize(data@),
                    spec_tokenize_from(data@.skip(j as int), tok@));
            }
            tokens.push(tok);
            last = keep;
            i = j;
        } else if is_alpha(c) {
            let mut j: usize = i + 1;
            while j < n && is_alpha(data.get_char(j))
                invariant
                    n == data@.len(),
                    i < j <= n,
                    forall|m: int| i < m < j ==> spec_is_alpha(#[trigger] data@[m]),
                decreases n - j,
            {
                j = j + 1;
            }
            let lex = data.substring_char(i, j);
            let tok = Token { typ: TokenType::Function, lex: String::from_str(lex) };
            let keep = tok.copy();
            proof {
                let tail = data@.skip(i as int + 1);
                assert(forall|m: int| 0 <= m < j - i - 1 ==> spec_is_alpha(#[trigger] tail[m])
                    && tail[m] == data@[m + i + 1]);
                if j < n {
                    assert(tail[j - i - 1] == data@[j as int]);
                }
                lemma_alpha_run_exact(tail, j - i - 1);
                assert(rest.take(j - i) =~= data@.subrange(i as int, j as int));
                assert(rest.skip(j - i) =~= data@.skip(j as int));
                assert(spec_tokenize_from(rest, last@) =~= seq![tok@] + spec_tokenize_from(
                    data@.skip(j as int), tok@));
                lemma_invariant_step(tokens@, tok, spec_tokenize(data@),
                    spec_tokenize_from(data@.skip(j as int), tok@));
            }
            tokens.push(tok);
            last = keep;
            i = j;
        } else if is_operator(c) {
            let typ = if c == '-' && (last.typ == TokenType::BinaryOp || (last.typ
                == TokenType::Parenthesis && is_open_paren_lexeme(&last))) {
                TokenType::UnaryOp
            } else {
                TokenType::BinaryOp
            };
            let lex = data.substring_char(i, i + 1);
            let tok = Token { typ, lex: String::from_str(lex) };
            let keep = tok.copy();
            proof {
                assert(tok.lex@ =~= seq![rest[0]]);
                assert(tok@.typ == operator_kind(rest[0], last@));
                assert(spec_tokenize_from(rest, last@) =~= seq![tok@] + spec_tokenize_from(
                    data@.skip(i as int + 1), tok@));
                lemma_invariant_step(tokens@, tok, spec_tokenize(data@),
                    spec_tokenize_from(data@.skip(i as int + 1), tok@));
            }
            tokens.push(tok);
            last = keep;
            i = i + 1;
        } else if is_parenthesis(c) {
            let lex = data.substring_char(i, i + 1);
            let tok = Token { typ: TokenType::Parenthesis, lex: String::from_str(lex) };
            let keep = tok.copy();
            proof {
                assert(tok.lex@ =~= seq![rest[0]]);
                assert(spec_tokenize_from(rest, last@) =~= seq![tok@] + spec_tokenize_from(
                    data@.skip(i as int + 1), tok@));
                lemma_invariant_step(tokens@, tok, spec_tokenize(data@),
                    spec_tokenize_from(data@.skip(i as int + 1), tok@));
            }
            tokens.push(tok);
            last = keep;
            i = i + 1;
        } else {
            i = i + 1;
        }
    }
    proof {
        assert(data@.skip(n as int) =~= Seq::<char>::empty());
    }
    tokens
}

/// The source text a token sequence reconstructs: its lexemes, concatenated.
pub open spec fn lexemes(ts: Seq<SpecToken>) -> Seq<char>
    decreases ts.len(),
{
    if ts.len() == 0 {
        Seq::empty()
    } else {
        ts[0].lex + lexemes(ts.drop_first())
    }
}

/// The shape the scanner gives one emitted token, judged against the token
/// emitted just before it: a digit-led run of digits and separators, a run
/// of letters, or a single operator or parenthesis character whose
/// classification comes from the lookback.
pub open spec fn token_follows(t: SpecToken, prev: SpecToken) -> bool {
    match t.typ {
        TokenType::Number => t.lex.len() >= 1 && spec_is_digit(t.lex[0]) && (forall|m: int|
            0 <= m < t.lex.len() ==> spec_is_digit(#[trigger] t.lex[m]) || spec_is_decimal(
                t.lex[m],
            )),
        TokenType::Function => t.lex.len() >= 1 && (forall|m: int|
            0 <= m < t.lex.len() ==> spec_is_alpha(#[trigger] t.lex[m])),
        TokenType::BinaryOp => t.lex.len() == 1 && spec_is_operator(t.lex[0]) && t.typ
            == operator_kind(t.lex[0], prev),
        TokenType::UnaryOp => t.lex.len() == 1 && spec_is_operator(t.lex[0]) && t.typ
            == operator_kind(t.lex[0], prev),
        TokenType::Parenthesis => t.lex.len() == 1 && spec_is_parenthesis(t.lex[0]),
        TokenType::Null => false,
    }
}

/// Each token of `ts` has the shape the scanner gives it, with `prev`
/// standing before the first.
pub open spec fn chain_follows(ts: Seq<SpecToken>, prev: SpecToken) -> bool
    decreases ts.len(),
{
    ts.len() == 0 || (token_follows(ts[0], prev) && chain_follows(ts.drop_first(), ts[0]))
}

/// No two neighbouring tokens of a gluable kind: re-reading the
/// reconstruction would run two adjacent number lexemes, or two adjacent
/// function names, together into one token.
pub open spec fn no_merged_neighbours(ts: Seq<SpecToken>) -> bool {
    forall|k: int|
        0 <= k < ts.len() - 1 ==> !(#[trigger] ts[k].typ == TokenType::Number && ts[k
            + 1].typ == TokenType::Number) && !(ts[k].typ == TokenType::Function && ts[k + 1].typ
            == TokenType::Function)
}

/// Every character inside the counted number run is a digit or separator.
proof fn lemma_number_run_chars(s: Seq<char>)
    ensures
        forall|m: int|
            0 <= m < number_run(s) ==> spec_is_digit(#[trigger] s[m]) || spec_is_decimal(s[m]),
    decreases s.len(),
{
    if s.len() > 0 && (spec_is_digit(s[0]) || spec_is_decimal(s[0])) {
        lemma_number_run_chars(s.drop_first());
        lemma_number_run_le(s.drop_first());
        assert forall|m: int|
            0 <= m < number_run(s) implies spec_is_digit(#[trigger] s[m]) || spec_is_decimal(
            s[m],
        ) by {
            if m >= 1 {
                assert(s[m] == s.drop_first()[m - 1]);
                assert(spec_is_digit(s.drop_first()[m - 1]) || spec_is_decimal(
                    s.drop_first()[m - 1],
                ));
            }
        }
    }
}

/// Every character inside the counted letter run is a letter.
proof fn lemma_alpha_run_chars(s: Seq<char>)
    ensures
        forall|m: int| 0 <= m < alpha_run(s) ==> spec_is_alpha(#[trigger] s[m]),
    decreases s.len(),
{
    if s.len() > 0 && spec_is_alpha(s[0]) {
        lemma_alpha_run_chars(s.drop_first());
        lemma_alpha_run_le(s.drop_first());
        assert forall|m: int| 0 <= m < alpha_run(s) implies spec_is_alpha(#[trigger] s[m]) by {
            if m >= 1 {
                assert(s[m] == s.drop_first()[m - 1]);
                assert(spec_is_alpha(s.drop_first()[m - 1]));
            }
        }
    }
}

/// The character classes the scanner branches on are pairwise disjoint.
proof fn lemma_char_classes(c: char)
    ensures
        spec_is_alpha(c) ==> !(spec_is_digit(c) || spec_is_decimal(c)),
        spec_is_operator(c) ==> !(spec_is_digit(c) || spec_is_decimal(c)) && !spec_is_alpha(c),
        spec_is_parenthesis(c) ==> !(spec_is_digit(c) || spec_is_decimal(c)) && !spec_is_alpha(c),
{
}

/// What a scan emits is a chain of well-shaped tokens, each judged against
/// the one before it.
proof fn lemma_scan_chain(s: Seq<char>, last: SpecToken)
    ensures
        chain_follows(spec_tokenize_from(s, last), last),
    decreases s.len(),
{
    if s.len() == 0 {
    } else if spec_is_space(s[0]) {
        lemma_scan_chain(s.drop_first(), last);
    } else if spec_is_digit(s[0]) {
        let k = 1 + number_run(s.drop_first());
        let t = SpecToken { typ: TokenType::Number, lex: s.take(k as int) };
        lemma_number_run_le(s.drop_first());
        lemma_number_run_chars(s.drop_first());
        assert forall|m: int|
            0 <= m < t.lex.len() implies spec_is_digit(#[trigger] t.lex[m]) || spec_is_decimal(
            t.lex[m],
        ) by {
            if m >= 1 {
                assert(t.lex[m] == s.drop_first()[m - 1]);
                assert(spec_is_digit(s.drop_first()[m - 1]) || spec_is_decimal(
                    s.drop_first()[m - 1],
                ));
            }
        }
        lemma_scan_chain(s.skip(k as int), t);
        let out = seq![t] + spec_tokenize_from(s.skip(k as int), t);
        assert(out.drop_first() =~= spec_tokenize_from(s.skip(k as int), t));
    } else if spec_is_alpha(s[0]) {
        let k = 1 + alpha_run(s.drop_first());
        let t = SpecToken { typ: TokenType::Function, lex: s.take(k as int) };
        lemma_alpha_run_le(s.drop_first());
        lemma_alpha_run_chars(s.drop_first());
        assert forall|m: int| 0 <= m < t.lex.len() implies spec_is_alpha(#[trigger] t.lex[m]) by {
            if m >= 1 {
                assert(t.lex[m] == s.drop_first()[m - 1]);
                assert(spec_is_alpha(s.drop_first()[m - 1]));
            }
        }
        lemma_scan_chain(s.skip(k as int), t);
        let out = seq![t] + spec_tokenize_from(s.skip(k as int), t);
        assert(out.drop_first() =~= spec_tokenize_from(s.skip(k as int), t));
    } else if spec_is_operator(s[0]) {
        let t = SpecToken { typ: operator_kind(s[0], last), lex: seq![s[0]] };
        lemma_scan_chain(s.drop_first(), t);
        let out = seq![t] + spec_tokenize_from(s.drop_first(), t);
        assert(out.drop_first() =~= spec_tokenize_from(s.drop_first(), t));
    } else if spec_is_parenthesis(s[0]) {
        let t = SpecToken { typ: TokenType::Parenthesis, lex: seq![s[0]] };
        lemma_scan_chain(s.drop_first(), t);
        let out = seq![t] + spec_tokenize_from(s.drop_first(), t);
        assert(out.drop_first() =~= spec_tokenize_from(s.drop_first(), t));
    } else {
        lemma_scan_chain(s.drop_first(), last);
    }
}

/// Scanning one well-shaped token's lexeme, followed by text that cannot
/// extend it, emits exactly that token and scans on.
proof fn lemma_scan_one_token(t: SpecToken, prev: SpecToken, r: Seq<char>)
    requires
        token_follows(t, prev),
        t.typ == TokenType::Number ==> r.len() == 0 || !(spec_is_digit(r[0]) || spec_is_decimal(
            r[0],
        )),
        t.typ == TokenType::Function ==> r.len() == 0 || !spec_is_alpha(r[0]),
    ensures
        spec_tokenize_from(t.lex + r, prev) == seq![t] + spec_tokenize_from(r, t),
{
    let s = t.lex + r;
    assert(s.len() >= 1 && s[0] == t.lex[0]);
    match t.typ {
        TokenType::Number => {
            assert(forall|m: int|
                0 <= m < t.lex.len() - 1 ==> (spec_is_digit(#[trigger] s.drop_first()[m])
                    || spec_is_decimal(s.drop_first()[m])) && s.drop_first()[m] == t.lex[m + 1]);
            if r.len() > 0 {
                assert(s.drop_first()[t.lex.len() - 1] == r[0]);
            }
            lemma_number_run_exact(s.drop_first(), t.lex.len() - 1);
            let k = 1 + number_run(s.drop_first());
            assert(s.take(k as int) =~= t.lex);
            assert(s.skip(k as int) =~= r);
        },
        TokenType::Function => {
            assert(forall|m: int|
                0 <= m < t.lex.len() - 1 ==> spec_is_alpha(#[trigger] s.drop_first()[m])
                    && s.drop_first()[m] == t.lex[m + 1]);
            if r.len() > 0 {
                assert(s.drop_first()[t.lex.len() - 1] == r[0]);
            }
            lemma_alpha_run_exact(s.drop_first(), t.lex.len() - 1);
            let k = 1 + alpha_run(s.drop_first());
            assert(s.take(k as int) =~= t.lex);
            assert(s.skip(k as int) =~= r);
        },
        TokenType::BinaryOp => {
            assert(t.lex =~= seq![t.lex[0]]);
            assert(s.drop_first() =~= r);
        },
        TokenType::UnaryOp => {
            assert(t.lex =~= seq![t.lex[0]]);
            assert(s.drop_first() =~= r);
        },
        TokenType::Parenthesis => {
            assert(t.lex =~= seq![t.lex[0]]);
            assert(s.drop_first() =~= r);
        },
        TokenType::Null => {
            assert(false);
        },
    }
}

/// Scanning the reconstruction of a well-shaped, unmergeable chain yields
/// the chain itself.
#[verifier::rlimit(60)]
proof fn lemma_rescan_chain(ts: Seq<SpecToken>, prev: SpecToken)
    requires
        chain_follows(ts, prev),
        no_merged_neighbours(ts),
    ensures
        spec_tokenize_from(lexemes(ts), prev) == ts,
    decreases ts.len(),
{
    if ts.len() > 0 {
        let t = ts[0];
        let rest = ts.drop_first();
        assert(no_merged_neighbours(rest)) by {
            assert(forall|k: int|
                0 <= k < rest.len() - 1 ==> #[trigger] rest[k] == ts[k + 1] && rest[k + 1] == ts[k
                    + 2]);
        }
        assert(token_follows(t, prev) && chain_follows(rest, t));
        if rest.len() > 0 {
            let u = rest[0];
            assert(token_follows(u, t) && chain_follows(rest.drop_first(), u));
            assert(u.lex.len() >= 1);
            assert(lexemes(rest)[0] == u.lex[0]);
            assert(u == ts[1] && t == ts[0]);
            let c0 = u.lex[0];
            lemma_char_classes(c0);
            if t.typ == TokenType::Number {
                assert(u.typ != TokenType::Number);
                assert(!(spec_is_digit(c0) || spec_is_decimal(c0)));
            }
            if t.typ == TokenType::Function {
                assert(u.typ != TokenType::Function);
                assert(!spec_is_alpha(c0));
            }
        }
        lemma_scan_one_token(t, prev, lexemes(rest));
        lemma_rescan_chain(rest, t);
        assert(seq![t] + rest =~= ts);
    }
}

/// Re-tokenizing the reconstruction of a scan gives the same tokens back:
/// concatenating the lexemes of `spec_tokenize(s)` and scanning that text
/// yields `spec_tokenize(s)` again, whitespace and skipped characters gone.
/// The one proviso is that no two neighbouring number tokens, and no two
/// neighbouring function-name tokens, stand in the sequence: those were
/// separated only by skipped characters, and re-reading the reconstruction
/// runs them together.
pub proof fn lemma_tokenize_idempotent(s: Seq<char>)
    requires
        no_merged_neighbours(spec_tokenize(s)),
    ensures
        spec_tokenize(lexemes(spec_tokenize(s))) == spec_tokenize(s),
{
    lemma_scan_chain(s, initial_last_token());
    lemma_rescan_chain(spec_tokenize(s), initial_last_token());
}

/// An empty line tokenizes to the empty sequence.
pub proof fn lemma_empty_line_has_no_tokens()
    ensures
        spec_tokenize(Seq::<char>::empty()) == Seq::<SpecToken>::empty(),
{
}

/// Pushing the token that heads the remaining scan keeps the lexer's loop
/// invariant: the emitted prefix plus the scan of what remains is constant.
proof fn lemma_invariant_step(ts: Seq<Token>, tok: Token, whole: Seq<SpecToken>, next: Seq<
    SpecToken,
>)
    requires
        whole == tokens_view(ts) + (seq![tok@] + next),
    ensures
        whole =~= tokens_view(ts.push(tok)) + next,
{
    assert(tokens_view(ts.push(tok)) =~= tokens_view(ts).push(tok@));
}

} // verus!
