//! The notation parser: a tokenizer, an infix-to-postfix conversion by
//! operator precedence (shunting yard), and a postfix evaluation that
//! builds the sieve tree.
//!
//! The committed precedence ordering: inversion `!` binds tightest, then
//! `&`, then `^`, then `|`; the binary operators associate to the left.
//! Residual literals are written `M@S` with at most twelve digits on
//! each side.

use vstd::prelude::*;

verus! {

use crate::text::dec_val;
use crate::text::digit_prefix_len;
use crate::text::is_digit;
use crate::text::lemma_digit_prefix_is_digit;
use crate::text::lemma_digit_prefix_le_len;
use crate::text::lemma_pow10_le;
use crate::text::lemma_pow10_twelve;
use crate::text::pow10;
use vstd::string::StrSliceExecFns;

/// One lexical element of the notation.
#[derive(Clone, Copy, Debug, PartialEq, Eq, Structural)]
pub enum Token {
    /// A residual literal `M@S`, as its two numbers.
    Literal(i128, i128),
    /// The intersection operator `&`.
    And,
    /// The union operator `|`.
    Or,
    /// The symmetric-difference operator `^`.
    Xor,
    /// The inversion operator `!`.
    Not,
    /// An opening parenthesis.
    LParen,
    /// A closing parenthesis.
    RParen,
}

/// Why a notation string was rejected.
#[derive(Clone, Copy, Debug, PartialEq, Eq, Structural)]
pub enum ParseError {
    /// A character that starts no recognized token.
    BadToken,
    /// A malformed residual literal: a missing `@`, a missing number, or
    /// a number of more than twelve digits.
    BadLiteral,
    /// An operator found fewer operands than it needs.
    MissingOperand,
    /// A parenthesis without its partner.
    UnmatchedParenthesis,
    /// The tokens do not form exactly one expression.
    IncompleteExpression,
}

/// Prefix `acc` onto a tokenizer result, passing errors through.
pub open spec fn tok_prepend(acc: Seq<Token>, r: Result<Seq<Token>, ParseError>) -> Result<
    Seq<Token>,
    ParseError,
> {
    match r {
        Ok(ts) => Ok(acc + ts),
        Err(e) => Err(e),
    }
}

/// The tokens of the notation text: operators and parentheses stand for
/// themselves, whitespace separates, and a digit starts a residual
/// literal `M@S` of at most twelve digits on each side.
pub open spec fn tok_spec(s: Seq<char>) -> Result<Seq<Token>, ParseError>
    decreases s.len(),
    via tok_spec_dec
{
    if s.len() == 0 {
        Ok(Seq::empty())
    } else if s[0] == ' ' {
        tok_spec(s.skip(1))
    } else if s[0] == '&' {
        tok_prepend(seq![Token::And], tok_spec(s.skip(1)))
    } else if s[0] == '|' {
        tok_prepend(seq![Token::Or], tok_spec(s.skip(1)))
    } else if s[0] == '^' {
        tok_prepend(seq![Token::Xor], tok_spec(s.skip(1)))
    } else if s[0] == '!' {
        tok_prepend(seq![Token::Not], tok_spec(s.skip(1)))
    } else if s[0] == '(' {
        tok_prepend(seq![Token::LParen], tok_spec(s.skip(1)))
    } else if s[0] == ')' {
        tok_prepend(seq![Token::RParen], tok_spec(s.skip(1)))
    } else if is_digit(s[0]) {
        let ml = digit_prefix_len(s) as int;
        if ml > 12 {
            Err(ParseError::BadLiteral)
        } else if ml >= s.len() || s[ml] != '@' {
            Err(ParseError::BadLiteral)
        } else {
            let rest = s.skip(ml + 1);
            let sl = digit_prefix_len(rest) as int;
            if sl == 0 || sl > 12 {
                Err(ParseError::BadLiteral)
            } else {
                tok_prepend(
                    seq![
                        Token::Literal(
                            dec_val(s.take(ml)) as i128,
                            dec_val(rest.take(sl)) as i128,
                        ),
                    ],
                    tok_spec(rest.skip(sl)),
                )
            }
        }
    } else {
        Err(ParseError::BadToken)
    }
}

#[via_fn]
proof fn tok_spec_dec(s: Seq<char>) {
    if s.len() > 0 && is_digit(s[0]) {
        lemma_digit_prefix_le_len(s);
        let ml = digit_prefix_len(s) as int;
        if ml <= 12 && ml < s.len() && s[ml] == '@' {
            lemma_digit_prefix_le_len(s.skip(ml + 1));
        }
    }
}

/// The length of the digit run starting at `from`, counted up to
/// thirteen: a run of thirteen or more only ever means an oversize
/// literal, so its exact length is not needed.
fn digit_run_len(s: &str, from: usize) -> (n: usize)
    requires
        from <= s@.len(),
    ensures
        ({
            let d = digit_prefix_len(s@.skip(from as int)) as int;
            (d <= 13 && n == d) || (d > 13 && n == 13)
        }),
        from + n <= s@.len(),
{
    let len = s.unicode_len();
    let mut j = from;
    proof {
        lemma_digit_prefix_le_len(s@.skip(from as int));
    }
    while j < len && j - from < 13
        invariant
            from <= j <= len,
            j - from <= 13,
            len == s@.len(),
            digit_prefix_len(s@.skip(from as int)) == (j - from) + digit_prefix_len(
                s@.skip(j as int),
            ),
        decreases len - j,
    {
        let c = s.get_char(j);
        let cu = c as u32;
        if !(48 <= cu && cu <= 57) {
            proof {
                assert(!is_digit(s@.skip(j as int)[0]));
                assert(digit_prefix_len(s@.skip(j as int)) == 0);
            }
            return j - from;
        }
        j = j + 1;
        proof {
            assert(s@.skip(j - 1).skip(1) =~= s@.skip(j as int));
            assert(is_digit(s@.skip(j - 1)[0]));
            assert(digit_prefix_len(s@.skip(j - 1)) == 1 + digit_prefix_len(s@.skip(j as int)));
            lemma_digit_prefix_le_len(s@.skip(j as int));
        }
    }
    proof {
        if j == len {
            assert(s@.skip(j as int).len() == 0);
            assert(digit_prefix_len(s@.skip(j as int)) == 0);
        }
    }
    j - from
}

/// Read the value of the digit run `[from, from + count)`, at most twelve
/// digits long.
fn read_number(s: &str, from: usize, count: usize) -> (val: i128)
    requires
        from + count <= s@.len(),
        s@.len() <= usize::MAX,
        count <= 12,
        count <= digit_prefix_len(s@.skip(from as int)),
    ensures
        val == dec_val(s@.subrange(from as int, from as int + count)),
        0 <= val < 1_000_000_000_000,
{
    let mut val: i128 = 0;
    let mut k: usize = 0;
    proof {
        assert(s@.subrange(from as int, from as int) =~= Seq::<char>::empty());
        lemma_pow10_twelve();
    }
    while k < count
        invariant
            k <= count,
            count <= 12,
            from + count <= s@.len(),
            s@.len() <= usize::MAX,
            count <= digit_prefix_len(s@.skip(from as int)),
            0 <= val,
            val == dec_val(s@.subrange(from as int, from as int + k)),
            val < pow10(k as nat),
            pow10(12) == 1_000_000_000_000,
        decreases count - k,
    {
        proof {
            lemma_digit_prefix_is_digit(s@.skip(from as int), k as int);
            assert(s@.skip(from as int)[k as int] == s@[from + k]);
            lemma_pow10_le((k + 1) as nat, 12nat);
        }
        let c = s.get_char(from + k);
        proof {
            assert(is_digit(s@[from + k]));
            assert(c == '0' || c == '1' || c == '2' || c == '3' || c == '4' || c == '5' || c == '6'
                || c == '7' || c == '8' || c == '9');
        }
        let cu = c as u32;
        let d: i128 = (cu - 48) as i128;
        proof {
            assert(d == crate::text::digit_val(c));
        }
        val = val * 10 + d;
        k = k + 1;
        proof {
            let sub = s@.subrange(from as int, from as int + k);
            assert(sub.drop_last() =~= s@.subrange(from as int, from as int + k - 1));
            assert(sub.last() == s@[from + k - 1]);
        }
    }
    proof {
        lemma_pow10_le(count as nat, 12nat);
    }
    val
}

/// One prefix step of the tokenizer: a token recognized at the cursor
/// moves from the remaining text onto the accumulator.
proof fn lemma_tok_step(s: Seq<char>, acc: Seq<Token>, t: Token, i: int, j: int)
    requires
        0 <= i <= j <= s.len(),
        tok_spec(s.skip(i)) == tok_prepend(seq![t], tok_spec(s.skip(j))),
        tok_prepend(acc, tok_spec(s.skip(i))) == tok_spec(s),
    ensures
        tok_prepend(acc.push(t), tok_spec(s.skip(j))) == tok_spec(s),
{
    match tok_spec(s.skip(j)) {
        Ok(ts) => {
            assert(acc.push(t) + ts =~= acc + (seq![t] + ts));
        },
        Err(e) => {},
    }
}

/// Split the notation text into tokens, or report the first offending
/// piece of it.
#[verifier::rlimit(60)]
pub fn tokenize(s: &str) -> (r: Result<Vec<Token>, ParseError>)
    ensures
        match tok_spec(s@) {
            Ok(ts) => (r matches Ok(v) && v@ == ts),
            Err(e) => r == Err::<Vec<Token>, ParseError>(e),
        },
{
    let len = s.unicode_len();
    let mut out: Vec<Token> = Vec::new();
    let mut i: usize = 0;
    proof {
        assert(s@.skip(0) =~= s@);
        match tok_spec(s@) {
            Ok(ts) => {
                assert(out@ + ts =~= ts);
            },
            Err(e) => {},
        }
    }
    while i < len
        invariant
            i <= len,
            len == s@.len(),
            tok_prepend(out@, tok_spec(s@.skip(i as int))) == tok_spec(s@),
        decreases len - i,
    {
        let ghost pre = out@;
        let ghost ii = i as int;
        let c = s.get_char(i);
        let cu = c as u32;
        if c == ' ' {
            i = i + 1;
            proof {
                assert(s@.skip(ii).skip(1) =~= s@.skip(i as int));
            }
        } else if c == '&' {
            out.push(Token::And);
            i = i + 1;
            proof {
                assert(s@.skip(ii).skip(1) =~= s@.skip(i as int));
                lemma_tok_step(s@, pre, Token::And, ii, i as int);
            }
        } else if c == '|' {
            out.push(Token::Or);
            i = i + 1;
            proof {
                assert(s@.skip(ii).skip(1) =~= s@.skip(i as int));
                lemma_tok_step(s@, pre, Token::Or, ii, i as int);
            }
        } else if c == '^' {
            out.push(Token::Xor);
            i = i + 1;
            proof {
                assert(s@.skip(ii).skip(1) =~= s@.skip(i as int));
                lemma_tok_step(s@, pre, Token::Xor, ii, i as int);
            }
        } else if c == '!' {
            out.push(Token::Not);
            i = i + 1;
            proof {
                assert(s@.skip(ii).skip(1) =~= s@.skip(i as int));
                lemma_tok_step(s@, pre, Token::Not, ii, i as int);
            }
        } else if c == '(' {
            out.push(Token::LParen);
            i = i + 1;
            proof {
                assert(s@.skip(ii).skip(1) =~= s@.skip(i as int));
                lemma_tok_step(s@, pre, Token::LParen, ii, i as int);
            }
        } else if c == ')' {
            out.push(Token::RParen);
            i = i + 1;
            proof {
                assert(s@.skip(ii).skip(1) =~= s@.skip(i as int));
                lemma_tok_step(s@, pre, Token::RParen, ii, i as int);
            }
        } else if 48 <= cu && cu <= 57 {
            proof {
                assert(is_digit(s@.skip(ii)[0]));
            }
            let dl1 = digit_run_len(s, i);
            if dl1 > 12 {
                return Err(ParseError::BadLiteral);
            }
            proof {
                lemma_digit_prefix_le_len(s@.skip(ii));
            }
            if i + dl1 >= len {
                return Err(ParseError::BadLiteral);
            }
            let at = s.get_char(i + dl1);
            proof {
                assert(s@.skip(ii)[dl1 as int] == s@[ii + dl1]);
            }
            if !(at == '@') {
                return Err(ParseError::BadLiteral);
            }
            let m2 = i + dl1 + 1;
            proof {
                assert(s@.skip(ii).skip(dl1 + 1) =~= s@.skip(m2 as int));
            }
            let dl2 = digit_run_len(s, m2);
            if dl2 == 0 || dl2 > 12 {
                return Err(ParseError::BadLiteral);
            }
            let mv = read_number(s, i, dl1);
            let sv = read_number(s, m2, dl2);
            proof {
                assert(s@.skip(ii).take(dl1 as int) =~= s@.subrange(ii, ii + dl1));
                assert(s@.skip(m2 as int).take(dl2 as int) =~= s@.subrange(
                    m2 as int,
                    m2 as int + dl2,
                ));
            }
            out.push(Token::Literal(mv, sv));
            i = m2 + dl2;
            proof {
                assert(s@.skip(m2 as int).skip(dl2 as int) =~= s@.skip(i as int));
                lemma_tok_step(s@, pre, Token::Literal(mv, sv), ii, i as int);
            }
        } else {
            proof {
                assert(!is_digit(s@.skip(ii)[0]));
            }
            return Err(ParseError::BadToken);
        }
    }
    proof {
        assert(s@.skip(i as int).len() == 0);
        match tok_spec(s@.skip(i as int)) {
            Ok(ts) => {
                assert(out@ + ts =~= out@);
            },
            Err(e) => {},
        }
    }
    Ok(out)
}

/// The binding strength of an operator token: inversion binds tightest,
/// then intersection, then symmetric difference, then union.
pub open spec fn prec(t: Token) -> int {
    match t {
        Token::Not => 4,
        Token::And => 3,
        Token::Xor => 2,
        Token::Or => 1,
        _ => 0,
    }
}

/// The shunting-yard conversion from infix tokens to postfix order, one
/// step per recursive call: operands pass straight to the output, an
/// operator first pops every stacked operator that binds at least as
/// tightly (making the binary operators left-associative), and
/// parentheses bracket the stack.
pub open spec fn shunt_spec(input: Seq<Token>, ops: Seq<Token>, out: Seq<Token>) -> Result<
    Seq<Token>,
    ParseError,
>
    decreases input.len(), ops.len(),
{
    if input.len() == 0 {
        if ops.len() == 0 {
            Ok(out)
        } else if ops.last() == Token::LParen {
            Err(ParseError::UnmatchedParenthesis)
        } else {
            shunt_spec(input, ops.drop_last(), out.push(ops.last()))
        }
    } else {
        let t = input[0];
        if t is Literal {
            shunt_spec(input.skip(1), ops, out.push(t))
        } else if t == Token::Not || t == Token::LParen {
            shunt_spec(input.skip(1), ops.push(t), out)
        } else if t == Token::RParen {
            if ops.len() == 0 {
                Err(ParseError::UnmatchedParenthesis)
            } else if ops.last() == Token::LParen {
                shunt_spec(input.skip(1), ops.drop_last(), out)
            } else {
                shunt_spec(input, ops.drop_last(), out.push(ops.last()))
            }
        } else {
            if ops.len() > 0 && ops.last() != Token::LParen && prec(ops.last()) >= prec(t) {
                shunt_spec(input, ops.drop_last(), out.push(ops.last()))
            } else {
                shunt_spec(input.skip(1), ops.push(t), out)
            }
        }
    }
}

/// The binding strength, executably.
fn prec_exec(t: Token) -> (p: u8)
    ensures
        p as int == prec(t),
{
    match t {
        Token::Not => 4,
        Token::And => 3,
        Token::Xor => 2,
        Token::Or => 1,
        _ => 0,
    }
}

/// A binary operator arriving at the operator stack pops its top.
fn should_pop(ops: &Vec<Token>, t: Token) -> (b: bool)
    ensures
        b == (ops@.len() > 0 && ops@.last() != Token::LParen && prec(ops@.last()) >= prec(t)),
{
    if ops.len() == 0 {
        false
    } else {
        let top = ops[ops.len() - 1];
        if top == Token::LParen {
            false
        } else {
            prec_exec(top) >= prec_exec(t)
        }
    }
}

/// Reorder infix tokens into postfix order by operator precedence, or
/// report a parenthesis without its partner.
pub fn infix_to_postfix(tokens: &Vec<Token>) -> (r: Result<Vec<Token>, ParseError>)
    ensures
        match shunt_spec(tokens@, Seq::empty(), Seq::empty()) {
            Ok(post) => (r matches Ok(v) && v@ == post),
            Err(e) => r == Err::<Vec<Token>, ParseError>(e),
        },
{
    let ghost target = shunt_spec(tokens@, Seq::empty(), Seq::empty());
    let mut ops: Vec<Token> = Vec::new();
    let mut out: Vec<Token> = Vec::new();
    let mut i: usize = 0;
    proof {
        assert(tokens@.skip(0) =~= tokens@);
    }
    while i < tokens.len()
        invariant
            i <= tokens@.len(),
            target == shunt_spec(tokens@, Seq::empty(), Seq::empty()),
            shunt_spec(tokens@.skip(i as int), ops@, out@) == target,
        decreases tokens@.len() - i,
    {
        let ghost ii = i as int;
        let t = tokens[i];
        match t {
            Token::Literal(_, _) => {
                out.push(t);
                i = i + 1;
                proof {
                    assert(tokens@.skip(ii).skip(1) =~= tokens@.skip(i as int));
                }
            },
            Token::Not => {
                ops.push(t);
                i = i + 1;
                proof {
                    assert(tokens@.skip(ii).skip(1) =~= tokens@.skip(i as int));
                }
            },
            Token::LParen => {
                ops.push(t);
                i = i + 1;
                proof {
                    assert(tokens@.skip(ii).skip(1) =~= tokens@.skip(i as int));
                }
            },
            Token::RParen => {
                while ops.len() > 0 && !is_lparen_top(&ops)
                    invariant
                        i < tokens@.len(),
                        tokens@[i as int] == Token::RParen,
                        target == shunt_spec(tokens@, Seq::empty(), Seq::empty()),
                        shunt_spec(tokens@.skip(i as int), ops@, out@) == target,
                    decreases ops@.len(),
                {
                    match ops.pop() {
                        Some(top) => {
                            out.push(top);
                        },
                        None => {
                            proof {
                                assert(false);
                            }
                        },
                    }
                }
                if ops.len() == 0 {
                    proof {
                        assert(tokens@.skip(i as int)[0] == tokens@[i as int]);
                        assert(shunt_spec(tokens@.skip(i as int), ops@, out@) == Err::<
                            Seq<Token>,
                            ParseError,
                        >(ParseError::UnmatchedParenthesis));
                    }
                    return Err(ParseError::UnmatchedParenthesis);
                }
                match ops.pop() {
                    Some(_) => {},
                    None => {
                        proof {
                            assert(false);
                        }
                    },
                }
                i = i + 1;
                proof {
                    assert(tokens@.skip(ii).skip(1) =~= tokens@.skip(i as int));
                }
            },
            _ => {
                while should_pop(&ops, t)
                    invariant
                        i < tokens@.len(),
                        tokens@[i as int] == t,
                        !(t is Literal) && t != Token::Not && t != Token::LParen && t
                            != Token::RParen,
                        target == shunt_spec(tokens@, Seq::empty(), Seq::empty()),
                        shunt_spec(tokens@.skip(i as int), ops@, out@) == target,
                    decreases ops@.len(),
                {
                    match ops.pop() {
                        Some(top) => {
                            out.push(top);
                        },
                        None => {
                            proof {
                                assert(false);
                            }
                        },
                    }
                }
                ops.push(t);
                i = i + 1;
                proof {
                    assert(tokens@.skip(ii).skip(1) =~= tokens@.skip(i as int));
                }
            },
        }
    }
    proof {
        assert(tokens@.skip(i as int).len() == 0);
    }
    while ops.len() > 0
        invariant
            tokens@.skip(tokens@.len() as int).len() == 0,
            target == shunt_spec(tokens@, Seq::empty(), Seq::empty()),
            shunt_spec(tokens@.skip(tokens@.len() as int), ops@, out@) == target,
        decreases ops@.len(),
    {
        let ghost pre_ops = ops@;
        match ops.pop() {
            Some(top) => {
                if top == Token::LParen {
                    proof {
                        assert(shunt_spec(tokens@.skip(tokens@.len() as int), pre_ops, out@)
                            == Err::<Seq<Token>, ParseError>(ParseError::UnmatchedParenthesis));
                    }
                    return Err(ParseError::UnmatchedParenthesis);
                }
                out.push(top);
                proof {
                    assert(ops@ =~= pre_ops.drop_last());
                }
            },
            None => {
                proof {
                    assert(false);
                }
            },
        }
    }
    Ok(out)
}

/// The operator stack's top is an opening parenthesis.
fn is_lparen_top(ops: &Vec<Token>) -> (b: bool)
    requires
        ops@.len() > 0,
    ensures
        b == (ops@.last() == Token::LParen),
{
    ops[ops.len() - 1] == Token::LParen
}

/// The shape of a parsed sieve expression, as pure data: a mirror of the
/// node tree for stating what the parser must produce.
pub enum TreeSpec {
    Unit(int, int),
    Intersection(Box<TreeSpec>, Box<TreeSpec>),
    Union(Box<TreeSpec>, Box<TreeSpec>),
    SymmetricDifference(Box<TreeSpec>, Box<TreeSpec>),
    Inversion(Box<TreeSpec>),
}

/// A shift reduced into `[0, modulus)`, with the empty class pinned to
/// zero.
pub open spec fn norm_shift(m: int, s: int) -> int {
    if m == 0 {
        0
    } else {
        s % m
    }
}

/// Membership of `v` in the set a parsed expression denotes.
pub open spec fn tree_eval(t: TreeSpec, v: int) -> bool
    decreases t,
{
    match t {
        TreeSpec::Unit(m, s) => crate::in_class(m, s, v),
        TreeSpec::Intersection(a, b) => tree_eval(*a, v) && tree_eval(*b, v),
        TreeSpec::Union(a, b) => tree_eval(*a, v) || tree_eval(*b, v),
        TreeSpec::SymmetricDifference(a, b) => tree_eval(*a, v) != tree_eval(*b, v),
        TreeSpec::Inversion(a) => !tree_eval(*a, v),
    }
}

/// The shape of a built node tree.
pub open spec fn node_tree(n: crate::SieveNode) -> TreeSpec
    decreases n,
{
    match n {
        crate::SieveNode::Unit(r) => TreeSpec::Unit(r.modulus as int, r.shift as int),
        crate::SieveNode::Intersection(l, r) => TreeSpec::Intersection(
            Box::new(node_tree(*l)),
            Box::new(node_tree(*r)),
        ),
        crate::SieveNode::Union(l, r) => TreeSpec::Union(
            Box::new(node_tree(*l)),
            Box::new(node_tree(*r)),
        ),
        crate::SieveNode::SymmetricDifference(l, r) => TreeSpec::SymmetricDifference(
            Box::new(node_tree(*l)),
            Box::new(node_tree(*r)),
        ),
        crate::SieveNode::Inversion(p) => TreeSpec::Inversion(Box::new(node_tree(*p))),
    }
}

/// A node tree and its shape denote the same set.
pub proof fn lemma_node_tree_eval(n: &crate::SieveNode, v: int)
    ensures
        n.eval(v) == tree_eval(node_tree(*n), v),
    decreases *n,
{
    match n {
        crate::SieveNode::Unit(r) => {},
        crate::SieveNode::Intersection(l, r) => {
            lemma_node_tree_eval(&**l, v);
            lemma_node_tree_eval(&**r, v);
        },
        crate::SieveNode::Union(l, r) => {
            lemma_node_tree_eval(&**l, v);
            lemma_node_tree_eval(&**r, v);
        },
        crate::SieveNode::SymmetricDifference(l, r) => {
            lemma_node_tree_eval(&**l, v);
            lemma_node_tree_eval(&**r, v);
        },
        crate::SieveNode::Inversion(p) => {
            lemma_node_tree_eval(&**p, v);
        },
    }
}

/// The shapes of the nodes on the build stack.
pub open spec fn stack_trees(s: Seq<crate::SieveNode>) -> Seq<TreeSpec> {
    s.map_values(|n: crate::SieveNode| node_tree(n))
}

/// Evaluate a postfix token sequence against a stack of finished
/// sub-expressions: a literal becomes a leaf, an operator combines the
/// sub-expressions on top of the stack, and exactly one expression must
/// remain at the end.
pub open spec fn build_spec(input: Seq<Token>, stack: Seq<TreeSpec>) -> Result<
    TreeSpec,
    ParseError,
>
    decreases input.len(),
{
    if input.len() == 0 {
        if stack.len() == 1 {
            Ok(stack[0])
        } else {
            Err(ParseError::IncompleteExpression)
        }
    } else {
        match input[0] {
            Token::Literal(m, s) => if m < 0 || s < 0 {
                Err(ParseError::BadLiteral)
            } else {
                build_spec(
                    input.skip(1),
                    stack.push(TreeSpec::Unit(m as int, norm_shift(m as int, s as int))),
                )
            },
            Token::Not => if stack.len() < 1 {
                Err(ParseError::MissingOperand)
            } else {
                build_spec(
                    input.skip(1),
                    stack.drop_last().push(TreeSpec::Inversion(Box::new(stack.last()))),
                )
            },
            Token::And => if stack.len() < 2 {
                Err(ParseError::MissingOperand)
            } else {
                build_spec(
                    input.skip(1),
                    stack.drop_last().drop_last().push(
                        TreeSpec::Intersection(
                            Box::new(stack[stack.len() - 2]),
                            Box::new(stack.last()),
                        ),
                    ),
                )
            },
            Token::Or => if stack.len() < 2 {
                Err(ParseError::MissingOperand)
            } else {
                build_spec(
                    input.skip(1),
                    stack.drop_last().drop_last().push(
                        TreeSpec::Union(Box::new(stack[stack.len() - 2]), Box::new(stack.last())),
                    ),
                )
            },
            Token::Xor => if stack.len() < 2 {
                Err(ParseError::MissingOperand)
            } else {
                build_spec(
                    input.skip(1),
                    stack.drop_last().drop_last().push(
                        TreeSpec::SymmetricDifference(
                            Box::new(stack[stack.len() - 2]),
                            Box::new(stack.last()),
                        ),
                    ),
                )
            },
            Token::LParen => Err(ParseError::MissingOperand),
            Token::RParen => Err(ParseError::MissingOperand),
        }
    }
}

/// The result of the whole parsing pipeline on a notation text: its
/// tokens, reordered to postfix, evaluated to one expression shape.
pub open spec fn parse_spec(s: Seq<char>) -> Result<TreeSpec, ParseError> {
    match tok_spec(s) {
        Err(e) => Err(e),
        Ok(ts) => match shunt_spec(ts, Seq::empty(), Seq::empty()) {
            Err(e) => Err(e),
            Ok(post) => build_spec(post, Seq::empty()),
        },
    }
}

/// Build the sieve tree from postfix tokens, or report the first
/// structural fault.
pub fn build(tokens: &Vec<Token>) -> (r: Result<crate::Sieve, ParseError>)
    ensures
        match build_spec(tokens@, Seq::empty()) {
            Ok(t) => (r matches Ok(sv) && sv.wf() && node_tree(*sv.root) == t),
            Err(e) => r == Err::<crate::Sieve, ParseError>(e),
        },
{
    let ghost target = build_spec(tokens@, Seq::empty());
    let mut stack: Vec<crate::SieveNode> = Vec::new();
    let mut i: usize = 0;
    proof {
        assert(tokens@.skip(0) =~= tokens@);
        assert(stack_trees(stack@) =~= Seq::<TreeSpec>::empty());
    }
    while i < tokens.len()
        invariant
            i <= tokens@.len(),
            target == build_spec(tokens@, Seq::empty()),
            build_spec(tokens@.skip(i as int), stack_trees(stack@)) == target,
            forall|k: int| 0 <= k < stack@.len() ==> (#[trigger] stack@[k]).wf(),
        decreases tokens@.len() - i,
    {
        let ghost ii = i as int;
        let ghost pre = stack@;
        let t = tokens[i];
        match t {
            Token::Literal(m, sft) => {
                if m < 0 || sft < 0 {
                    return Err(ParseError::BadLiteral);
                }
                let res = crate::Residual::new(m, sft);
                stack.push(crate::SieveNode::Unit(res));
                i = i + 1;
                proof {
                    assert(tokens@.skip(ii).skip(1) =~= tokens@.skip(i as int));
                    assert(stack_trees(stack@) =~= stack_trees(pre).push(
                        TreeSpec::Unit(m as int, norm_shift(m as int, sft as int)),
                    ));
                }
            },
            Token::Not => {
                match stack.pop() {
                    Some(a) => {
                        stack.push(crate::SieveNode::Inversion(std::rc::Rc::new(a)));
                        i = i + 1;
                        proof {
                            assert(tokens@.skip(ii).skip(1) =~= tokens@.skip(i as int));
                            assert(stack_trees(stack@) =~= stack_trees(pre).drop_last().push(
                                TreeSpec::Inversion(Box::new(stack_trees(pre).last())),
                            ));
                        }
                    },
                    None => {
                        return Err(ParseError::MissingOperand);
                    },
                }
            },
            Token::LParen => {
                return Err(ParseError::MissingOperand);
            },
            Token::RParen => {
                return Err(ParseError::MissingOperand);
            },
            _ => {
                let b = match stack.pop() {
                    Some(x) => x,
                    None => {
                        return Err(ParseError::MissingOperand);
                    },
                };
                let a = match stack.pop() {
                    Some(x) => x,
                    None => {
                        return Err(ParseError::MissingOperand);
                    },
                };
                let node = match t {
                    Token::And => crate::SieveNode::Intersection(
                        std::rc::Rc::new(a),
                        std::rc::Rc::new(b),
                    ),
                    Token::Or => crate::SieveNode::Union(std::rc::Rc::new(a), std::rc::Rc::new(b)),
                    _ => crate::SieveNode::SymmetricDifference(
                        std::rc::Rc::new(a),
                        std::rc::Rc::new(b),
                    ),
                };
                stack.push(node);
                i = i + 1;
                proof {
                    assert(tokens@.skip(ii).skip(1) =~= tokens@.skip(i as int));
                    assert(stack_trees(stack@) =~= stack_trees(pre).drop_last().drop_last().push(
                        node_tree(node),
                    ));
                }
            },
        }
    }
    proof {
        assert(tokens@.skip(i as int).len() == 0);
    }
    if stack.len() == 1 {
        let ghost fin = stack@;
        match stack.pop() {
            Some(root) => {
                proof {
                    assert(stack_trees(fin).len() == 1);
                    assert(stack_trees(fin)[0] == node_tree(root));
                    assert(root.wf());
                }
                Ok(crate::Sieve { root: std::rc::Rc::new(root) })
            },
            None => {
                proof {
                    assert(false);
                }
                Err(ParseError::IncompleteExpression)
            },
        }
    } else {
        Err(ParseError::IncompleteExpression)
    }
}

/// The canonical text `M@S` of two numbers of at most twelve digits
/// tokenizes to the one literal token holding those numbers.
pub proof fn lemma_tokenize_literal_text(m: i128, s: i128)
    requires
        0 <= m < 1_000_000_000_000,
        0 <= s < 1_000_000_000_000,
    ensures
        tok_spec(crate::text::dec_str(m as nat) + seq!['@'] + crate::text::dec_str(s as nat))
            == Ok::<Seq<Token>, ParseError>(seq![Token::Literal(m, s)]),
{
    lemma_pow10_twelve();
    let dm = crate::text::dec_str(m as nat);
    let ds = crate::text::dec_str(s as nat);
    let t = dm + seq!['@'] + ds;
    crate::text::lemma_dec_str_val(m as nat);
    crate::text::lemma_dec_str_val(s as nat);
    crate::text::lemma_dec_str_len(m as nat, 12nat);
    crate::text::lemma_dec_str_len(s as nat, 12nat);
    let rest2 = seq!['@'] + ds;
    assert(t =~= dm + rest2);
    assert(rest2[0] == '@');
    crate::text::lemma_digit_prefix_concat(dm, rest2);
    let ml = digit_prefix_len(t) as int;
    assert(ml == dm.len());
    assert(t[ml] == rest2[0]);
    let rest = t.skip(ml + 1);
    assert(rest =~= ds);
    assert(ds + Seq::<char>::empty() =~= ds);
    crate::text::lemma_digit_prefix_concat(ds, Seq::empty());
    let sl = digit_prefix_len(rest) as int;
    assert(sl == ds.len());
    assert(t.take(ml) =~= dm);
    assert(rest.take(sl) =~= ds);
    assert(rest.skip(sl) =~= Seq::<char>::empty());
    assert(tok_spec(rest.skip(sl)) == Ok::<Seq<Token>, ParseError>(Seq::empty()));
    assert(t[0] == dm[0]);
    assert(is_digit(t[0]));
    assert(tok_spec(t) == tok_prepend(
        seq![Token::Literal(dec_val(t.take(ml)) as i128, dec_val(rest.take(sl)) as i128)],
        tok_spec(rest.skip(sl)),
    ));
    assert(seq![Token::Literal(m, s)] + Seq::<Token>::empty() =~= seq![Token::Literal(m, s)]);
}

/// The canonical text `M@S` parses to the single leaf holding the
/// normalized residual class `M@S`.
pub proof fn lemma_parse_residual_text(m: i128, s: i128)
    requires
        0 <= m < 1_000_000_000_000,
        0 <= s < 1_000_000_000_000,
    ensures
        parse_spec(crate::text::dec_str(m as nat) + seq!['@'] + crate::text::dec_str(s as nat))
            == Ok::<TreeSpec, ParseError>(
            TreeSpec::Unit(m as int, norm_shift(m as int, s as int)),
        ),
{
    lemma_tokenize_literal_text(m, s);
    let toks = seq![Token::Literal(m, s)];
    assert(toks.skip(1) =~= Seq::<Token>::empty());
    assert(Seq::<Token>::empty().push(Token::Literal(m, s)) =~= toks);
    assert(shunt_spec(toks, Seq::empty(), Seq::empty()) == shunt_spec(
        toks.skip(1),
        Seq::empty(),
        Seq::<Token>::empty().push(Token::Literal(m, s)),
    ));
    assert(shunt_spec(Seq::<Token>::empty(), Seq::<Token>::empty(), toks) == Ok::<
        Seq<Token>,
        ParseError,
    >(toks));
    let leaf = TreeSpec::Unit(m as int, norm_shift(m as int, s as int));
    let st = Seq::<TreeSpec>::empty().push(leaf);
    assert(build_spec(toks, Seq::empty()) == build_spec(toks.skip(1), st));
    assert(st.len() == 1 && st[0] == leaf);
    assert(build_spec(Seq::<Token>::empty(), st) == Ok::<TreeSpec, ParseError>(leaf));
}

} // verus!
