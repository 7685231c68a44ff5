//! Depth-first pretty-printing of token streams and completed expression
//! trees to indented text.

use vstd::prelude::*;

use crate::bscii::arity;
use crate::bscii::push_char;
use crate::bscii::token_views;
use crate::bscii::BinaryOperator;
use crate::bscii::BinaryOperatorView;
use crate::bscii::Token;
use crate::bscii::TokenView;
use crate::bscii::UnaryOperator;
use crate::bscii::UnaryOperatorView;
use crate::tree::Frame;
use vstd::string::StringExecFns;

verus! {

/// Four spaces of indentation for every nesting level.
pub open spec fn spec_indent(level: nat) -> Seq<char> {
    Seq::new(4 * level, |i: int| ' ')
}

/// The decimal digit character for `d` in 0..10.
pub open spec fn digit_char(d: int) -> char {
    ((48 + d) as u8) as char
}

/// The decimal digits of `n`, most significant first; meaningful for
/// `n >= 0`.
pub open spec fn dec_digits(n: int) -> Seq<char>
    decreases n,
{
    if n < 10 {
        seq![digit_char(n)]
    } else {
        dec_digits(n / 10).push(digit_char(n % 10))
    }
}

/// The printed name of a unary operator.
pub open spec fn unary_name(op: UnaryOperatorView) -> Seq<char> {
    match op {
        UnaryOperatorView::IntegerNegation => "IntegerNegation"@,
        UnaryOperatorView::BooleanNot => "BooleanNot"@,
        UnaryOperatorView::StringToInt => "StringToInt"@,
        UnaryOperatorView::IntToString => "IntToString"@,
        UnaryOperatorView::Invalid { value } => "InvalidUnaryOperator \""@ + value + "\""@,
    }
}

/// The printed name of a binary operator.
pub open spec fn binary_name(op: BinaryOperatorView) -> Seq<char> {
    match op {
        BinaryOperatorView::IntegerAddition => "IntegerAddition"@,
        BinaryOperatorView::IntegerSubtraction => "IntegerSubtraction"@,
        BinaryOperatorView::IntegerMultiplication => "IntegerMultiplication"@,
        BinaryOperatorView::IntegerDivision => "IntegerDivision"@,
        BinaryOperatorView::IntegerModulo => "IntegerModulo"@,
        BinaryOperatorView::IntegerLessThan => "IntegerLessThan"@,
        BinaryOperatorView::IntegerGreaterThan => "IntegerGreaterThan"@,
        BinaryOperatorView::Equality => "Equality"@,
        BinaryOperatorView::StringConcatenation => "StringConcatenation"@,
        BinaryOperatorView::StringTake => "StringTake"@,
        BinaryOperatorView::StringDrop => "StringDrop"@,
        BinaryOperatorView::Apply => "Apply"@,
        BinaryOperatorView::Invalid { value } => "InvalidBinaryOperator \""@ + value + "\""@,
    }
}

/// The type-specific label of a token: literal value, quoted text, operator
/// name, or binder and variable id.
pub open spec fn label_of(t: TokenView) -> Seq<char> {
    match t {
        TokenView::Root => "Root"@,
        TokenView::Boolean { value } => if value {
            "true"@
        } else {
            "false"@
        },
        TokenView::Integer { value } => dec_digits(value),
        TokenView::Text { value } => "\""@ + value + "\""@,
        TokenView::Unary { value } => unary_name(value),
        TokenView::Binary { value } => binary_name(value),
        TokenView::Lambda { value } => "v"@ + dec_digits(value),
        TokenView::Variable { value } => "v"@ + dec_digits(value),
        TokenView::Other { value } => value,
    }
}

/// One node's line: indentation, label, and an open-group marker when the
/// token takes operands.
pub open spec fn line_of(t: TokenView, level: nat) -> Seq<char> {
    spec_indent(level) + label_of(t) + (if arity(t) > 0 {
        " ("@
    } else {
        Seq::<char>::empty()
    }) + "\n"@
}

/// The rendering of a tree at a nesting depth: the node's line, each child
/// one level deeper, and a close-group marker back at the node's own
/// indentation when it has operands.
pub open spec fn spec_render(f: Frame, depth: nat) -> Seq<char>
    decreases f,
{
    line_of(f.token@, depth) + spec_render_all(f.args@, depth + 1) + (if arity(f.token@) > 0 {
        spec_indent(depth) + ")"@ + "\n"@
    } else {
        Seq::<char>::empty()
    })
}

pub open spec fn spec_render_all(s: Seq<Frame>, depth: nat) -> Seq<char>
    decreases s,
{
    if s.len() == 0 {
        Seq::empty()
    } else {
        spec_render(s[0], depth) + spec_render_all(s.drop_first(), depth)
    }
}

/// Nesting height of a tree: one more than its tallest child.
pub open spec fn height(f: Frame) -> nat
    decreases f,
{
    1 + heights(f.args@)
}

pub open spec fn heights(s: Seq<Frame>) -> nat
    decreases s,
{
    if s.len() == 0 {
        0
    } else {
        let h = height(s[0]);
        let r = heights(s.drop_first());
        if h > r {
            h
        } else {
            r
        }
    }
}

proof fn lemma_heights_bound(s: Seq<Frame>, i: int)
    requires
        0 <= i < s.len(),
    ensures
        heights(s) >= height(s[i]),
    decreases i,
{
    if i > 0 {
        lemma_heights_bound(s.drop_first(), i - 1);
        assert(s.drop_first()[i - 1] == s[i]);
    }
}

proof fn lemma_render_all_snoc(s: Seq<Frame>, i: int, depth: nat)
    requires
        0 <= i < s.len(),
    ensures
        spec_render_all(s.take(i + 1), depth) == spec_render_all(s.take(i), depth) + spec_render(
            s[i],
            depth,
        ),
    decreases i,
{
    if i == 0 {
        assert(s.take(1)[0] == s[0]);
        assert(s.take(1).drop_first() =~= Seq::<Frame>::empty());
        assert(spec_render_all(Seq::<Frame>::empty(), depth) == Seq::<char>::empty());
        assert(s.take(0) =~= Seq::<Frame>::empty());
        assert(spec_render_all(s.take(1), depth) =~= spec_render_all(s.take(0), depth)
            + spec_render(s[0], depth));
    } else {
        let tail = s.drop_first();
        lemma_render_all_snoc(tail, i - 1, depth);
        assert(tail[i - 1] == s[i]);
        assert(s.take(i + 1)[0] == s[0]);
        assert(s.take(i + 1).drop_first() =~= tail.take(i));
        assert(s.take(i)[0] == s[0]);
        assert(s.take(i).drop_first() =~= tail.take(i - 1));
        assert(spec_render_all(s.take(i + 1), depth) == spec_render(s[0], depth)
            + spec_render_all(tail.take(i), depth));
        assert(spec_render_all(s.take(i), depth) == spec_render(s[0], depth) + spec_render_all(
            tail.take(i - 1),
            depth,
        ));
        assert(spec_render(s[0], depth) + (spec_render_all(tail.take(i - 1), depth) + spec_render(
            s[i],
            depth,
        )) =~= (spec_render(s[0], depth) + spec_render_all(tail.take(i - 1), depth)) + spec_render(
            s[i],
            depth,
        ));
    }
}

/// A text of `4 * level` spaces, the indentation of one nesting level.
pub fn indent(level: usize) -> (r: String)
    ensures
        r@ == spec_indent(level as nat),
{
    let mut out = String::new();
    proof {
        reveal_strlit("    ");
        assert(out@ =~= spec_indent(0));
    }
    for l in 0..level
        invariant
            out@ == spec_indent(l as nat),
    {
        out.append("    ");
        proof {
            reveal_strlit("    ");
            assert(out@ =~= spec_indent((l + 1) as nat));
        }
    }
    out
}

/// Writes the decimal digits of `n`, most significant first.
fn push_decimal(n: u64, out: &mut String)
    ensures
        final(out)@ == old(out)@ + dec_digits(n as int),
    decreases n,
{
    let ghost base = out@;
    if n >= 10 {
        push_decimal(n / 10, out);
    }
    let d = (n % 10) as u8;
    push_char(out, (48 + d) as char);
    proof {
        if n < 10 {
            assert(out@ =~= base + dec_digits(n as int));
        } else {
            assert((n as int) / 10 == (n / 10) as int);
            assert(out@ =~= base + dec_digits(n as int));
        }
    }
}

fn push_unary_name(op: &UnaryOperator, out: &mut String)
    ensures
        final(out)@ == old(out)@ + unary_name(op@),
{
    let ghost base = out@;
    match op {
        UnaryOperator::IntegerNegation => out.append("IntegerNegation"),
        UnaryOperator::BooleanNot => out.append("BooleanNot"),
        UnaryOperator::StringToInt => out.append("StringToInt"),
        UnaryOperator::IntToString => out.append("IntToString"),
        UnaryOperator::Invalid { value } => {
            out.append("InvalidUnaryOperator \"");
            out.append(value.as_str());
            out.append("\"");
            proof {
                assert(out@ =~= base + unary_name(op@));
            }
        },
    }
}

fn push_binary_name(op: &BinaryOperator, out: &mut String)
    ensures
        final(out)@ == old(out)@ + binary_name(op@),
{
    let ghost base = out@;
    match op {
        BinaryOperator::IntegerAddition => out.append("IntegerAddition"),
        BinaryOperator::IntegerSubtraction => out.append("IntegerSubtraction"),
        BinaryOperator::IntegerMultiplication => out.append("IntegerMultiplication"),
        BinaryOperator::IntegerDivision => out.append("IntegerDivision"),
        BinaryOperator::IntegerModulo => out.append("IntegerModulo"),
        BinaryOperator::IntegerLessThan => out.append("IntegerLessThan"),
        BinaryOperator::IntegerGreaterThan => out.append("IntegerGreaterThan"),
        BinaryOperator::Equality => out.append("Equality"),
        BinaryOperator::StringConcatenation => out.append("StringConcatenation"),
        BinaryOperator::StringTake => out.append("StringTake"),
        BinaryOperator::StringDrop => out.append("StringDrop"),
        BinaryOperator::Apply => out.append("Apply"),
        BinaryOperator::Invalid { value } => {
            out.append("InvalidBinaryOperator \"");
            out.append(value.as_str());
            out.append("\"");
            proof {
                assert(out@ =~= base + binary_name(op@));
            }
        },
    }
}

/// Writes a token's label.
fn push_label(t: &Token, out: &mut String)
    ensures
        final(out)@ == old(out)@ + label_of(t@),
{
    let ghost base = out@;
    match t {
        Token::Root => out.append("Root"),
        Token::Boolean { value } => {
            if *value {
                out.append("true")
            } else {
                out.append("false")
            }
        },
        Token::Integer { value } => push_decimal(*value, out),
        Token::Text { value } => {
            out.append("\"");
            out.append(value.as_str());
            out.append("\"");
            proof {
                assert(out@ =~= base + label_of(t@));
            }
        },
        Token::Unary { value } => push_unary_name(value, out),
        Token::Binary { value } => push_binary_name(value, out),
        Token::Lambda { value } => {
            out.append("v");
            push_decimal(*value, out);
            proof {
                assert(out@ =~= base + label_of(t@));
            }
        },
        Token::Variable { value } => {
            out.append("v");
            push_decimal(*value, out);
            proof {
                assert(out@ =~= base + label_of(t@));
            }
        },
        Token::Other { value } => out.append(value.as_str()),
    }
}

impl Token {
    /// The token's type-specific label text, as the renderers print it.
    pub fn label(&self) -> (r: String)
        ensures
            r@ == label_of(self@),
    {
        let mut out = String::new();
        push_label(self, &mut out);
        proof {
            assert(Seq::<char>::empty() + label_of(self@) =~= label_of(self@));
        }
        out
    }
}

/// Writes one node's line at the given level.
fn push_line(t: &Token, level: usize, out: &mut String)
    ensures
        final(out)@ == old(out)@ + line_of(t@, level as nat),
{
    let ghost base = out@;
    let ind = indent(level);
    out.append(ind.as_str());
    push_label(t, out);
    if t.num_args() > 0 {
        out.append(" (");
    }
    out.append("\n");
    proof {
        assert(out@ =~= base + line_of(t@, level as nat));
    }
}

/// Renders a tree at a nesting depth, appending to `out`: a pre-order walk,
/// each node one line, children indented one level deeper, operand groups
/// closed at the parent's indentation.
#[verifier::loop_isolation(false)]
fn render_into(f: &Frame, depth: usize, out: &mut String)
    requires
        depth + height(*f) <= usize::MAX,
    ensures
        final(out)@ == old(out)@ + spec_render(*f, depth as nat),
    decreases *f,
{
    push_line(&f.token, depth, out);
    let ghost base = out@;
    let n = f.args.len();
    let mut i: usize = 0;
    proof {
        assert(f.args@.take(0) =~= Seq::<Frame>::empty());
        assert(out@ =~= base + spec_render_all(f.args@.take(0), (depth + 1) as nat));
    }
    while i < n
        invariant
            n == f.args@.len(),
            i <= n,
            out@ == base + spec_render_all(f.args@.take(i as int), (depth + 1) as nat),
        decreases n - i,
    {
        proof {
            lemma_heights_bound(f.args@, i as int);
        }
        render_into(&f.args[i], depth + 1, out);
        proof {
            lemma_render_all_snoc(f.args@, i as int, (depth + 1) as nat);
            assert(base + (spec_render_all(f.args@.take(i as int), (depth + 1) as nat)
                + spec_render(f.args@[i as int], (depth + 1) as nat)) =~= (base + spec_render_all(
                f.args@.take(i as int),
                (depth + 1) as nat,
            )) + spec_render(f.args@[i as int], (depth + 1) as nat));
        }
        i += 1;
    }
    proof {
        assert(f.args@.take(n as int) =~= f.args@);
    }
    if f.token.num_args() > 0 {
        let ind = indent(depth);
        out.append(ind.as_str());
        out.append(")");
        out.append("\n");
    }
    proof {
        assert(out@ =~= old(out)@ + spec_render(*f, depth as nat));
    }
}

/// Renders a tree to indented text, starting at the given nesting depth.
/// Pure and deterministic: the same tree always gives byte-identical text.
pub fn render_frame(f: &Frame, depth: usize) -> (r: String)
    requires
        depth + height(*f) <= usize::MAX,
    ensures
        r@ == spec_render(*f, depth as nat),
{
    let mut out = String::new();
    render_into(f, depth, &mut out);
    proof {
        assert(Seq::<char>::empty() + spec_render(*f, depth as nat) =~= spec_render(
            *f,
            depth as nat,
        ));
    }
    out
}

/// Rendering is a function of the tree and depth alone: any two renderings
/// of the same tree at the same depth are byte-identical.
pub proof fn lemma_render_deterministic(f: Frame, depth: nat, r1: Seq<char>, r2: Seq<char>)
    requires
        r1 == spec_render(f, depth),
        r2 == spec_render(f, depth),
    ensures
        r1 == r2,
{
}

/// The close-group lines a finished operand settles: each counter on the
/// stack that reaches zero emits one close marker at its own level and
/// settles the next counter up, until one still waits for operands.
pub open spec fn spec_close(stack: Seq<int>) -> (Seq<char>, Seq<int>)
    decreases stack.len(),
{
    if stack.len() == 0 {
        (Seq::<char>::empty(), stack)
    } else if stack.last() - 1 == 0 {
        let rest = spec_close(stack.drop_last());
        (spec_indent((stack.len() - 1) as nat) + ")"@ + "\n"@ + rest.0, rest.1)
    } else {
        (Seq::<char>::empty(), stack.drop_last().push(stack.last() - 1))
    }
}

/// The line-by-line rendering of a flat token stream, indentation tracking
/// the operator nesting as the tokens arrive.
pub open spec fn spec_render_tokens(ts: Seq<TokenView>, stack: Seq<int>) -> Seq<char>
    decreases ts.len(),
{
    if ts.len() == 0 {
        Seq::empty()
    } else {
        let t = ts[0];
        let line = line_of(t, stack.len() as nat);
        if arity(t) > 0 {
            line + spec_render_tokens(ts.drop_first(), stack.push(arity(t) as int))
        } else {
            let closed = spec_close(stack);
            line + closed.0 + spec_render_tokens(ts.drop_first(), closed.1)
        }
    }
}

/// The counters of the pending operator frames, top last.
pub open spec fn counters(s: Seq<usize>) -> Seq<int> {
    s.map_values(|x: usize| x as int)
}

/// Renders the flat token stream line by line, without building a tree:
/// each token one line, indented by the number of operator frames still
/// awaiting operands, with close-group markers as frames fill.
#[verifier::loop_isolation(false)]
pub fn render_tokens(tokens: &Vec<Token>) -> (r: String)
    ensures
        r@ == spec_render_tokens(token_views(tokens@), Seq::<int>::empty()),
{
    let ghost all = token_views(tokens@);
    let n = tokens.len();
    let mut out = String::new();
    let mut stack: Vec<usize> = Vec::new();
    let mut idx: usize = 0;
    proof {
        assert(all.skip(0) =~= all);
        assert(counters(stack@) =~= Seq::<int>::empty());
        assert(out@ =~= Seq::<char>::empty());
    }
    while idx < n
        invariant
            idx <= n,
            n == tokens@.len(),
            forall|j: int| 0 <= j < stack@.len() ==> #[trigger] stack@[j] >= 1,
            spec_render_tokens(all, Seq::<int>::empty()) == out@ + spec_render_tokens(
                all.skip(idx as int),
                counters(stack@),
            ),
        decreases n - idx,
    {
        let tok = &tokens[idx];
        let a = tok.num_args();
        proof {
            assert(all.skip(idx as int)[0] == all[idx as int]);
            assert(all[idx as int] == tok@);
            assert(all.skip(idx as int).drop_first() =~= all.skip(idx + 1));
            assert(counters(stack@).len() == stack@.len());
        }
        push_line(tok, stack.len(), &mut out);
        if a > 0 {
            proof {
                assert(counters(stack@.push(a)) =~= counters(stack@).push(a as int));
            }
            stack.push(a);
        } else {
            loop
                invariant
                    forall|j: int| 0 <= j < stack@.len() ==> #[trigger] stack@[j] >= 1,
                    spec_render_tokens(all, Seq::<int>::empty()) == out@ + spec_close(
                        counters(stack@),
                    ).0 + spec_render_tokens(all.skip(idx + 1), spec_close(counters(stack@)).1),
                decreases stack@.len(),
            {
                let ghost st_old = stack@;
                match stack.pop() {
                    None => {
                        proof {
                            assert(counters(st_old).len() == 0);
                            assert(spec_close(counters(st_old)).0 =~= Seq::<char>::empty());
                        }
                        break ;
                    },
                    Some(last) => {
                        proof {
                            assert(counters(st_old).last() == last as int);
                            assert(counters(st_old).drop_last() =~= counters(stack@));
                        }
                        if last == 1 {
                            let ind = indent(stack.len());
                            out.append(ind.as_str());
                            out.append(")");
                            out.append("\n");
                            proof {
                                assert(spec_close(counters(st_old)).0 =~= spec_indent(
                                    stack@.len() as nat,
                                ) + ")"@ + "\n"@ + spec_close(counters(stack@)).0);
                            }
                        } else {
                            proof {
                                assert(counters(st_old).drop_last().push(last as int - 1)
                                    =~= counters(stack@.push((last - 1) as usize)));
                                assert(spec_close(counters(st_old)).0 =~= Seq::<char>::empty());
                            }
                            stack.push(last - 1);
                            break ;
                        }
                    },
                }
            }
        }
        idx += 1;
    }
    proof {
        assert(all.skip(n as int) =~= Seq::<TokenView>::empty());
    }
    out
}

} // verus!
