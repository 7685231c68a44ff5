//! Reconstruction of the flat prefix-notation token stream into one
//! completed expression tree, by an explicit stack of partially filled
//! frames.

use vstd::prelude::*;

use crate::bscii::arity;
use crate::bscii::token_views;
use crate::bscii::Token;
use crate::bscii::TokenView;

verus! {

/// A tree node: one token and its realized operand children, in order.
/// A synthetic `Root` frame anchors the forest until one tree remains.
#[derive(Debug)]
pub struct Frame {
    pub token: Token,
    pub args: Vec<Frame>,
}

impl Default for Frame {
    fn default() -> (f: Frame)
        ensures
            f.token == Token::Root,
            f.args@ == Seq::<Frame>::empty(),
    {
        Frame { token: Token::Root, args: Vec::new() }
    }
}

impl Frame {
    /// A fresh synthetic root frame with no children.
    pub fn new() -> (f: Frame)
        ensures
            f.token == Token::Root,
            f.args@ == Seq::<Frame>::empty(),
    {
        Default::default()
    }
}

/// A frame is complete when its child count equals its token's arity, and
/// every child is itself complete.
pub open spec fn complete(f: Frame) -> bool
    decreases f,
{
    f.args@.len() == arity(f.token@) && all_complete(f.args@)
}

pub open spec fn all_complete(s: Seq<Frame>) -> bool
    decreases s,
{
    if s.len() == 0 {
        true
    } else {
        complete(s[0]) && all_complete(s.drop_first())
    }
}

/// The token stream a tree stands for: its token, then its children's
/// streams in order (a pre-order walk).
pub open spec fn flatten(f: Frame) -> Seq<TokenView>
    decreases f,
{
    seq![f.token@] + flatten_all(f.args@)
}

pub open spec fn flatten_all(s: Seq<Frame>) -> Seq<TokenView>
    decreases s,
{
    if s.len() == 0 {
        Seq::empty()
    } else {
        flatten(s[0]) + flatten_all(s.drop_first())
    }
}

/// How many more expressions a stream still owes after these tokens: one
/// expression is awaited at the start, each token settles one and opens as
/// many as its arity.
pub open spec fn needs(s: Seq<TokenView>) -> int
    decreases s.len(),
{
    if s.len() == 0 {
        1
    } else {
        needs(s.drop_last()) - 1 + arity(s.last())
    }
}

/// A stream forms exactly one complete expression: nothing is owed at the
/// end, and something is still owed at every point before it.
pub open spec fn wf_stream(s: Seq<TokenView>) -> bool {
    needs(s) == 0 && forall|i: int| 0 <= i < s.len() ==> needs(#[trigger] s.take(i)) >= 1
}

/// Failure of reconstructing a tree from a token stream.
#[derive(Debug)]
pub enum TreeError {
    /// The stream ended while operand slots were still unfilled (or was
    /// empty).
    Incomplete,
    /// The token at this position arrived after the single top-level
    /// expression was already complete.
    TrailingInput { position: usize },
}

proof fn lemma_needs_concat(a: Seq<TokenView>, b: Seq<TokenView>)
    ensures
        needs(a + b) == needs(a) + needs(b) - 1,
    decreases b.len(),
{
    if b.len() == 0 {
        assert(a + b =~= a);
    } else {
        assert((a + b).drop_last() =~= a + b.drop_last());
        assert((a + b).last() == b.last());
        lemma_needs_concat(a, b.drop_last());
    }
}

/// A complete tree's stream owes nothing more.
pub proof fn lemma_flatten_complete(f: Frame)
    requires
        complete(f),
    ensures
        needs(flatten(f)) == 0,
    decreases f,
{
    lemma_flatten_all_complete(f.args@);
    let single = seq![f.token@];
    assert(single.drop_last() =~= Seq::<TokenView>::empty());
    assert(single.last() == f.token@);
    assert(needs(Seq::<TokenView>::empty()) == 1);
    assert(needs(single) == arity(f.token@));
    lemma_needs_concat(single, flatten_all(f.args@));
}

proof fn lemma_flatten_all_complete(s: Seq<Frame>)
    requires
        all_complete(s),
    ensures
        needs(flatten_all(s)) == 1 - s.len(),
    decreases s,
{
    if s.len() > 0 {
        lemma_flatten_complete(s[0]);
        lemma_flatten_all_complete(s.drop_first());
        lemma_needs_concat(flatten(s[0]), flatten_all(s.drop_first()));
    }
}

proof fn lemma_flatten_prefix(f: Frame, i: int)
    requires
        complete(f),
        0 <= i < flatten(f).len(),
    ensures
        needs(flatten(f).take(i)) >= 1,
    decreases f,
{
    if i == 0 {
        assert(flatten(f).take(0) =~= Seq::<TokenView>::empty());
    } else {
        let single = seq![f.token@];
        let rest = flatten_all(f.args@);
        assert(flatten(f).len() == 1 + rest.len());
        assert(flatten(f).take(i) =~= single + rest.take(i - 1));
        lemma_needs_concat(single, rest.take(i - 1));
        assert(single.drop_last() =~= Seq::<TokenView>::empty());
        assert(single.last() == f.token@);
        assert(needs(Seq::<TokenView>::empty()) == 1);
        assert(needs(single) == arity(f.token@));
        if i - 1 == rest.len() {
            assert(false);
        } else {
            lemma_flatten_all_prefix(f.args@, i - 1);
        }
    }
}

proof fn lemma_flatten_all_prefix(s: Seq<Frame>, i: int)
    requires
        all_complete(s),
        0 <= i < flatten_all(s).len(),
    ensures
        needs(flatten_all(s).take(i)) >= 2 - s.len(),
    decreases s,
{
    let head = flatten(s[0]);
    let rest = flatten_all(s.drop_first());
    assert(flatten_all(s) == head + rest);
    if i < head.len() {
        assert(flatten_all(s).take(i) =~= head.take(i));
        lemma_flatten_prefix(s[0], i);
    } else {
        assert(flatten_all(s).take(i) =~= head + rest.take(i - head.len()));
        lemma_needs_concat(head, rest.take(i - head.len()));
        lemma_flatten_complete(s[0]);
        lemma_flatten_all_prefix(s.drop_first(), i - head.len());
    }
}

/// A completed tree's stream is well-formed: the builder accepts exactly
/// the streams that completed trees spell out.
pub proof fn lemma_complete_stream_wf(f: Frame)
    requires
        complete(f),
    ensures
        wf_stream(flatten(f)),
{
    lemma_flatten_complete(f);
    assert forall|i: int| 0 <= i < flatten(f).len() implies needs(
        #[trigger] flatten(f).take(i),
    ) >= 1 by {
        lemma_flatten_prefix(f, i);
    }
}

/// An open frame on the builder's stack: a token that takes operands, with
/// fewer complete children than its arity.
pub open spec fn partial_ok(f: Frame) -> bool {
    arity(f.token@) > 0 && f.args@.len() < arity(f.token@) && all_complete(f.args@)
}

pub open spec fn stack_ok(st: Seq<Frame>) -> bool {
    forall|i: int| 0 <= i < st.len() ==> partial_ok(#[trigger] st[i])
}

/// The tokens the stack's frames have consumed, bottom to top.
pub open spec fn stack_tokens(st: Seq<Frame>) -> Seq<TokenView>
    decreases st.len(),
{
    if st.len() == 0 {
        Seq::empty()
    } else {
        stack_tokens(st.drop_last()) + flatten(st.last())
    }
}

/// The unfilled operand slots of the stack, beyond the one slot its top
/// frame will itself settle in its parent.
pub open spec fn stack_slack(st: Seq<Frame>) -> int
    decreases st.len(),
{
    if st.len() == 0 {
        0
    } else {
        stack_slack(st.drop_last()) + arity(st.last().token@) - st.last().args@.len() - 1
    }
}

proof fn lemma_needs_of_partial(f: Frame)
    requires
        all_complete(f.args@),
    ensures
        needs(flatten(f)) == arity(f.token@) - f.args@.len(),
{
    lemma_flatten_all_complete(f.args@);
    let single = seq![f.token@];
    assert(single.drop_last() =~= Seq::<TokenView>::empty());
    assert(single.last() == f.token@);
    assert(needs(Seq::<TokenView>::empty()) == 1);
    assert(needs(single) == arity(f.token@));
    lemma_needs_concat(single, flatten_all(f.args@));
}

proof fn lemma_stack(st: Seq<Frame>)
    requires
        stack_ok(st),
    ensures
        needs(stack_tokens(st)) == 1 + stack_slack(st),
        stack_slack(st) >= 0,
    decreases st.len(),
{
    if st.len() > 0 {
        assert(stack_ok(st.drop_last()));
        lemma_stack(st.drop_last());
        assert(partial_ok(st.last()));
        lemma_needs_of_partial(st.last());
        lemma_needs_concat(stack_tokens(st.drop_last()), flatten(st.last()));
    }
}

proof fn lemma_all_complete_push(s: Seq<Frame>, f: Frame)
    requires
        all_complete(s),
        complete(f),
    ensures
        all_complete(s.push(f)),
    decreases s,
{
    if s.len() == 0 {
        assert(s.push(f)[0] == f);
        assert(s.push(f).drop_first() =~= Seq::<Frame>::empty());
        assert(all_complete(Seq::<Frame>::empty()));
    } else {
        assert(s.push(f)[0] == s[0]);
        assert(s.push(f).drop_first() =~= s.drop_first().push(f));
        lemma_all_complete_push(s.drop_first(), f);
    }
}

proof fn lemma_flatten_all_push(s: Seq<Frame>, f: Frame)
    ensures
        flatten_all(s.push(f)) == flatten_all(s) + flatten(f),
    decreases s,
{
    if s.len() == 0 {
        assert(s.push(f)[0] == f);
        assert(s.push(f).drop_first() =~= Seq::<Frame>::empty());
        assert(flatten_all(Seq::<Frame>::empty()) == Seq::<TokenView>::empty());
        assert(flatten_all(s.push(f)) =~= flatten(f));
        assert(flatten_all(s) + flatten(f) =~= flatten(f));
    } else {
        assert(s.push(f)[0] == s[0]);
        assert(s.push(f).drop_first() =~= s.drop_first().push(f));
        lemma_flatten_all_push(s.drop_first(), f);
        assert(flatten(s[0]) + (flatten_all(s.drop_first()) + flatten(f)) =~= (flatten(s[0])
            + flatten_all(s.drop_first())) + flatten(f));
    }
}

/// Consumes the flat token stream in order and reconstructs the single
/// completed expression tree it spells, or reports how the stream is
/// malformed: tokens that take operands open a frame on an explicit stack,
/// each completed expression fills its parent's next operand slot, and a
/// frame whose slots are all filled completes in turn.
#[verifier::loop_isolation(false)]
pub fn build_tree(tokens: &Vec<Token>) -> (r: Result<Frame, TreeError>)
    ensures
        match r {
            Ok(f) => {
                &&& wf_stream(token_views(tokens@))
                &&& complete(f)
                &&& flatten(f) == token_views(tokens@)
            },
            Err(TreeError::Incomplete) => {
                &&& !wf_stream(token_views(tokens@))
                &&& forall|i: int|
                    0 <= i <= tokens@.len() ==> needs(
                        #[trigger] token_views(tokens@).take(i),
                    ) >= 1
            },
            Err(TreeError::TrailingInput { position }) => {
                &&& !wf_stream(token_views(tokens@))
                &&& position < tokens@.len()
                &&& needs(token_views(tokens@).take(position as int)) == 0
                &&& forall|i: int|
                    0 <= i < position ==> needs(#[trigger] token_views(tokens@).take(i)) >= 1
            },
        },
{
    let ghost all = token_views(tokens@);
    let n = tokens.len();
    let mut stack: Vec<Frame> = Vec::new();
    let mut done: Option<Frame> = None;
    let mut idx: usize = 0;
    proof {
        assert(all.take(0) =~= Seq::<TokenView>::empty());
        assert(stack_tokens(stack@) =~= Seq::<TokenView>::empty());
    }
    while idx < n
        invariant
            idx <= n,
            match done {
                None => {
                    &&& stack_ok(stack@)
                    &&& stack_tokens(stack@) == all.take(idx as int)
                    &&& (stack@.len() == 0 ==> idx == 0)
                    &&& forall|i: int| 0 <= i <= idx ==> needs(#[trigger] all.take(i)) >= 1
                },
                Some(f) => {
                    &&& complete(f)
                    &&& flatten(f) == all.take(idx as int)
                    &&& stack@.len() == 0
                    &&& needs(all.take(idx as int)) == 0
                    &&& forall|i: int| 0 <= i < idx ==> needs(#[trigger] all.take(i)) >= 1
                },
            },
        decreases n - idx,
    {
        if done.is_some() {
            proof {
                assert(needs(all.take(idx as int)) == 0);
                assert(!wf_stream(all));
            }
            return Err(TreeError::TrailingInput { position: idx });
        }
        let tok = tokens[idx].clone();
        let a = tok.num_args();
        proof {
            assert(all[idx as int] == tok@);
            assert(all.take(idx + 1) =~= all.take(idx as int).push(tok@));
            assert(all.take(idx as int).push(tok@).drop_last() =~= all.take(idx as int));
            assert(needs(all.take(idx + 1)) == needs(all.take(idx as int)) - 1 + arity(tok@));
        }
        let frame = Frame { token: tok, args: Vec::new() };
        if a > 0 {
            proof {
                assert(all_complete(frame.args@));
                assert(partial_ok(frame));
                assert(flatten_all(frame.args@) =~= Seq::<TokenView>::empty());
                assert(flatten(frame) =~= seq![frame.token@]);
                assert(stack@.push(frame).drop_last() =~= stack@);
                assert(stack_tokens(stack@.push(frame)) =~= all.take(idx + 1));
                assert(stack_ok(stack@.push(frame)));
            }
            stack.push(frame);
        } else {
            let mut cur = frame;
            proof {
                assert(all_complete(cur.args@));
                assert(complete(cur));
                assert(flatten_all(cur.args@) =~= Seq::<TokenView>::empty());
                assert(flatten(cur) =~= seq![cur.token@]);
                assert(stack_tokens(stack@) + flatten(cur) =~= all.take(idx + 1));
            }
            loop
                invariant
                    idx < n,
                    done is None,
                    complete(cur),
                    stack_ok(stack@),
                    stack_tokens(stack@) + flatten(cur) == all.take(idx + 1),
                    forall|i: int| 0 <= i <= idx ==> needs(#[trigger] all.take(i)) >= 1,
                decreases stack@.len(),
            {
                let ghost st_old = stack@;
                match stack.pop() {
                    None => {
                        proof {
                            assert(stack_tokens(stack@) =~= Seq::<TokenView>::empty());
                            assert(flatten(cur) =~= all.take(idx + 1));
                            lemma_flatten_complete(cur);
                        }
                        done = Some(cur);
                        break ;
                    },
                    Some(parent) => {
                        let ghost st_rest = stack@;
                        let ghost old_parent = parent;
                        let mut parent = parent;
                        parent.args.push(cur);
                        proof {
                            assert(st_rest == st_old.drop_last());
                            assert(old_parent == st_old.last());
                            assert(stack_tokens(st_old) == stack_tokens(st_rest) + flatten(
                                old_parent,
                            ));
                            assert(old_parent.args@.push(cur) == parent.args@);
                            lemma_all_complete_push(old_parent.args@, cur);
                            lemma_flatten_all_push(old_parent.args@, cur);
                            assert(seq![parent.token@] + (flatten_all(old_parent.args@)
                                + flatten(cur)) =~= (seq![parent.token@] + flatten_all(
                                old_parent.args@,
                            )) + flatten(cur));
                            assert(flatten(parent) == flatten(old_parent) + flatten(cur));
                            assert(stack_tokens(st_rest) + flatten(parent) =~= all.take(idx + 1));
                        }
                        let pa = parent.token.num_args();
                        if parent.args.len() == pa {
                            proof {
                                assert(complete(parent));
                            }
                            cur = parent;
                        } else {
                            proof {
                                assert(partial_ok(parent));
                                assert(stack@.push(parent).drop_last() =~= stack@);
                                assert(stack_ok(stack@.push(parent)));
                                assert(stack_tokens(stack@.push(parent)) =~= all.take(idx + 1));
                                lemma_stack(stack@.push(parent));
                            }
                            stack.push(parent);
                            break ;
                        }
                    },
                }
            }
        }
        idx += 1;
    }
    proof {
        assert(all.take(n as int) =~= all);
    }
    match done {
        Some(f) => {
            proof {
                assert(needs(all) == 0);
                assert(wf_stream(all));
            }
            Ok(f)
        },
        None => {
            proof {
                if stack@.len() == 0 {
                    assert(idx == 0);
                    assert(needs(all.take(0)) >= 1);
                } else {
                    lemma_stack(stack@);
                }
                assert(needs(all) >= 1);
                assert(!wf_stream(all));
            }
            Err(TreeError::Incomplete)
        },
    }
}

} // verus!
