use cate::bscii::BinaryOperator;
use cate::bscii::Token;
use cate::bscii::UnaryOperator;
use cate::render::indent;
use cate::render::render_frame;
use cate::render::render_tokens;
use cate::tree::build_tree;
use cate::tree::Frame;
use cate::tree::TreeError;

fn add() -> Token {
    Token::Binary { value: BinaryOperator::IntegerAddition }
}

fn num(value: u64) -> Token {
    Token::Integer { value }
}

#[test]
fn arity_per_kind() {
    assert_eq!(Token::Root.num_args(), 0);
    assert_eq!(Token::Boolean { value: true }.num_args(), 0);
    assert_eq!(num(7).num_args(), 0);
    assert_eq!(Token::Text { value: String::from("x") }.num_args(), 0);
    assert_eq!(Token::Variable { value: 1 }.num_args(), 0);
    assert_eq!(Token::Other { value: String::from("?") }.num_args(), 0);
    assert_eq!(Token::Unary { value: UnaryOperator::BooleanNot }.num_args(), 1);
    assert_eq!(Token::Lambda { value: 1 }.num_args(), 1);
    assert_eq!(add().num_args(), 2);
}

#[test]
fn frame_new_is_root() {
    let f = Frame::new();
    assert!(matches!(f.token, Token::Root));
    assert!(f.args.is_empty());
}

#[test]
fn build_addition_tree() {
    let tokens = vec![add(), num(1), num(2)];
    let f = build_tree(&tokens).unwrap();
    assert!(matches!(f.token, Token::Binary { value: BinaryOperator::IntegerAddition }));
    assert_eq!(f.args.len(), 2);
    assert!(matches!(f.args[0].token, Token::Integer { value: 1 }));
    assert!(f.args[0].args.is_empty());
    assert!(matches!(f.args[1].token, Token::Integer { value: 2 }));
    assert!(f.args[1].args.is_empty());
}

#[test]
fn build_nested_tree_cascades() {
    let tokens = vec![add(), Token::Unary { value: UnaryOperator::IntegerNegation }, num(1), num(2)];
    let f = build_tree(&tokens).unwrap();
    assert!(matches!(f.token, Token::Binary { .. }));
    assert_eq!(f.args.len(), 2);
    assert!(matches!(f.args[0].token, Token::Unary { .. }));
    assert_eq!(f.args[0].args.len(), 1);
    assert!(matches!(f.args[0].args[0].token, Token::Integer { value: 1 }));
    assert!(matches!(f.args[1].token, Token::Integer { value: 2 }));
}

#[test]
fn build_single_leaf() {
    let tokens = vec![num(42)];
    let f = build_tree(&tokens).unwrap();
    assert!(matches!(f.token, Token::Integer { value: 42 }));
    assert!(f.args.is_empty());
}

#[test]
fn missing_operand_is_an_error() {
    let tokens = vec![add(), num(1)];
    assert!(matches!(build_tree(&tokens).unwrap_err(), TreeError::Incomplete));
}

#[test]
fn empty_stream_is_an_error() {
    let tokens: Vec<Token> = Vec::new();
    assert!(matches!(build_tree(&tokens).unwrap_err(), TreeError::Incomplete));
}

#[test]
fn second_top_level_expression_is_an_error() {
    let tokens = vec![num(1), num(2)];
    assert!(matches!(
        build_tree(&tokens).unwrap_err(),
        TreeError::TrailingInput { position: 1 }
    ));
}

#[test]
fn indent_is_four_spaces_per_level() {
    assert_eq!(indent(0), "");
    assert_eq!(indent(1), "    ");
    assert_eq!(indent(3), "            ");
}

#[test]
fn render_addition_tree() {
    let tokens = vec![add(), num(1), num(2)];
    let f = build_tree(&tokens).unwrap();
    assert_eq!(render_frame(&f, 0), "IntegerAddition (\n    1\n    2\n)\n");
}

#[test]
fn render_is_idempotent() {
    let tokens = vec![add(), Token::Lambda { value: 5 }, Token::Variable { value: 5 }, num(2)];
    let f = build_tree(&tokens).unwrap();
    let first = render_frame(&f, 0);
    let second = render_frame(&f, 0);
    assert_eq!(first, second);
    assert_eq!(first.as_bytes(), second.as_bytes());
}

#[test]
fn render_leaf_labels() {
    let t = build_tree(&vec![Token::Text { value: String::from("hi") }]).unwrap();
    assert_eq!(render_frame(&t, 0), "\"hi\"\n");
    let b = build_tree(&vec![Token::Boolean { value: false }]).unwrap();
    assert_eq!(render_frame(&b, 0), "false\n");
    let v = build_tree(&vec![Token::Variable { value: 12 }]).unwrap();
    assert_eq!(render_frame(&v, 0), "v12\n");
}

#[test]
fn render_at_deeper_level_indents() {
    let f = build_tree(&vec![num(7)]).unwrap();
    assert_eq!(render_frame(&f, 2), "        7\n");
}

#[test]
fn render_tokens_matches_tree_layout() {
    let tokens = vec![add(), num(1), num(2)];
    assert_eq!(render_tokens(&tokens), "IntegerAddition (\n    1\n    2\n)\n");
}

#[test]
fn render_tokens_binder() {
    let tokens = vec![Token::Lambda { value: 5 }, num(1)];
    assert_eq!(render_tokens(&tokens), "v5 (\n    1\n)\n");
}

#[test]
fn token_labels() {
    assert_eq!(Token::Root.label(), "Root");
    assert_eq!(num(1337).label(), "1337");
    assert_eq!(Token::Text { value: String::from("hi") }.label(), "\"hi\"");
    assert_eq!(Token::Lambda { value: 3 }.label(), "v3");
    assert_eq!(
        Token::Unary { value: UnaryOperator::IntegerNegation }.label(),
        "IntegerNegation"
    );
    assert_eq!(
        Token::Binary { value: BinaryOperator::Invalid { value: String::from("BX") } }.label(),
        "InvalidBinaryOperator \"BX\""
    );
}
