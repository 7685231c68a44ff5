//! Tokens of the wire protocol, and the encoder that translates between
//! ordinary text and the transport alphabet and decodes byte streams into
//! typed tokens.
//!
//! Integer, binder and variable magnitudes ride in a 64-bit word; a digit
//! string that would exceed it is rejected outright (`IntegerOverflow`),
//! never silently wrapped.  Out-of-range bytes and empty token slices are
//! likewise hard failures, while unrecognized tags and operator codes
//! degrade to `Other` and `Invalid` carriers.

use vstd::prelude::*;

use crate::alphabet::alpha_code;
use crate::alphabet::alphabet;
use crate::alphabet::char_for_byte;
use crate::alphabet::in_alphabet;
use crate::alphabet::alpha_index;
use crate::alphabet::lemma_alpha_index;
use crate::alphabet::lemma_alphabet_bijective;
use crate::alphabet::spec_bytes_to_text;
use crate::alphabet::spec_encode;
use crate::alphabet::text_encodable;
use crate::alphabet::transport_byte_ok;
use crate::alphabet::transport_char;
use vstd::string::StringSliceAdditionalSpecFns;
use vstd::string::StringExecFns;

verus! {

/// A unary operator code of the protocol.
#[derive(Debug)]
pub enum UnaryOperator {
    IntegerNegation,
    BooleanNot,
    StringToInt,
    IntToString,
    Invalid { value: String },
}

/// A binary operator code of the protocol.
#[derive(Debug)]
pub enum BinaryOperator {
    IntegerAddition,
    IntegerSubtraction,
    IntegerMultiplication,
    IntegerDivision,
    IntegerModulo,
    IntegerLessThan,
    IntegerGreaterThan,
    Equality,
    StringConcatenation,
    StringTake,
    StringDrop,
    Apply,
    Invalid { value: String },
}

/// One atomic token of the wire protocol.  `Root` is the synthetic anchor of
/// a token tree; `Other` carries the raw text of an unrecognized tag.
#[derive(Debug)]
#[allow(inconsistent_fields)]
pub enum Token {
    Root,
    Boolean { value: bool },
    Integer { value: u64 },
    Text { value: String },
    Unary { value: UnaryOperator },
    Binary { value: BinaryOperator },
    Lambda { value: u64 },
    Variable { value: u64 },
    Other { value: String },
}

/// Mathematical image of a `UnaryOperator`.
pub enum UnaryOperatorView {
    IntegerNegation,
    BooleanNot,
    StringToInt,
    IntToString,
    Invalid { value: Seq<char> },
}

/// Mathematical image of a `BinaryOperator`.
pub enum BinaryOperatorView {
    IntegerAddition,
    IntegerSubtraction,
    IntegerMultiplication,
    IntegerDivision,
    IntegerModulo,
    IntegerLessThan,
    IntegerGreaterThan,
    Equality,
    StringConcatenation,
    StringTake,
    StringDrop,
    Apply,
    Invalid { value: Seq<char> },
}

/// Mathematical image of a `Token`: integers unbounded, text as character
/// sequences.
#[allow(inconsistent_fields)]
pub enum TokenView {
    Root,
    Boolean { value: bool },
    Integer { value: int },
    Text { value: Seq<char> },
    Unary { value: UnaryOperatorView },
    Binary { value: BinaryOperatorView },
    Lambda { value: int },
    Variable { value: int },
    Other { value: Seq<char> },
}

impl View for UnaryOperator {
    type V = UnaryOperatorView;

    open spec fn view(&self) -> UnaryOperatorView {
        match self {
            UnaryOperator::IntegerNegation => UnaryOperatorView::IntegerNegation,
            UnaryOperator::BooleanNot => UnaryOperatorView::BooleanNot,
            UnaryOperator::StringToInt => UnaryOperatorView::StringToInt,
            UnaryOperator::IntToString => UnaryOperatorView::IntToString,
            UnaryOperator::Invalid { value } => UnaryOperatorView::Invalid { value: value@ },
        }
    }
}

impl View for BinaryOperator {
    type V = BinaryOperatorView;

    open spec fn view(&self) -> BinaryOperatorView {
        match self {
            BinaryOperator::IntegerAddition => BinaryOperatorView::IntegerAddition,
            BinaryOperator::IntegerSubtraction => BinaryOperatorView::IntegerSubtraction,
            BinaryOperator::IntegerMultiplication => BinaryOperatorView::IntegerMultiplication,
            BinaryOperator::IntegerDivision => BinaryOperatorView::IntegerDivision,
            BinaryOperator::IntegerModulo => BinaryOperatorView::IntegerModulo,
            BinaryOperator::IntegerLessThan => BinaryOperatorView::IntegerLessThan,
            BinaryOperator::IntegerGreaterThan => BinaryOperatorView::IntegerGreaterThan,
            BinaryOperator::Equality => BinaryOperatorView::Equality,
            BinaryOperator::StringConcatenation => BinaryOperatorView::StringConcatenation,
            BinaryOperator::StringTake => BinaryOperatorView::StringTake,
            BinaryOperator::StringDrop => BinaryOperatorView::StringDrop,
            BinaryOperator::Apply => BinaryOperatorView::Apply,
            BinaryOperator::Invalid { value } => BinaryOperatorView::Invalid { value: value@ },
        }
    }
}

impl View for Token {
    type V = TokenView;

    open spec fn view(&self) -> TokenView {
        match self {
            Token::Root => TokenView::Root,
            Token::Boolean { value } => TokenView::Boolean { value: *value },
            Token::Integer { value } => TokenView::Integer { value: *value as int },
            Token::Text { value } => TokenView::Text { value: value@ },
            Token::Unary { value } => TokenView::Unary { value: value@ },
            Token::Binary { value } => TokenView::Binary { value: value@ },
            Token::Lambda { value } => TokenView::Lambda { value: *value as int },
            Token::Variable { value } => TokenView::Variable { value: *value as int },
            Token::Other { value } => TokenView::Other { value: value@ },
        }
    }
}

impl Clone for UnaryOperator {
    fn clone(&self) -> (r: UnaryOperator)
        ensures
            r == *self,
    {
        match self {
            UnaryOperator::IntegerNegation => UnaryOperator::IntegerNegation,
            UnaryOperator::BooleanNot => UnaryOperator::BooleanNot,
            UnaryOperator::StringToInt => UnaryOperator::StringToInt,
            UnaryOperator::IntToString => UnaryOperator::IntToString,
            UnaryOperator::Invalid { value } => UnaryOperator::Invalid { value: value.clone() },
        }
    }
}

impl Clone for BinaryOperator {
    fn clone(&self) -> (r: BinaryOperator)
        ensures
            r == *self,
    {
        match self {
            BinaryOperator::IntegerAddition => BinaryOperator::IntegerAddition,
            BinaryOperator::IntegerSubtraction => BinaryOperator::IntegerSubtraction,
            BinaryOperator::IntegerMultiplication => BinaryOperator::IntegerMultiplication,
            BinaryOperator::IntegerDivision => BinaryOperator::IntegerDivision,
            BinaryOperator::IntegerModulo => BinaryOperator::IntegerModulo,
            BinaryOperator::IntegerLessThan => BinaryOperator::IntegerLessThan,
            BinaryOperator::IntegerGreaterThan => BinaryOperator::IntegerGreaterThan,
            BinaryOperator::Equality => BinaryOperator::Equality,
            BinaryOperator::StringConcatenation => BinaryOperator::StringConcatenation,
            BinaryOperator::StringTake => BinaryOperator::StringTake,
            BinaryOperator::StringDrop => BinaryOperator::StringDrop,
            BinaryOperator::Apply => BinaryOperator::Apply,
            BinaryOperator::Invalid { value } => BinaryOperator::Invalid { value: value.clone() },
        }
    }
}

impl Clone for Token {
    fn clone(&self) -> (r: Token)
        ensures
            r == *self,
    {
        match self {
            Token::Root => Token::Root,
            Token::Boolean { value } => Token::Boolean { value: *value },
            Token::Integer { value } => Token::Integer { value: *value },
            Token::Text { value } => Token::Text { value: value.clone() },
            Token::Unary { value } => Token::Unary { value: value.clone() },
            Token::Binary { value } => Token::Binary { value: value.clone() },
            Token::Lambda { value } => Token::Lambda { value: *value },
            Token::Variable { value } => Token::Variable { value: *value },
            Token::Other { value } => Token::Other { value: value.clone() },
        }
    }
}

/// The number of operand tokens a token of this shape consumes from the
/// stream: 1 for a unary operator or a binder, 2 for a binary operator,
/// 0 for every leaf.
pub open spec fn arity(t: TokenView) -> nat {
    match t {
        TokenView::Unary { .. } => 1,
        TokenView::Binary { .. } => 2,
        TokenView::Lambda { .. } => 1,
        _ => 0,
    }
}

impl Token {
    /// The token's arity: how many of the immediately following tokens are
    /// its operands.
    pub fn num_args(&self) -> (n: usize)
        ensures
            n == arity(self@),
    {
        match self {
            Token::Unary { .. } => 1,
            Token::Binary { .. } => 2,
            Token::Lambda { .. } => 1,
            _ => 0,
        }
    }
}

/// Failure of encoding ordinary text into the transport alphabet.
#[derive(Debug)]
pub enum CodecError {
    /// The character at this position of the input is not in the alphabet
    /// table, so no transport byte stands for it.
    UnsupportedChar { position: usize },
}

/// Translates between ordinary text and the transport alphabet, through a
/// pair of fixed lookup tables built once.
pub struct Encoder {
    /// Character code (0..128) to transport byte; 0 marks a character with no
    /// table entry.
    ascii: Vec<u8>,
    /// Transport byte minus 33 to alphabet character.
    bscii: Vec<char>,
}

impl Encoder {
    /// The two tables mirror the alphabet table exactly.
    pub closed spec fn well_formed(&self) -> bool {
        &&& self.bscii@ == alphabet()
        &&& self.ascii@.len() == 128
        &&& forall|i: int|
            0 <= i < 94 ==> 0 <= #[trigger] alpha_code(i) < 128 && self.ascii@[alpha_code(i)]
                == 33 + i
        &&& forall|c: int|
            0 <= c < 128 && #[trigger] self.ascii@[c] != 0 ==> transport_byte_ok(
                self.ascii@[c] as int,
            ) && alphabet()[self.ascii@[c] - 33] == ((c as u8) as char)
    }
}

/// The character code of alphabet entry `i`, computed.
fn position_code(i: usize) -> (b: u8)
    requires
        i < 94,
    ensures
        b as int == alpha_code(i as int),
{
    let b: u8 = if i < 26 {
        97 + (i as u8)
    } else if i < 52 {
        39 + (i as u8)
    } else if i < 62 {
        (i as u8) - 4
    } else if i < 77 {
        (i as u8) - 29
    } else if i < 84 {
        (i as u8) - 19
    } else if i < 90 {
        (i as u8) + 7
    } else if i == 90 {
        124
    } else if i == 91 {
        126
    } else if i == 92 {
        32
    } else {
        10
    };
    b
}

impl Default for Encoder {
    fn default() -> (e: Encoder)
        ensures
            e.well_formed(),
    {
        let mut bscii: Vec<char> = Vec::new();
        for i in 0..94usize
            invariant
                bscii@.len() == i,
                forall|j: int| 0 <= j < i ==> bscii@[j] == alphabet()[j],
        {
            let b = position_code(i);
            proof {
                lemma_alphabet_bijective();
                assert(alphabet()[i as int] == (alpha_code(i as int) as u8) as char);
            }
            bscii.push(b as char);
        }
        assert(bscii@ =~= alphabet());

        let mut ascii: Vec<u8> = Vec::new();
        for i in 0..128usize
            invariant
                ascii@.len() == i,
                forall|j: int| 0 <= j < i ==> ascii@[j] == 0,
        {
            ascii.push(0);
        }

        proof {
            lemma_alphabet_bijective();
        }
        for i in 0..94usize
            invariant
                bscii@ == alphabet(),
                ascii@.len() == 128,
                forall|j: int|
                    0 <= j < i ==> 0 <= #[trigger] alpha_code(j) < 128 && ascii@[alpha_code(j)]
                        == 33 + j,
                forall|c: int|
                    0 <= c < 128 && #[trigger] ascii@[c] != 0 ==> transport_byte_ok(
                        ascii@[c] as int,
                    ) && alphabet()[ascii@[c] - 33] == ((c as u8) as char),
                forall|j: int| 0 <= j < 94 ==> #[trigger] (alphabet()[j] as int) == alpha_code(j),
        {
            let c = bscii[i];
            proof {
                assert((c as int) == alpha_code(i as int));
                assert(10 <= alpha_code(i as int) <= 126);
            }
            let code = (c as u32) as usize;
            ascii.set(code, 33 + (i as u8));
        }
        Encoder { ascii, bscii }
    }
}

impl Encoder {
    /// A fresh encoder over the fixed alphabet table.
    pub fn new() -> (e: Encoder)
        ensures
            e.well_formed(),
    {
        Default::default()
    }

    /// Translates ordinary text into the transport alphabet, character for
    /// character.  Fails on the first character with no table entry.
    pub fn encode_str(&self, encoded: &str) -> (r: Result<String, CodecError>)
        requires
            self.well_formed(),
        ensures
            match r {
                Ok(s) => text_encodable(encoded@) && s@ == spec_encode(encoded@),
                Err(CodecError::UnsupportedChar { position }) => {
                    &&& position < encoded@.len()
                    &&& !in_alphabet(encoded@[position as int])
                    &&& text_encodable(encoded@.take(position as int))
                },
            },
    {
        let len = encoded.unicode_len();
        let mut decoded = String::new();
        for i in 0..len
            invariant
                self.well_formed(),
                len == encoded@.len(),
                text_encodable(encoded@.take(i as int)),
                decoded@ == spec_encode(encoded@.take(i as int)),
        {
            let c = encoded.get_char(i);
            let code = c as u32;
            let b: u8 = if code < 128 {
                self.ascii[code as usize]
            } else {
                0
            };
            if b == 0 {
                proof {
                    if in_alphabet(c) {
                        lemma_alpha_index(c);
                        lemma_alphabet_bijective();
                        let p = alpha_index(c);
                        assert((c as int) == alpha_code(p));
                        assert(self.ascii@[alpha_code(p)] == 33 + p);
                    }
                }
                return Err(CodecError::UnsupportedChar { position: i });
            }
            proof {
                assert(self.ascii@[code as int] == b);
                assert(alphabet()[b - 33] == ((code as u8) as char));
                assert(((code as u8) as char) == c);
                assert(in_alphabet(c));
                lemma_alpha_index(c);
                lemma_alphabet_bijective();
                assert(alphabet()[alpha_index(c)] == alphabet()[b - 33]);
                assert(alpha_index(c) == b - 33);
                assert(transport_char(c) == ((b as int) as u8) as char);
            }
            push_char(&mut decoded, b as char);
            proof {
                assert(encoded@.take(i + 1) =~= encoded@.take(i as int).push(c));
                assert(spec_encode(encoded@.take(i + 1)) =~= spec_encode(encoded@.take(i as int)).push(
                    transport_char(c),
                ));
            }
        }
        proof {
            assert(encoded@.take(len as int) =~= encoded@);
        }
        Ok(decoded)
    }
}

/// Failure of decoding a token from its transport bytes.
#[derive(Debug)]
pub enum DecodeError {
    /// The token slice is empty (two adjacent separators, or an empty
    /// stream).
    EmptyToken,
    /// A digit byte of an integer, binder or variable token lies outside the
    /// transport range; the position is the byte's index within the token.
    BadDigit { position: usize },
    /// The base-94 magnitude of an integer, binder or variable token exceeds
    /// the machine word that carries it.
    IntegerOverflow,
    /// A payload byte of a text token lies outside the transport range; the
    /// position is the byte's index within the token.
    BadTextByte { position: usize },
    /// The raw bytes of an unrecognized token are not valid text.
    NotText,
}

/// The least index at or after `i` whose byte lies outside the transport
/// range, or `bs.len()` when every such byte is in range.
pub open spec fn first_non_transport(bs: Seq<u8>, i: int) -> int
    decreases bs.len() - i,
{
    if i < 0 || i >= bs.len() {
        bs.len() as int
    } else if !transport_byte_ok(bs[i] as int) {
        i
    } else {
        first_non_transport(bs, i + 1)
    }
}

/// Whether every byte of `bs` lies in the transport range.
pub open spec fn digits_ok(bs: Seq<u8>) -> bool {
    forall|i: int| 0 <= i < bs.len() ==> transport_byte_ok(#[trigger] bs[i] as int)
}

/// The value of a base-94 digit string, most significant digit first, each
/// byte contributing its value minus 33, combined by Horner's method.
pub open spec fn base94(bs: Seq<u8>) -> int
    decreases bs.len(),
{
    if bs.len() == 0 {
        0
    } else {
        base94(bs.drop_last()) * 94 + (bs.last() - 33)
    }
}

proof fn lemma_first_non_transport_from(bs: Seq<u8>, i: int, k: int)
    requires
        0 <= i <= k <= bs.len(),
        forall|j: int| i <= j < k ==> transport_byte_ok(#[trigger] bs[j] as int),
        k < bs.len() ==> !transport_byte_ok(bs[k] as int),
    ensures
        first_non_transport(bs, i) == k,
    decreases k - i,
{
    if i < k {
        lemma_first_non_transport_from(bs, i + 1, k);
    }
}

/// The least out-of-range index, characterized without the recursion.
proof fn lemma_first_non_transport(bs: Seq<u8>, k: int)
    requires
        0 <= k <= bs.len(),
        forall|j: int| 0 <= j < k ==> transport_byte_ok(#[trigger] bs[j] as int),
        k < bs.len() ==> !transport_byte_ok(bs[k] as int),
    ensures
        first_non_transport(bs, 0) == k,
{
    lemma_first_non_transport_from(bs, 0, k);
}

proof fn lemma_base94_nonneg(bs: Seq<u8>)
    requires
        digits_ok(bs),
    ensures
        base94(bs) >= 0,
    decreases bs.len(),
{
    if bs.len() > 0 {
        assert(digits_ok(bs.drop_last()));
        lemma_base94_nonneg(bs.drop_last());
    }
}

/// A digit string's value only grows as digits are appended.
proof fn lemma_base94_prefix(bs: Seq<u8>, k: int)
    requires
        digits_ok(bs),
        0 <= k <= bs.len(),
    ensures
        base94(bs.take(k)) <= base94(bs),
    decreases bs.len() - k,
{
    if k < bs.len() {
        assert(bs.take(k + 1).drop_last() =~= bs.take(k));
        assert(bs.take(k + 1).last() == bs[k]);
        assert(digits_ok(bs.take(k)));
        lemma_base94_nonneg(bs.take(k));
        assert(base94(bs.take(k + 1)) == base94(bs.take(k)) * 94 + (bs[k] - 33));
        lemma_base94_prefix(bs, k + 1);
    } else {
        assert(bs.take(k) =~= bs);
    }
}

/// The base-94 digit bytes of a non-negative integer, most significant
/// digit first, each digit carried as its value plus 33.
pub open spec fn spec_encode_integer(n: int) -> Seq<u8>
    decreases n,
{
    if n < 94 {
        seq![(n + 33) as u8]
    } else {
        spec_encode_integer(n / 94).push(((n % 94) + 33) as u8)
    }
}

/// Integer round trip: encoding a non-negative integer as base-94 digit
/// bytes and decoding them by Horner's method reproduces it exactly.
pub proof fn lemma_integer_round_trip(n: int)
    requires
        0 <= n,
    ensures
        digits_ok(spec_encode_integer(n)),
        base94(spec_encode_integer(n)) == n,
    decreases n,
{
    if n < 94 {
        let s = spec_encode_integer(n);
        assert(s.drop_last() =~= Seq::<u8>::empty());
        assert(base94(Seq::<u8>::empty()) == 0);
        assert(s.last() == (n + 33) as u8);
        assert((s.last() as int) == n + 33);
        assert(base94(s) == n);
    } else {
        lemma_integer_round_trip(n / 94);
        let s = spec_encode_integer(n);
        assert(s.drop_last() =~= spec_encode_integer(n / 94));
        assert(s.last() == ((n % 94) + 33) as u8);
        assert(base94(s) == (n / 94) * 94 + (n % 94));
    }
}

fn push_base94(n: u64, out: &mut Vec<u8>)
    ensures
        final(out)@ == old(out)@ + spec_encode_integer(n as int),
    decreases n,
{
    let ghost base = out@;
    if n >= 94 {
        push_base94(n / 94, out);
    }
    out.push(((n % 94) as u8) + 33);
    proof {
        if n < 94 {
            assert(out@ =~= base + spec_encode_integer(n as int));
        } else {
            assert((n as int) / 94 == (n / 94) as int);
            assert(out@ =~= base + spec_encode_integer(n as int));
        }
    }
}

/// The transport bytes of an integer token's magnitude: base-94 digits,
/// most significant first, offset by 33.
pub fn encode_integer(n: u64) -> (r: Vec<u8>)
    ensures
        r@ == spec_encode_integer(n as int),
{
    let mut out: Vec<u8> = Vec::new();
    push_base94(n, &mut out);
    proof {
        assert(Seq::<u8>::empty() + spec_encode_integer(n as int) =~= spec_encode_integer(
            n as int,
        ));
    }
    out
}

/// The full decoding rule for one token slice.  The first byte selects the
/// rule; the table-driven cases degrade to `Invalid` or `Other` carriers on
/// unrecognized codes, and fail only on bytes that no rule can read.
pub open spec fn spec_decode_token(bs: Seq<u8>) -> Result<TokenView, DecodeError> {
    if bs.len() == 0 {
        Err(DecodeError::EmptyToken)
    } else if bs[0] == ('T' as u8) {
        Ok(TokenView::Boolean { value: true })
    } else if bs[0] == ('F' as u8) {
        Ok(TokenView::Boolean { value: false })
    } else if bs[0] == ('I' as u8) || bs[0] == ('L' as u8) || bs[0] == ('v' as u8) {
        let payload = bs.drop_first();
        if first_non_transport(payload, 0) < payload.len() {
            Err(DecodeError::BadDigit { position: (1 + first_non_transport(payload, 0)) as usize })
        } else if base94(payload) > u64::MAX {
            Err(DecodeError::IntegerOverflow)
        } else if bs[0] == ('I' as u8) {
            Ok(TokenView::Integer { value: base94(payload) })
        } else if bs[0] == ('L' as u8) {
            Ok(TokenView::Lambda { value: base94(payload) })
        } else {
            Ok(TokenView::Variable { value: base94(payload) })
        }
    } else if bs[0] == ('S' as u8) {
        let payload = bs.drop_first();
        if first_non_transport(payload, 0) < payload.len() {
            Err(
                DecodeError::BadTextByte {
                    position: (1 + first_non_transport(payload, 0)) as usize,
                },
            )
        } else {
            Ok(TokenView::Text { value: spec_bytes_to_text(payload) })
        }
    } else if bs[0] == ('U' as u8) {
        if bs.len() >= 2 && bs[1] == ('-' as u8) {
            Ok(TokenView::Unary { value: UnaryOperatorView::IntegerNegation })
        } else if bs.len() >= 2 && bs[1] == ('!' as u8) {
            Ok(TokenView::Unary { value: UnaryOperatorView::BooleanNot })
        } else if bs.len() >= 2 && bs[1] == ('#' as u8) {
            Ok(TokenView::Unary { value: UnaryOperatorView::StringToInt })
        } else if bs.len() >= 2 && bs[1] == ('$' as u8) {
            Ok(TokenView::Unary { value: UnaryOperatorView::IntToString })
        } else if vstd::utf8::valid_utf8(bs) {
            Ok(
                TokenView::Unary {
                    value: UnaryOperatorView::Invalid { value: vstd::utf8::decode_utf8(bs) },
                },
            )
        } else {
            Err(DecodeError::NotText)
        }
    } else if bs[0] == ('B' as u8) {
        if bs.len() >= 2 && bs[1] == ('+' as u8) {
            Ok(TokenView::Binary { value: BinaryOperatorView::IntegerAddition })
        } else if bs.len() >= 2 && bs[1] == ('-' as u8) {
            Ok(TokenView::Binary { value: BinaryOperatorView::IntegerSubtraction })
        } else if bs.len() >= 2 && bs[1] == ('*' as u8) {
            Ok(TokenView::Binary { value: BinaryOperatorView::IntegerMultiplication })
        } else if bs.len() >= 2 && bs[1] == ('/' as u8) {
            Ok(TokenView::Binary { value: BinaryOperatorView::IntegerDivision })
        } else if bs.len() >= 2 && bs[1] == ('%' as u8) {
            Ok(TokenView::Binary { value: BinaryOperatorView::IntegerModulo })
        } else if bs.len() >= 2 && bs[1] == ('<' as u8) {
            Ok(TokenView::Binary { value: BinaryOperatorView::IntegerLessThan })
        } else if bs.len() >= 2 && bs[1] == ('>' as u8) {
            Ok(TokenView::Binary { value: BinaryOperatorView::IntegerGreaterThan })
        } else if bs.len() >= 2 && bs[1] == ('=' as u8) {
            Ok(TokenView::Binary { value: BinaryOperatorView::Equality })
        } else if bs.len() >= 2 && bs[1] == ('.' as u8) {
            Ok(TokenView::Binary { value: BinaryOperatorView::StringConcatenation })
        } else if bs.len() >= 2 && bs[1] == ('T' as u8) {
            Ok(TokenView::Binary { value: BinaryOperatorView::StringTake })
        } else if bs.len() >= 2 && bs[1] == ('D' as u8) {
            Ok(TokenView::Binary { value: BinaryOperatorView::StringDrop })
        } else if bs.len() >= 2 && bs[1] == ('$' as u8) {
            Ok(TokenView::Binary { value: BinaryOperatorView::Apply })
        } else if vstd::utf8::valid_utf8(bs) {
            Ok(
                TokenView::Binary {
                    value: BinaryOperatorView::Invalid { value: vstd::utf8::decode_utf8(bs) },
                },
            )
        } else {
            Err(DecodeError::NotText)
        }
    } else if vstd::utf8::valid_utf8(bs) {
        Ok(TokenView::Other { value: vstd::utf8::decode_utf8(bs) })
    } else {
        Err(DecodeError::NotText)
    }
}

/// The image of a decode result under the token view, for stating contracts.
pub open spec fn token_res_view(r: Result<Token, DecodeError>) -> Result<TokenView, DecodeError> {
    match r {
        Ok(t) => Ok(t@),
        Err(e) => Err(e),
    }
}

/// Relies on `core::str::from_utf8`: it succeeds exactly on valid UTF-8
/// input, and the resulting `str` has the input as its bytes.
#[verifier::external_body]
fn bytes_to_str(v: &[u8]) -> (r: Option<&str>)
    ensures
        match r {
            Some(s) => vstd::utf8::valid_utf8(v@) && s.spec_bytes() == v@,
            None => !vstd::utf8::valid_utf8(v@),
        },
{
    core::str::from_utf8(v).ok()
}

/// The raw bytes of a token reinterpreted as text, for the `Other` and
/// invalid-operator carriers; fails exactly when they are not valid text.
fn raw_text(encoded: &[u8]) -> (r: Result<String, DecodeError>)
    ensures
        match r {
            Ok(s) => vstd::utf8::valid_utf8(encoded@) && s@ == vstd::utf8::decode_utf8(encoded@),
            Err(e) => e == DecodeError::NotText && !vstd::utf8::valid_utf8(encoded@),
        },
{
    match bytes_to_str(encoded) {
        Some(s) => {
            let owned = s.to_owned();
            proof {
                vstd::utf8::encode_utf8_decode_utf8(owned@);
            }
            Ok(owned)
        },
        None => Err(DecodeError::NotText),
    }
}

impl Encoder {
    /// Decodes one space-delimited token slice into a typed token, by the
    /// rule its first byte selects.
    #[verifier::loop_isolation(false)]
    pub fn decode_token(&self, encoded: &[u8]) -> (r: Result<Token, DecodeError>)
        requires
            self.well_formed(),
        ensures
            token_res_view(r) == spec_decode_token(encoded@),
    {
        let n = encoded.len();
        if n == 0 {
            return Err(DecodeError::EmptyToken);
        }
        let tag = encoded[0];
        if tag == ('T' as u8) {
            Ok(Token::Boolean { value: true })
        } else if tag == ('F' as u8) {
            Ok(Token::Boolean { value: false })
        } else if tag == ('I' as u8) || tag == ('L' as u8) || tag == ('v' as u8) {
            let ghost payload = encoded@.drop_first();
            for k in 1..n
                invariant
                    n == encoded@.len(),
                    payload == encoded@.drop_first(),
                    forall|j: int| 0 <= j < k - 1 ==> transport_byte_ok(#[trigger] payload[j] as int),
            {
                let b = encoded[k];
                proof {
                    assert(payload[k - 1] == encoded@[k as int]);
                }
                if b < 33 || b > 126 {
                    proof {
                        assert(!transport_byte_ok(payload[k - 1] as int));
                        lemma_first_non_transport(payload, k - 1);
                    }
                    return Err(DecodeError::BadDigit { position: k });
                }
            }
            proof {
                assert(digits_ok(payload));
                lemma_first_non_transport(payload, payload.len() as int);
            }
            let mut v: u64 = 0;
            for k in 1..n
                invariant
                    n == encoded@.len(),
                    payload == encoded@.drop_first(),
                    digits_ok(payload),
                    v as int == base94(payload.take(k - 1)),
            {
                proof {
                    assert(payload.take(k as int).drop_last() =~= payload.take(k - 1));
                    assert(payload.take(k as int).last() == payload[k - 1]);
                    assert(payload[k - 1] == encoded@[k as int]);
                    assert(transport_byte_ok(payload[k - 1] as int));
                    lemma_base94_prefix(payload, k as int);
                }
                let d = (encoded[k] - 33) as u64;
                let p = match v.checked_mul(94) {
                    Some(p) => p,
                    None => {
                        return Err(DecodeError::IntegerOverflow);
                    },
                };
                v = match p.checked_add(d) {
                    Some(q) => q,
                    None => {
                        return Err(DecodeError::IntegerOverflow);
                    },
                };
            }
            proof {
                assert(payload.take(n - 1) =~= payload);
            }
            if tag == ('I' as u8) {
                Ok(Token::Integer { value: v })
            } else if tag == ('L' as u8) {
                Ok(Token::Lambda { value: v })
            } else {
                Ok(Token::Variable { value: v })
            }
        } else if tag == ('S' as u8) {
            let ghost payload = encoded@.drop_first();
            let mut decoded = String::new();
            for k in 1..n
                invariant
                    self.well_formed(),
                    n == encoded@.len(),
                    payload == encoded@.drop_first(),
                    forall|j: int| 0 <= j < k - 1 ==> transport_byte_ok(#[trigger] payload[j] as int),
                    decoded@ == spec_bytes_to_text(payload.take(k - 1)),
            {
                let b = encoded[k];
                proof {
                    assert(payload[k - 1] == encoded@[k as int]);
                }
                if b < 33 || b > 126 {
                    proof {
                        assert(!transport_byte_ok(payload[k - 1] as int));
                        lemma_first_non_transport(payload, k - 1);
                    }
                    return Err(DecodeError::BadTextByte { position: k });
                }
                let c = self.bscii[(b - 33) as usize];
                proof {
                    assert(c == alphabet()[b - 33]);
                    assert(c == char_for_byte(payload[k - 1] as int));
                    assert(payload.take(k as int) =~= payload.take(k - 1).push(payload[k - 1]));
                    assert(spec_bytes_to_text(payload.take(k as int)) =~= spec_bytes_to_text(
                        payload.take(k - 1),
                    ).push(char_for_byte(payload[k - 1] as int)));
                }
                push_char(&mut decoded, c);
            }
            proof {
                lemma_first_non_transport(payload, payload.len() as int);
                assert(payload.take(n - 1) =~= payload);
            }
            Ok(Token::Text { value: decoded })
        } else if tag == ('U' as u8) {
            let op = if n >= 2 {
                encoded[1]
            } else {
                0
            };
            if n >= 2 && op == ('-' as u8) {
                Ok(Token::Unary { value: UnaryOperator::IntegerNegation })
            } else if n >= 2 && op == ('!' as u8) {
                Ok(Token::Unary { value: UnaryOperator::BooleanNot })
            } else if n >= 2 && op == ('#' as u8) {
                Ok(Token::Unary { value: UnaryOperator::StringToInt })
            } else if n >= 2 && op == ('$' as u8) {
                Ok(Token::Unary { value: UnaryOperator::IntToString })
            } else {
                match raw_text(encoded) {
                    Ok(s) => Ok(Token::Unary { value: UnaryOperator::Invalid { value: s } }),
                    Err(e) => Err(e),
                }
            }
        } else if tag == ('B' as u8) {
            let op = if n >= 2 {
                encoded[1]
            } else {
                0
            };
            if n >= 2 && op == ('+' as u8) {
                Ok(Token::Binary { value: BinaryOperator::IntegerAddition })
            } else if n >= 2 && op == ('-' as u8) {
                Ok(Token::Binary { value: BinaryOperator::IntegerSubtraction })
            } else if n >= 2 && op == ('*' as u8) {
                Ok(Token::Binary { value: BinaryOperator::IntegerMultiplication })
            } else if n >= 2 && op == ('/' as u8) {
                Ok(Token::Binary { value: BinaryOperator::IntegerDivision })
            } else if n >= 2 && op == ('%' as u8) {
                Ok(Token::Binary { value: BinaryOperator::IntegerModulo })
            } else if n >= 2 && op == ('<' as u8) {
                Ok(Token::Binary { value: BinaryOperator::IntegerLessThan })
            } else if n >= 2 && op == ('>' as u8) {
                Ok(Token::Binary { value: BinaryOperator::IntegerGreaterThan })
            } else if n >= 2 && op == ('=' as u8) {
                Ok(Token::Binary { value: BinaryOperator::Equality })
            } else if n >= 2 && op == ('.' as u8) {
                Ok(Token::Binary { value: BinaryOperator::StringConcatenation })
            } else if n >= 2 && op == ('T' as u8) {
                Ok(Token::Binary { value: BinaryOperator::StringTake })
            } else if n >= 2 && op == ('D' as u8) {
                Ok(Token::Binary { value: BinaryOperator::StringDrop })
            } else if n >= 2 && op == ('$' as u8) {
                Ok(Token::Binary { value: BinaryOperator::Apply })
            } else {
                match raw_text(encoded) {
                    Ok(s) => Ok(Token::Binary { value: BinaryOperator::Invalid { value: s } }),
                    Err(e) => Err(e),
                }
            }
        } else {
            match raw_text(encoded) {
                Ok(s) => Ok(Token::Other { value: s }),
                Err(e) => Err(e),
            }
        }
    }
}

/// Relies on `String::push`: it appends exactly the one given character.
#[verifier::external_body]
pub(crate) fn push_char(s: &mut String, c: char)
    ensures
        final(s)@ == old(s)@.push(c),
{
    s.push(c);
}

#[verifier::external_type_specification]
#[verifier::external_body]
pub struct ExBytes(bytes::Bytes);

/// The byte sequence a `bytes::Bytes` buffer holds.
pub uninterp spec fn bytes_seq(b: bytes::Bytes) -> Seq<u8>;

/// Relies on `<Bytes as AsRef<[u8]>>::as_ref`: a `Bytes` buffer hands out a
/// slice of exactly the bytes it holds.
#[verifier::external_body]
fn bytes_as_slice(b: &bytes::Bytes) -> (r: &[u8])
    ensures
        r@ == bytes_seq(*b),
{
    b.as_ref()
}

/// Failure of decoding one token of a space-delimited stream: which token,
/// and how its bytes were wrong.
#[derive(Debug)]
pub struct StreamError {
    /// Index of the failing token in stream order.
    pub index: usize,
    /// How that token's bytes failed to decode.
    pub cause: DecodeError,
}

/// The buffer split on the space separator, order preserved: splitting the
/// empty buffer gives one empty slice, and each separator ends a slice.
pub open spec fn split_tokens(bs: Seq<u8>) -> Seq<Seq<u8>>
    decreases bs.len(),
{
    if bs.len() == 0 {
        seq![Seq::<u8>::empty()]
    } else if bs[0] == 32 {
        seq![Seq::<u8>::empty()] + split_tokens(bs.drop_first())
    } else {
        let rest = split_tokens(bs.drop_first());
        seq![seq![bs[0]] + rest[0]] + rest.drop_first()
    }
}

/// The decoding of a sequence of token slices, in order: the sequence of
/// their tokens, or the index of the first failing slice with its cause.
pub open spec fn spec_decode_parts(parts: Seq<Seq<u8>>) -> Result<
    Seq<TokenView>,
    (int, DecodeError),
>
    decreases parts.len(),
{
    if parts.len() == 0 {
        Ok(Seq::empty())
    } else {
        match spec_decode_token(parts[0]) {
            Err(e) => Err((0, e)),
            Ok(t) => match spec_decode_parts(parts.drop_first()) {
                Ok(ts) => Ok(seq![t] + ts),
                Err((i, e)) => Err((i + 1, e)),
            },
        }
    }
}

/// The views of a token sequence, element for element.
pub open spec fn token_views(ts: Seq<Token>) -> Seq<TokenView> {
    ts.map_values(|t: Token| t@)
}

/// A buffer without separators is one token slice.
proof fn lemma_split_whole(bs: Seq<u8>)
    requires
        forall|j: int| 0 <= j < bs.len() ==> bs[j] != 32,
    ensures
        split_tokens(bs) == seq![bs],
    decreases bs.len(),
{
    if bs.len() == 0 {
        assert(bs =~= Seq::<u8>::empty());
        assert(split_tokens(bs) =~= seq![bs]);
    } else {
        lemma_split_whole(bs.drop_first());
        let rest = split_tokens(bs.drop_first());
        assert(rest[0] == bs.drop_first());
        assert(seq![bs[0]] + rest[0] =~= bs);
        assert(rest.drop_first() =~= Seq::<Seq<u8>>::empty());
        assert(split_tokens(bs) =~= seq![bs]);
    }
}

/// Splitting at the first separator: the slice before it, then the split of
/// what follows it.
proof fn lemma_split_at_space(bs: Seq<u8>, i: int)
    requires
        0 <= i < bs.len(),
        bs[i] == 32,
        forall|j: int| 0 <= j < i ==> bs[j] != 32,
    ensures
        split_tokens(bs) == seq![bs.take(i)] + split_tokens(bs.skip(i + 1)),
    decreases i,
{
    if i == 0 {
        assert(bs.take(0) =~= Seq::<u8>::empty());
        assert(bs.skip(1) =~= bs.drop_first());
        assert(split_tokens(bs) =~= seq![bs.take(0)] + split_tokens(bs.skip(1)));
    } else {
        let tail = bs.drop_first();
        assert(tail[i - 1] == 32);
        assert(forall|j: int| 0 <= j < i - 1 ==> tail[j] != 32);
        lemma_split_at_space(tail, i - 1);
        let rest = split_tokens(tail);
        assert(rest == seq![tail.take(i - 1)] + split_tokens(tail.skip(i)));
        assert(rest[0] == tail.take(i - 1));
        assert(seq![bs[0]] + tail.take(i - 1) =~= bs.take(i));
        assert(rest.drop_first() =~= split_tokens(tail.skip(i)));
        assert(tail.skip(i) =~= bs.skip(i + 1));
        assert(split_tokens(bs) =~= seq![bs.take(i)] + split_tokens(bs.skip(i + 1)));
    }
}

impl Encoder {
    /// Splits the buffer on the space separator, preserving order, and
    /// decodes each slice in turn.  Fails on the first slice that no rule
    /// can read, naming it.
    #[verifier::loop_isolation(false)]
    #[verifier::rlimit(30)]
    pub fn decode_bytes(&self, encoded: &bytes::Bytes) -> (r: Result<Vec<Token>, StreamError>)
        requires
            self.well_formed(),
        ensures
            ({
                let parts = split_tokens(bytes_seq(*encoded));
                match r {
                    Ok(ts) => spec_decode_parts(parts) == Ok::<_, (int, DecodeError)>(
                        token_views(ts@),
                    ),
                    Err(se) => spec_decode_parts(parts) == Err::<Seq<TokenView>, _>(
                        (se.index as int, se.cause),
                    ),
                }
            }),
    {
        let buf = bytes_as_slice(encoded);
        let ghost whole = buf@;
        let n = buf.len();
        let mut tokens: Vec<Token> = Vec::new();
        let mut start: usize = 0;
        let mut k: usize = 0;
        proof {
            assert(whole.skip(0) =~= whole);
            let r0 = spec_decode_parts(split_tokens(whole));
            if r0 is Ok {
                assert(token_views(tokens@) + r0->Ok_0 =~= r0->Ok_0);
            }
        }
        while k < n
            invariant
                0 <= start <= k <= n,
                forall|j: int| start <= j < k ==> whole[j] != 32,
                tokens@.len() <= start,
                ({
                    let rem = spec_decode_parts(split_tokens(whole.skip(start as int)));
                    let full = spec_decode_parts(split_tokens(whole));
                    match rem {
                        Ok(ts) => full == Ok::<_, (int, DecodeError)>(token_views(tokens@) + ts),
                        Err((i, e)) => full == Err::<Seq<TokenView>, _>(
                            (i + tokens@.len() as int, e),
                        ),
                    }
                }),
            decreases n - k,
        {
            if buf[k] == 32 {
                let ghost seg = whole.subrange(start as int, k as int);
                let ghost remaining = whole.skip(start as int);
                proof {
                    assert(remaining[k - start] == whole[k as int]);
                    assert(forall|j: int| 0 <= j < k - start ==> remaining[j] != 32);
                    lemma_split_at_space(remaining, k - start);
                    assert(remaining.take(k - start) =~= seg);
                    assert(remaining.skip(k - start + 1) =~= whole.skip(k + 1));
                }
                let t = match self.decode_token(&buf[start..k]) {
                    Ok(t) => t,
                    Err(cause) => {
                        proof {
                            let parts = seq![seg] + split_tokens(whole.skip(k + 1));
                            assert(parts[0] == seg);
                            assert(split_tokens(whole.skip(start as int)) == parts);
                        }
                        return Err(StreamError { index: tokens.len(), cause });
                    },
                };
                proof {
                    let parts = seq![seg] + split_tokens(whole.skip(k + 1));
                    assert(parts[0] == seg);
                    assert(parts.drop_first() =~= split_tokens(whole.skip(k + 1)));
                    assert(split_tokens(whole.skip(start as int)) == parts);
                    assert(token_views(tokens@.push(t)) =~= token_views(tokens@) + seq![t@]);
                    assert(forall|ts: Seq<TokenView>|
                        token_views(tokens@) + (seq![t@] + ts) =~= (token_views(tokens@)
                            + seq![t@]) + ts);
                }
                tokens.push(t);
                start = k + 1;
            }
            k += 1;
        }
        let ghost seg = whole.subrange(start as int, n as int);
        let ghost remaining = whole.skip(start as int);
        proof {
            assert(forall|j: int| 0 <= j < remaining.len() ==> remaining[j] != 32);
            lemma_split_whole(remaining);
            assert(remaining =~= seg);
        }
        let t = match self.decode_token(&buf[start..n]) {
            Ok(t) => t,
            Err(cause) => {
                proof {
                    let parts = seq![seg];
                    assert(parts[0] == seg);
                }
                return Err(StreamError { index: tokens.len(), cause });
            },
        };
        proof {
            let parts = seq![seg];
            assert(parts[0] == seg);
            assert(parts.drop_first() =~= Seq::<Seq<u8>>::empty());
            assert(spec_decode_parts(parts.drop_first()) == Ok::<_, (int, DecodeError)>(
                Seq::<TokenView>::empty(),
            ));
            assert(token_views(tokens@.push(t)) =~= token_views(tokens@) + (seq![t@]
                + Seq::<TokenView>::empty()));
        }
        tokens.push(t);
        Ok(tokens)
    }
}

impl Encoder {
    /// The one-token wire request carrying ordinary text: the text-token
    /// tag followed by the text translated into the transport alphabet.
    pub fn encode_message(&self, msg: &str) -> (r: Result<String, CodecError>)
        requires
            self.well_formed(),
        ensures
            match r {
                Ok(s) => text_encodable(msg@) && s@ == "S"@ + spec_encode(msg@),
                Err(CodecError::UnsupportedChar { position }) => {
                    &&& position < msg@.len()
                    &&& !in_alphabet(msg@[position as int])
                    &&& text_encodable(msg@.take(position as int))
                },
            },
    {
        let encoded = match self.encode_str(msg) {
            Ok(s) => s,
            Err(e) => {
                return Err(e);
            },
        };
        let mut out = String::from_str("S");
        out.append(encoded.as_str());
        Ok(out)
    }
}

} // verus!
