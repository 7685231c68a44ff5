//! The fixed 94-symbol transport alphabet: a bijection between ordinary
//! characters and the printable transport bytes 33 through 126.

use vstd::prelude::*;

verus! {

/// Character code of entry `i` of the transport alphabet, for `0 <= i < 94`:
/// the lowercase letters, the uppercase letters, the digits, the punctuation
/// runs `!"#$%&'()*+,-./`, `:;<=>?@` and `` [\]^_` ``, then `|`, `~`, the
/// space, and a trailing newline.  Entry `i` stands for transport byte
/// `33 + i`.
pub open spec fn alpha_code(i: int) -> int {
    if i < 26 {
        97 + i
    } else if i < 52 {
        39 + i
    } else if i < 62 {
        i - 4
    } else if i < 77 {
        i - 29
    } else if i < 84 {
        i - 19
    } else if i < 90 {
        i + 7
    } else if i == 90 {
        124
    } else if i == 91 {
        126
    } else if i == 92 {
        32
    } else {
        10
    }
}

/// The alphabet table itself, as the sequence of its 94 characters:
/// ```text
/// abcdefghijklmnopqrstuvwxyzABCDEFGHIJKLMNOPQRSTUVWXYZ0123456789!"#$%&'()*+,-./:;<=>?@[\]^_`|~
/// ```
/// followed by the space and the newline, entry `i` standing for transport
/// byte `33 + i`.
pub open spec fn alphabet() -> Seq<char> {
    Seq::new(94, |i: int| (alpha_code(i) as u8) as char)
}

/// Entry codes are in range, and no character appears twice in the table.
pub proof fn lemma_alphabet_bijective()
    ensures
        forall|i: int| 0 <= i < 94 ==> #[trigger] (alphabet()[i] as int) == alpha_code(i),
        forall|i: int| 0 <= i < 94 ==> 10 <= #[trigger] (alphabet()[i] as int) <= 126,
        forall|i: int, j: int| 0 <= i < j < 94 ==> alphabet()[i] != alphabet()[j],
{
    assert forall|i: int| 0 <= i < 94 implies #[trigger] (alphabet()[i] as int) == alpha_code(i)
        && 10 <= (alphabet()[i] as int) <= 126 by {
        assert(10 <= alpha_code(i) <= 126);
        assert(alphabet()[i] == (alpha_code(i) as u8) as char);
    }
    assert forall|i: int, j: int| 0 <= i < j < 94 implies alphabet()[i] != alphabet()[j] by {
        assert(alpha_code(i) != alpha_code(j));
        assert((alphabet()[i] as int) == alpha_code(i));
        assert((alphabet()[j] as int) == alpha_code(j));
    }
}

/// Whether ordinary character `c` is in the alphabet's domain.
pub open spec fn in_alphabet(c: char) -> bool {
    exists|i: int| 0 <= i < 94 && alphabet()[i] == c
}

/// The position of `c` in the alphabet table; meaningful only when
/// `in_alphabet(c)`.
pub open spec fn alpha_index(c: char) -> int {
    choose|i: int| 0 <= i < 94 && alphabet()[i] == c
}

pub(crate) proof fn lemma_alpha_index(c: char)
    requires
        in_alphabet(c),
    ensures
        0 <= alpha_index(c) < 94,
        alphabet()[alpha_index(c)] == c,
{
}

/// The transport character standing for alphabet character `c`.
pub open spec fn transport_char(c: char) -> char {
    ((33 + alpha_index(c)) as u8) as char
}

/// Whether `b` is a transport byte value.
pub open spec fn transport_byte_ok(b: int) -> bool {
    33 <= b <= 126
}

/// The ordinary character that transport byte value `b` stands for;
/// meaningful only when `transport_byte_ok(b)`.
pub open spec fn char_for_byte(b: int) -> char {
    alphabet()[b - 33]
}

/// Whether every character of `s` lies in the alphabet's domain.
pub open spec fn text_encodable(s: Seq<char>) -> bool {
    forall|i: int| 0 <= i < s.len() ==> in_alphabet(#[trigger] s[i])
}

/// Encoding of ordinary text into transport characters, one for one.
pub open spec fn spec_encode(s: Seq<char>) -> Seq<char> {
    s.map_values(|c: char| transport_char(c))
}

/// Whether every character of `t` is a transport character.
pub open spec fn transport_text(t: Seq<char>) -> bool {
    forall|i: int| 0 <= i < t.len() ==> transport_byte_ok(#[trigger] t[i] as int)
}

/// Decoding of transport characters back into ordinary text, one for one.
pub open spec fn spec_to_text(t: Seq<char>) -> Seq<char> {
    t.map_values(|c: char| char_for_byte(c as int))
}

/// Decoding a transport byte sequence into ordinary text, one for one.
pub open spec fn spec_bytes_to_text(bs: Seq<u8>) -> Seq<char> {
    bs.map_values(|b: u8| char_for_byte(b as int))
}

/// Round trip, encoding first: translating a text whose characters all lie in
/// the alphabet's domain to the transport alphabet and back reproduces the
/// text exactly.
pub proof fn lemma_round_trip_text(s: Seq<char>)
    requires
        text_encodable(s),
    ensures
        spec_encode(s).len() == s.len(),
        transport_text(spec_encode(s)),
        spec_to_text(spec_encode(s)) == s,
{
    lemma_alphabet_bijective();
    assert forall|i: int| 0 <= i < s.len() implies transport_byte_ok(
        #[trigger] spec_encode(s)[i] as int,
    ) && spec_to_text(spec_encode(s))[i] == s[i] by {
        lemma_alpha_index(s[i]);
        let p = alpha_index(s[i]);
        assert(spec_encode(s)[i] == ((33 + p) as u8) as char);
        assert((spec_encode(s)[i] as int) == 33 + p);
        assert(char_for_byte(spec_encode(s)[i] as int) == alphabet()[p]);
    }
    assert(spec_to_text(spec_encode(s)) =~= s);
}

/// Round trip, decoding first: translating transport text back to ordinary
/// characters and encoding again reproduces the transport text exactly.
pub proof fn lemma_round_trip_transport(t: Seq<char>)
    requires
        transport_text(t),
    ensures
        spec_to_text(t).len() == t.len(),
        text_encodable(spec_to_text(t)),
        spec_encode(spec_to_text(t)) == t,
{
    lemma_alphabet_bijective();
    assert forall|i: int| 0 <= i < t.len() implies in_alphabet(#[trigger] spec_to_text(t)[i])
        && spec_encode(spec_to_text(t))[i] == t[i] by {
        let b = t[i] as int;
        let c = char_for_byte(b);
        assert(alphabet()[b - 33] == c);
        assert(in_alphabet(c));
        lemma_alpha_index(c);
        let p = alpha_index(c);
        assert(alphabet()[p] == alphabet()[b - 33]);
        assert(p == b - 33);
        assert(transport_char(c) == ((b as u8) as char));
        assert(transport_char(c) == t[i]);
    }
    assert(spec_encode(spec_to_text(t)) =~= t);
}

} // verus!
