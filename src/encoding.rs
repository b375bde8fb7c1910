use vstd::prelude::*;

verus! {

/// Why a token could not be decoded.
#[derive(Debug, Clone, Copy, PartialEq, Eq)]
pub enum DecodeError {
    /// The token does not have exactly thirteen symbols.
    InvalidLength,
    /// The token holds a character outside the alphabet.
    InvalidSymbol,
    /// The token stands for a value of more than 64 bits.
    Overflow,
}

/// Number of symbols in a token.
pub const TOKEN_LEN: usize = 13;

/// The value of a symbol of the alphabet `0123456789abcdefghjkmnpqrstvwxyz`, or -1.
pub open spec fn symbol_value(c: char) -> int {
    match c {
        '0' => 0,
        '1' => 1,
        '2' => 2,
        '3' => 3,
        '4' => 4,
        '5' => 5,
        '6' => 6,
        '7' => 7,
        '8' => 8,
        '9' => 9,
        'a' => 10,
        'b' => 11,
        'c' => 12,
        'd' => 13,
        'e' => 14,
        'f' => 15,
        'g' => 16,
        'h' => 17,
        'j' => 18,
        'k' => 19,
        'm' => 20,
        'n' => 21,
        'p' => 22,
        'q' => 23,
        'r' => 24,
        's' => 25,
        't' => 26,
        'v' => 27,
        'w' => 28,
        'x' => 29,
        'y' => 30,
        'z' => 31,
        _ => -1,
    }
}

/// Whether every character of `t` belongs to the alphabet.
pub open spec fn all_symbols(t: Seq<char>) -> bool {
    forall|i: int| 0 <= i < t.len() ==> symbol_value(#[trigger] t[i]) >= 0
}

/// The number that the symbols of `t` stand for, most significant first.
pub open spec fn token_value(t: Seq<char>) -> nat
    decreases t.len(),
{
    if t.len() == 0 {
        0
    } else {
        (token_value(t.drop_last()) * 32 + symbol_value(t.last())) as nat
    }
}

/// What decoding `t` gives.
pub open spec fn decode(t: Seq<char>) -> Result<u64, DecodeError> {
    if t.len() != TOKEN_LEN {
        Err(DecodeError::InvalidLength)
    } else if !all_symbols(t) {
        Err(DecodeError::InvalidSymbol)
    } else if token_value(t) > u64::MAX {
        Err(DecodeError::Overflow)
    } else {
        Ok(token_value(t) as u64)
    }
}

fn symbol_of(c: char) -> (r: Option<u8>)
    ensures
        symbol_value(c) < 0 ==> r is None,
        symbol_value(c) >= 0 ==> r == Some(symbol_value(c) as u8),
        symbol_value(c) < 32,
{
    match c {
        '0' => Some(0),
        '1' => Some(1),
        '2' => Some(2),
        '3' => Some(3),
        '4' => Some(4),
        '5' => Some(5),
        '6' => Some(6),
        '7' => Some(7),
        '8' => Some(8),
        '9' => Some(9),
        'a' => Some(10),
        'b' => Some(11),
        'c' => Some(12),
        'd' => Some(13),
        'e' => Some(14),
        'f' => Some(15),
        'g' => Some(16),
        'h' => Some(17),
        'j' => Some(18),
        'k' => Some(19),
        'm' => Some(20),
        'n' => Some(21),
        'p' => Some(22),
        'q' => Some(23),
        'r' => Some(24),
        's' => Some(25),
        't' => Some(26),
        'v' => Some(27),
        'w' => Some(28),
        'x' => Some(29),
        'y' => Some(30),
        'z' => Some(31),
        _ => None,
    }
}

/// The symbol for a value below 32.
pub open spec fn symbol(d: u8) -> char {
    match d {
        0 => '0',
        1 => '1',
        2 => '2',
        3 => '3',
        4 => '4',
        5 => '5',
        6 => '6',
        7 => '7',
        8 => '8',
        9 => '9',
        10 => 'a',
        11 => 'b',
        12 => 'c',
        13 => 'd',
        14 => 'e',
        15 => 'f',
        16 => 'g',
        17 => 'h',
        18 => 'j',
        19 => 'k',
        20 => 'm',
        21 => 'n',
        22 => 'p',
        23 => 'q',
        24 => 'r',
        25 => 's',
        26 => 't',
        27 => 'v',
        28 => 'w',
        29 => 'x',
        30 => 'y',
        _ => 'z',
    }
}

fn symbol_for(d: u8) -> (r: char)
    requires
        d < 32,
    ensures
        r == symbol(d),
{
    match d {
        0 => '0',
        1 => '1',
        2 => '2',
        3 => '3',
        4 => '4',
        5 => '5',
        6 => '6',
        7 => '7',
        8 => '8',
        9 => '9',
        10 => 'a',
        11 => 'b',
        12 => 'c',
        13 => 'd',
        14 => 'e',
        15 => 'f',
        16 => 'g',
        17 => 'h',
        18 => 'j',
        19 => 'k',
        20 => 'm',
        21 => 'n',
        22 => 'p',
        23 => 'q',
        24 => 'r',
        25 => 's',
        26 => 't',
        27 => 'v',
        28 => 'w',
        29 => 'x',
        30 => 'y',
        _ => 'z',
    }
}


/// Thirty-two to the power `n`.
pub open spec fn pow32(n: nat) -> nat
    decreases n,
{
    if n == 0 {
        1
    } else {
        32 * pow32((n - 1) as nat)
    }
}

/// The characters of `s`, in order.
pub fn chars_of(s: &str) -> (v: Vec<char>)
    ensures
        v@ == s@,
{
    let mut v: Vec<char> = Vec::new();
    for c in it: s.chars()
        invariant
            v@ == it.seq().take(it.index() as int),
    {
        v.push(c);
    }
    v
}

/// Decodes a token of thirteen symbols into the number it stands for.
pub fn decode_chars(t: &Vec<char>) -> (r: Result<u64, DecodeError>)
    ensures
        r == decode(t@),
{
    if t.len() != TOKEN_LEN {
        return Err(DecodeError::InvalidLength);
    }
    let mut digits: Vec<u8> = Vec::new();
    let mut i: usize = 0;
    while i < TOKEN_LEN
        invariant
            t.len() == TOKEN_LEN,
            i <= TOKEN_LEN,
            digits.len() == i,
            forall|j: int| 0 <= j < i ==> symbol_value(#[trigger] t@[j]) >= 0 && digits@[j] as int == symbol_value(t@[j]) && digits@[j] < 32,
        decreases TOKEN_LEN - i,
    {
        match symbol_of(t[i]) {
            None => {
                return Err(DecodeError::InvalidSymbol);
            },
            Some(d) => {
                digits.push(d);
            },
        }
        i = i + 1;
    }
    assert(all_symbols(t@));
    proof {
        lemma_pow32_mono(0, 13);
    }
    let mut acc: u128 = 0;
    let mut k: usize = 0;
    while k < TOKEN_LEN
        invariant
            t.len() == TOKEN_LEN,
            k <= TOKEN_LEN,
            digits.len() == TOKEN_LEN,
            forall|j: int| 0 <= j < TOKEN_LEN ==> symbol_value(#[trigger] t@[j]) >= 0 && digits@[j] as int == symbol_value(t@[j]) && digits@[j] < 32,
            acc == token_value(t@.take(k as int)),
            acc < pow32(k as nat),
            pow32(k as nat) <= pow32(13),
        decreases TOKEN_LEN - k,
    {
        let d = digits[k];
        proof {
            reveal_with_fuel(pow32, 14);
            assert(symbol_value(t@[k as int]) >= 0);
            assert(t@.take(k + 1).drop_last() =~= t@.take(k as int));
            assert(pow32((k + 1) as nat) == 32 * pow32(k as nat));
            let a = acc as int;
            let p = pow32(k as nat) as int;
            assert(a * 32 + (d as int) < 32 * p) by (nonlinear_arith)
                requires a < p, d < 32;
            assert(pow32(13) == 36893488147419103232nat);
            if k + 1 < 13 {
                assert(pow32((k + 1) as nat) <= pow32(13)) by {
                    lemma_pow32_mono((k + 1) as nat, 13);
                }
            }
        }
        acc = acc * 32 + d as u128;
        k = k + 1;
    }
    assert(t@.take(13) =~= t@);
    if acc > u64::MAX as u128 {
        Err(DecodeError::Overflow)
    } else {
        Ok(acc as u64)
    }
}

proof fn lemma_pow32_mono(a: nat, b: nat)
    requires
        a <= b,
    ensures
        pow32(a) <= pow32(b),
    decreases b - a,
{
    if a < b {
        lemma_pow32_mono(a, (b - 1) as nat);
    }
}


/// The token for the number `v`: thirteen symbols, most significant first.
pub open spec fn encode(v: u64) -> Seq<char> {
    Seq::new(13, |k: int| symbol(((v as nat / pow32((12 - k) as nat)) % 32) as u8))
}

/// Relies on String::push: appends one character.
#[verifier::external_body]
fn push_char(s: &mut String, c: char)
    ensures
        final(s)@ == old(s)@.push(c),
{
    s.push(c);
}

/// Appends the characters of `v` to `s`.
pub fn push_chars(s: &mut String, v: &Vec<char>)
    ensures
        final(s)@ == old(s)@ + v@,
{
    let ghost start = s@;
    let mut i: usize = 0;
    while i < v.len()
        invariant
            i <= v.len(),
            s@ == start + v@.take(i as int),
        decreases v.len() - i,
    {
        push_char(s, v[i]);
        proof {
            assert(v@.take(i + 1) =~= v@.take(i as int).push(v@[i as int]));
        }
        i = i + 1;
    }
    assert(v@.take(v.len() as int) =~= v@);
}

/// The thirteen symbols that stand for `v`.
pub fn encode_chars(v: u64) -> (r: Vec<char>)
    ensures
        r@ == encode(v),
{
    let mut buf: Vec<char> = vec!['0'; 13];
    let mut w: u64 = v;
    let mut j: usize = 0;
    assert(pow32(0) == 1) by {
        reveal_with_fuel(pow32, 1);
    }
    while j < TOKEN_LEN
        invariant
            j <= TOKEN_LEN,
            buf.len() == TOKEN_LEN,
            w as nat == v as nat / pow32(j as nat),
            forall|k: int| 13 - j <= k < 13 ==> buf@[k] == #[trigger] encode(v)[k],
        decreases TOKEN_LEN - j,
    {
        let d = (w % 32) as u8;
        let c = symbol_for(d);
        buf.set(12 - j, c);
        proof {
            lemma_pow32_pos(j as nat);
            vstd::arithmetic::div_mod::lemma_div_denominator(v as int, pow32(j as nat) as int, 32);
            assert(pow32((j + 1) as nat) == 32 * pow32(j as nat));
            lemma_pow32_pos(j as nat);
            assert(encode(v)[12 - j as int] == c);
        }
        w = w / 32;
        j = j + 1;
    }
    assert(buf@ =~= encode(v));
    buf
}

proof fn lemma_pow32_pos(n: nat)
    ensures
        pow32(n) > 0,
    decreases n,
{
    if n > 0 {
        lemma_pow32_pos((n - 1) as nat);
    }
}

/// Renders eight bytes as a token of thirteen symbols.
///
/// Never fails: every value of eight bytes has a token.
pub fn stringify_base32(data: [u8; 8]) -> (r: Result<String, DecodeError>)
    ensures
        r matches Ok(t) && t@ == encode(be_u64(data@)),
{
    let v = u64_from_be(data);
    let cs = encode_chars(v);
    let mut s = String::new();
    push_chars(&mut s, &cs);
    Ok(s)
}

/// Decodes a token of thirteen symbols into eight bytes.
pub fn parse_base32(token: &str) -> (r: Result<[u8; 8], DecodeError>)
    ensures
        match decode(token@) {
            Ok(v) => r matches Ok(b) && b@ == be_bytes(v),
            Err(e) => r == Err::<[u8; 8], DecodeError>(e),
        },
{
    let cs = chars_of(token);
    match decode_chars(&cs) {
        Ok(v) => Ok(u64_to_be(v)),
        Err(e) => Err(e),
    }
}

/// The number that eight bytes stand for, most significant first.
pub open spec fn be_u64(b: Seq<u8>) -> u64 {
    ((b[0] as u64) << 56) | ((b[1] as u64) << 48) | ((b[2] as u64) << 40) | ((b[3] as u64) << 32)
        | ((b[4] as u64) << 24) | ((b[5] as u64) << 16) | ((b[6] as u64) << 8) | (b[7] as u64)
}

/// The eight bytes of `v`, most significant first.
pub open spec fn be_bytes(v: u64) -> Seq<u8> {
    seq![(v >> 56) as u8, (v >> 48) as u8, (v >> 40) as u8, (v >> 32) as u8,
        (v >> 24) as u8, (v >> 16) as u8, (v >> 8) as u8, v as u8]
}

/// Reads eight bytes as a number, most significant first.
pub fn u64_from_be(b: [u8; 8]) -> (r: u64)
    ensures
        r == be_u64(b@),
{
    ((b[0] as u64) << 56) | ((b[1] as u64) << 48) | ((b[2] as u64) << 40) | ((b[3] as u64) << 32)
        | ((b[4] as u64) << 24) | ((b[5] as u64) << 16) | ((b[6] as u64) << 8) | (b[7] as u64)
}

/// Writes a number as eight bytes, most significant first.
pub fn u64_to_be(v: u64) -> (r: [u8; 8])
    ensures
        r@ == be_bytes(v),
{
    let r = [(v >> 56) as u8, (v >> 48) as u8, (v >> 40) as u8, (v >> 32) as u8,
        (v >> 24) as u8, (v >> 16) as u8, (v >> 8) as u8, v as u8];
    assert(r@ =~= be_bytes(v));
    r
}


proof fn lemma_symbol_round_trip(d: u8)
    requires
        d < 32,
    ensures
        symbol_value(symbol(d)) == d as int,
{
}

proof fn lemma_token_prefix_value(v: u64, i: nat)
    requires
        i <= 13,
    ensures
        token_value(encode(v).take(i as int)) == v as nat / pow32((13 - i) as nat),
        all_symbols(encode(v).take(i as int)),
    decreases i,
{
    let t = encode(v);
    lemma_pow32_pos((13 - i) as nat);
    if i == 0 {
        assert(t.take(0) =~= Seq::<char>::empty());
        reveal_with_fuel(pow32, 14);
        assert(pow32(13) == 36893488147419103232nat);
        assert(v as nat / pow32(13) == 0) by (nonlinear_arith)
            requires (v as nat) < 36893488147419103232nat, pow32(13) == 36893488147419103232nat;
    } else {
        let k = (i - 1) as nat;
        lemma_token_prefix_value(v, k);
        assert(t.take(i as int).drop_last() =~= t.take(k as int));
        let p = pow32((12 - k) as nat);
        lemma_pow32_pos((12 - k) as nat);
        let q = v as nat / p;
        lemma_symbol_round_trip((q % 32) as u8);
        assert(pow32((13 - k) as nat) == 32 * p);
        vstd::arithmetic::div_mod::lemma_div_denominator(v as int, p as int, 32);
        vstd::arithmetic::div_mod::lemma_fundamental_div_mod(q as int, 32);
        assert forall|j: int| 0 <= j < i implies symbol_value(#[trigger] t.take(i as int)[j]) >= 0 by {
            if j < k {
                assert(t.take(i as int)[j] == t.take(k as int)[j]);
            }
        }
    }
}

/// Decoding the token of a number gives that number back.
pub proof fn lemma_decode_encode(v: u64)
    ensures
        decode(encode(v)) == Ok::<u64, DecodeError>(v),
{
    lemma_token_prefix_value(v, 13);
    assert(encode(v).take(13) =~= encode(v));
    assert(pow32(0) == 1) by {
        reveal_with_fuel(pow32, 1);
    }
    assert(v as nat / 1 == v as nat);
    assert(encode(v).len() == TOKEN_LEN);
    assert(all_symbols(encode(v)));
    assert(token_value(encode(v)) == v as nat);
}

/// Writing a number as bytes and reading them back gives that number.
pub proof fn lemma_be_round_trip(v: u64)
    ensures
        be_u64(be_bytes(v)) == v,
{
    assert(((((v >> 56) as u8) as u64) << 56) | ((((v >> 48) as u8) as u64) << 48) | ((((v >> 40) as u8) as u64) << 40)
        | ((((v >> 32) as u8) as u64) << 32) | ((((v >> 24) as u8) as u64) << 24) | ((((v >> 16) as u8) as u64) << 16)
        | ((((v >> 8) as u8) as u64) << 8) | ((v as u8) as u64) == v) by (bit_vector);
}


/// Reading eight bytes as a number and writing it back gives the same bytes.
pub proof fn lemma_be_bytes_round_trip(b: Seq<u8>)
    requires
        b.len() == 8,
    ensures
        be_bytes(be_u64(b)) == b,
{
    let (b0, b1, b2, b3, b4, b5, b6, b7) = (b[0], b[1], b[2], b[3], b[4], b[5], b[6], b[7]);
    let v: u64 = be_u64(b);
    assert(v == ((b0 as u64) << 56) | ((b1 as u64) << 48) | ((b2 as u64) << 40) | ((b3 as u64) << 32)
        | ((b4 as u64) << 24) | ((b5 as u64) << 16) | ((b6 as u64) << 8) | (b7 as u64));
    assert(((v >> 56) as u8 == b0 && (v >> 48) as u8 == b1 && (v >> 40) as u8 == b2 && (v >> 32) as u8 == b3
        && (v >> 24) as u8 == b4 && (v >> 16) as u8 == b5 && (v >> 8) as u8 == b6 && v as u8 == b7)) by (bit_vector)
        requires v == ((b0 as u64) << 56) | ((b1 as u64) << 48) | ((b2 as u64) << 40) | ((b3 as u64) << 32)
        | ((b4 as u64) << 24) | ((b5 as u64) << 16) | ((b6 as u64) << 8) | (b7 as u64);
    assert(be_bytes(v) =~= b);
}


proof fn lemma_token_value_split(t: Seq<char>)
    requires
        t.len() >= 1,
        all_symbols(t),
    ensures
        token_value(t) == symbol_value(t[0]) * pow32((t.len() - 1) as nat) + token_value(t.drop_first()),
        token_value(t.drop_first()) < pow32((t.len() - 1) as nat),
    decreases t.len(),
{
    let n = (t.len() - 1) as nat;
    if t.len() == 1 {
        assert(t.drop_last() =~= Seq::<char>::empty());
        assert(t.drop_first() =~= Seq::<char>::empty());
        reveal_with_fuel(pow32, 1);
    } else {
        let u = t.drop_last();
        assert(all_symbols(u)) by {
            assert forall|j: int| 0 <= j < u.len() implies symbol_value(#[trigger] u[j]) >= 0 by {
                assert(u[j] == t[j]);
            }
        }
        lemma_token_value_split(u);
        assert(u.drop_first() =~= t.drop_first().drop_last());
        assert(symbol_value(t[t.len() - 1]) >= 0);
        let d = symbol_value(t.last());
        assert(d < 32);
        let a = symbol_value(t[0]);
        let m = pow32((n - 1) as nat);
        let r = token_value(u.drop_first()) as int;
        assert(pow32(n) == 32 * m);
        assert(token_value(t.drop_first()) == r * 32 + d);
        assert((a * m + r) * 32 + d == a * (32 * m) + (r * 32 + d)) by (nonlinear_arith);
        assert(r * 32 + d < 32 * m) by (nonlinear_arith)
            requires r < m, d < 32;
    }
}

/// A token of thirteen symbols of the alphabet overflows exactly when its leading symbol
/// stands for 16 or more, so that it would need bits beyond the 64th.
pub proof fn lemma_overflow_leading_symbol(t: Seq<char>)
    requires
        t.len() == TOKEN_LEN,
        all_symbols(t),
    ensures
        decode(t) == Err::<u64, DecodeError>(DecodeError::Overflow) <==> symbol_value(t[0]) >= 16,
{
    lemma_token_value_split(t);
    reveal_with_fuel(pow32, 13);
    assert(pow32(12) == 1152921504606846976nat);
    let a = symbol_value(t[0]);
    let r = token_value(t.drop_first()) as int;
    assert(a >= 16 ==> a * 1152921504606846976 + r > 18446744073709551615) by (nonlinear_arith)
        requires r >= 0;
    assert(a < 16 ==> a * 1152921504606846976 + r <= 18446744073709551615) by (nonlinear_arith)
        requires r < 1152921504606846976, a >= 0;
}

} // verus!
