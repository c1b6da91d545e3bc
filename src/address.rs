//! Callsign addresses: up to seven characters of `0-9A-Z` packed into a
//! 32-bit little-endian base-36 integer.
use vstd::prelude::*;

verus! {

/// Address that matches every station.
pub const BROADCAST: u32 = 0xFFFF_FFFF;

/// Number of characters in a callsign.
pub const CALLSIGN_LEN: usize = 7;

/// The base-36 digit of a callsign character, or -1 where `c` is none.
pub open spec fn symbol_value(c: char) -> int {
    if '0' <= c && c <= '9' {
        c as int - '0' as int
    } else if 'A' <= c && c <= 'Z' {
        c as int - 'A' as int + 10
    } else {
        -1
    }
}

pub open spec fn is_symbol(c: char) -> bool {
    symbol_value(c) >= 0
}

/// The character that spells base-36 digit `v`.
pub open spec fn symbol_char(v: int) -> char {
    if v < 10 {
        (v + '0' as int) as char
    } else {
        (v - 10 + 'A' as int) as char
    }
}

/// The number that a run of callsign characters spells, least significant first.
pub open spec fn callsign_value(s: Seq<char>) -> int
    decreases s.len(),
{
    if s.len() == 0 {
        0
    } else {
        symbol_value(s[0]) + 36 * callsign_value(s.drop_first())
    }
}

/// The `n` least significant base-36 digits of `v`, spelled as characters.
pub open spec fn base36_digits(v: nat, n: nat) -> Seq<char>
    decreases n,
{
    if n == 0 {
        seq![]
    } else {
        seq![symbol_char((v % 36) as int)] + base36_digits(v / 36, (n - 1) as nat)
    }
}

pub open spec fn all_symbols(s: Seq<char>) -> bool {
    forall|i: int| 0 <= i < s.len() ==> #[trigger] is_symbol(s[i])
}

pub open spec fn all_stars(s: Seq<char>) -> bool {
    forall|i: int| 0 <= i < s.len() ==> #[trigger] s[i] == '*'
}

/// What `encode` gives for a callsign.
pub open spec fn encode_spec(s: Seq<char>) -> Option<u32> {
    if all_stars(s) {
        Some(BROADCAST)
    } else if all_symbols(s) && callsign_value(s) <= u32::MAX {
        Some(callsign_value(s) as u32)
    } else {
        None
    }
}

/// The character that spells digit `symbol`.
pub fn symbol_to_character(symbol: u8) -> (c: char)
    requires
        symbol < 36,
    ensures
        c == symbol_char(symbol as int),
        is_symbol(c),
        symbol_value(c) == symbol,
{
    if symbol < 10 {
        ((symbol + 48) as char)
    } else {
        ((symbol + 55) as char)
    }
}

/// The digit that a callsign character stands for, if it is one.
pub fn character_to_symbol(character: char) -> (r: Option<u8>)
    ensures
        r == (if is_symbol(character) {
            Some(symbol_value(character) as u8)
        } else {
            None::<u8>
        }),
{
    if '0' <= character && character <= '9' {
        Some(((character as u32) - 48) as u8)
    } else if 'A' <= character && character <= 'Z' {
        Some(((character as u32) - 55) as u8)
    } else {
        None
    }
}

/// `36` to the power `n`.
pub open spec fn pow36(n: nat) -> nat
    decreases n,
{
    if n == 0 {
        1
    } else {
        36 * pow36((n - 1) as nat)
    }
}

/// What `decode` gives for an address.
pub open spec fn decode_spec(v: u32) -> Seq<char> {
    base36_digits(v as nat, 7)
}

proof fn lemma_pow36_mono(a: nat, b: nat)
    requires
        a <= b,
    ensures
        pow36(a) <= pow36(b),
    decreases b,
{
    if a < b {
        lemma_pow36_mono(a, (b - 1) as nat);
    }
}

proof fn lemma_value_bounds(s: Seq<char>)
    requires
        all_symbols(s),
    ensures
        0 <= callsign_value(s) < pow36(s.len()),
    decreases s.len(),
{
    if s.len() > 0 {
        assert(is_symbol(s[0]));
        lemma_value_bounds(s.drop_first());
    }
}

proof fn lemma_symbol_char_inverse(c: char)
    requires
        is_symbol(c),
    ensures
        symbol_char(symbol_value(c)) == c,
{
}

/// Spelling in base 36 the number that a callsign stands for gives the callsign.
proof fn lemma_digits_of_value(s: Seq<char>)
    requires
        all_symbols(s),
    ensures
        base36_digits(callsign_value(s) as nat, s.len()) == s,
    decreases s.len(),
{
    if s.len() > 0 {
        let rest = s.drop_first();
        assert(is_symbol(s[0]));
        lemma_value_bounds(rest);
        lemma_digits_of_value(rest);
        let d = symbol_value(s[0]);
        let k = callsign_value(rest);
        assert((d + 36 * k) % 36 == d && (d + 36 * k) / 36 == k) by (nonlinear_arith)
            requires
                0 <= d < 36,
                0 <= k,
        ;
        lemma_symbol_char_inverse(s[0]);
        assert(base36_digits(callsign_value(s) as nat, s.len()) =~= s);
    }
}

/// Encodes a seven-character callsign into its 32-bit wire form. The
/// all-`*` callsign is the broadcast address; a callsign with a character
/// outside `0-9A-Z`, or whose value does not fit in 32 bits, has none.
pub fn encode(address: [char; 7]) -> (r: Option<u32>)
    ensures
        r == encode_spec(address@),
{
    let mut stars = true;
    let mut k: usize = 0;
    while k < 7
        invariant
            0 <= k <= 7,
            stars == (forall|j: int| 0 <= j < k ==> address@[j] == '*'),
        decreases 7 - k,
    {
        stars = stars && address[k] == '*';
        k = k + 1;
    }
    if stars {
        return Some(BROADCAST);
    }
    proof {
        assert(!all_stars(address@));
        reveal_with_fuel(pow36, 8);
        assert(pow36(7) == 78364164096);
    }
    let mut acc: u64 = 0;
    let mut i: usize = 7;
    while i > 0
        invariant
            0 <= i <= 7,
            address@.len() == 7,
            !all_stars(address@),
            all_symbols(address@.subrange(i as int, 7)),
            acc == callsign_value(address@.subrange(i as int, 7)),
            acc < pow36((7 - i) as nat),
        decreases i,
    {
        let sym = match character_to_symbol(address[i - 1]) {
            Some(sym) => sym,
            None => {
                assert(!is_symbol(address@[i - 1]));
                assert(!all_symbols(address@));
                return None;
            },
        };
        proof {
            lemma_pow36_mono((7 - i) as nat, 6);
            reveal_with_fuel(pow36, 7);
            assert(pow36(6) == 2176782336);
            let tail = address@.subrange(i - 1, 7);
            assert(tail.drop_first() =~= address@.subrange(i as int, 7));
            assert(tail[0] == address@[i - 1]);
            assert forall|j: int| 0 <= j < tail.len() implies #[trigger] is_symbol(tail[j]) by {
                if j > 0 {
                    assert(tail[j] == address@.subrange(i as int, 7)[j - 1]);
                }
            }
        }
        acc = acc * 36 + sym as u64;
        i = i - 1;
    }
    assert(address@.subrange(0, 7) =~= address@);
    if acc <= 0xFFFF_FFFF {
        Some(acc as u32)
    } else {
        None
    }
}

/// Decodes a 32-bit address into its seven characters, least significant
/// digit first. The broadcast address reads `3Z141Z1`.
pub fn decode(address: u32) -> (r: [char; 7])
    ensures
        r@ == decode_spec(address),
        all_symbols(r@),
{
    let mut addr: [char; 7] = ['0'; 7];
    let mut rem: u32 = address;
    let mut i: usize = 0;
    while i < 7
        invariant
            0 <= i <= 7,
            addr@.len() == 7,
            decode_spec(address) == addr@.subrange(0, i as int) + base36_digits(
                rem as nat,
                (7 - i) as nat,
            ),
            all_symbols(addr@.subrange(0, i as int)),
        decreases 7 - i,
    {
        let c = symbol_to_character((rem % 36) as u8);
        proof {
            assert(base36_digits(rem as nat, (7 - i) as nat) == seq![c] + base36_digits(
                (rem / 36) as nat,
                (7 - i - 1) as nat,
            ));
        }
        let ghost before = addr@;
        addr[i] = c;
        proof {
            assert(addr@.subrange(0, i + 1) =~= before.subrange(0, i as int) + seq![c]);
            assert(decode_spec(address) =~= addr@.subrange(0, i + 1) + base36_digits(
                (rem / 36) as nat,
                (7 - i - 1) as nat,
            ));
        }
        rem = rem / 36;
        i = i + 1;
    }
    assert(addr@.subrange(0, 7) =~= addr@);
    addr
}

/// A callsign over `0-9A-Z` that `encode` accepts comes back unchanged from
/// `decode`.
pub proof fn lemma_address_round_trip(s: [char; 7])
    requires
        all_symbols(s@),
        encode_spec(s@) is Some,
    ensures
        decode_spec(encode_spec(s@).unwrap()) == s@,
{
    assert(!all_stars(s@)) by {
        assert(is_symbol(s@[0]));
    }
    lemma_value_bounds(s@);
    lemma_digits_of_value(s@);
}

/// Relies on std's `String::push`: appends `c` to the end of `s`.
#[verifier::external_body]
pub(crate) fn push_char(s: &mut String, c: char)
    ensures
        final(s)@ == old(s)@.push(c),
{
    s.push(c)
}

/// The seven characters of an address as a string.
pub fn format_addr(address: u32) -> (r: String)
    ensures
        r@ == decode_spec(address),
{
    let chars = decode(address);
    let mut out = String::new();
    let mut i: usize = 0;
    while i < 7
        invariant
            i <= 7,
            chars@ == decode_spec(address),
            out@ == chars@.take(i as int),
        decreases 7 - i,
    {
        push_char(&mut out, chars[i]);
        assert(chars@.take(i + 1) =~= chars@.take(i as int).push(chars@[i as int]));
        i = i + 1;
    }
    assert(chars@.take(7) =~= chars@);
    out
}

/// The first seven characters of `s` as a callsign, padded with `0`.
pub fn string_to_addr(s: &[char]) -> (r: [char; 7])
    ensures
        forall|i: int| 0 <= i < 7 ==> r@[i] == if i < s@.len() {
            s@[i]
        } else {
            '0'
        },
{
    let mut local_addr: [char; 7] = ['0'; 7];
    let mut i: usize = 0;
    while i < 7 && i < s.len()
        invariant
            i <= 7,
            i <= s@.len(),
            local_addr@.len() == 7,
            forall|j: int| 0 <= j < i ==> local_addr@[j] == s@[j],
            forall|j: int| i <= j < 7 ==> local_addr@[j] == '0',
        decreases 7 - i,
    {
        local_addr[i] = s[i];
        i = i + 1;
    }
    local_addr
}

} // verus!
