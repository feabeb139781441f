//! Helpers shared by the client and the server: bit decomposition, party numbers,
//! and drawing uniformly random numbers by rejection sampling.
use vstd::prelude::*;
use vstd::arithmetic::power2::pow2;

verus! {

/// The binary digits of `n`, least significant first, without leading zeros
/// (zero itself is the single digit 0).
pub open spec fn bits_of(n: nat) -> Seq<u64>
    decreases n,
{
    if n < 2 {
        seq![n as u64]
    } else {
        seq![(n % 2) as u64] + bits_of(n / 2)
    }
}

/// The bits of `n`, padded with zeros up to `length` when given.
pub open spec fn padded_bits(n: nat, length: Option<u64>) -> Seq<u64> {
    let b = bits_of(n);
    match length {
        Some(l) => if b.len() < l {
            b + Seq::new((l - b.len()) as nat, |i: int| 0u64)
        } else {
            b
        },
        None => b,
    }
}

/// The number that a sequence of bits (least significant first) stands for.
pub open spec fn bits_value(b: Seq<u64>) -> int
    decreases b.len(),
{
    if b.len() == 0 {
        0
    } else {
        b[0] + 2 * bits_value(b.drop_first())
    }
}

/// The bits of `n` stand for `n`.
pub proof fn law_bits_value(n: nat)
    ensures
        bits_value(bits_of(n)) == n,
        forall|i: int| 0 <= i < bits_of(n).len() ==> #[trigger] bits_of(n)[i] <= 1,
    decreases n,
{
    if n >= 2 {
        law_bits_value(n / 2);
        assert(bits_of(n).drop_first() =~= bits_of(n / 2));
        assert(bits_of(n)[0] == (n % 2) as u64);
        assert(n == n % 2 + 2 * (n / 2));
        assert(bits_value(bits_of(n)) == bits_of(n)[0] + 2 * bits_value(bits_of(n).drop_first()));
        assert forall|i: int| 0 <= i < bits_of(n).len() implies #[trigger] bits_of(n)[i] <= 1 by {
            if i > 0 {
                assert(bits_of(n)[i] == bits_of(n / 2)[i - 1]);
            }
        }
    } else {
        assert(bits_of(n).drop_first() =~= Seq::<u64>::empty());
        assert(bits_value(bits_of(n)) == bits_of(n)[0] + 2 * bits_value(bits_of(n).drop_first()));
        assert(bits_value(Seq::<u64>::empty()) == 0);
    }
}

/// Padding with zeros does not change the number.
pub proof fn lemma_bits_value_zeros(b: Seq<u64>, k: nat)
    ensures
        bits_value(b + Seq::new(k, |i: int| 0u64)) == bits_value(b),
    decreases b.len(), k,
{
    let z = Seq::new(k, |i: int| 0u64);
    if b.len() == 0 {
        assert(b + z =~= z);
        if k > 0 {
            assert(z.drop_first() =~= Seq::new((k - 1) as nat, |i: int| 0u64));
            lemma_bits_value_zeros(b, (k - 1) as nat);
            assert(b + Seq::new((k - 1) as nat, |i: int| 0u64) =~= Seq::new(
                (k - 1) as nat,
                |i: int| 0u64,
            ));
        }
    } else {
        assert((b + z).drop_first() =~= b.drop_first() + z);
        lemma_bits_value_zeros(b.drop_first(), k);
    }
}

/// Transforms a number into its bits, least significant first, padded with zeros
/// up to `length` when one is given.
pub fn number_to_bits(number: u64, length: Option<u64>) -> (r: Vec<u64>)
    ensures
        r@ == padded_bits(number as nat, length),
{
    let mut bits: Vec<u64> = Vec::new();
    let mut n = number;
    // the digits of `number` are those already taken, then the digits of `n`
    while n >= 2
        invariant
            bits_of(number as nat) == bits@ + bits_of(n as nat),
        decreases n,
    {
        let ghost old_bits = bits@;
        assert(bits_of(n as nat) == seq![(n % 2) as u64] + bits_of((n / 2) as nat));
        bits.push(n % 2);
        n = n / 2;
        assert(old_bits + (seq![(bits@.last())] + bits_of(n as nat)) =~= bits@ + bits_of(n as nat));
    }
    bits.push(n);
    assert(bits@ =~= bits_of(number as nat));
    match length {
        Some(l) => {
            let ghost b = bits@;
            while (bits.len() as u64) < l
                invariant
                    b == bits_of(number as nat),
                    b.len() <= bits@.len(),
                    b.len() < l ==> bits@.len() <= l,
                    b.len() >= l ==> bits@.len() == b.len(),
                    bits@ == b + Seq::new((bits@.len() - b.len()) as nat, |i: int| 0u64),
                decreases l - bits@.len(),
            {
                bits.push(0);
                assert(bits@ =~= b + Seq::new((bits@.len() - b.len()) as nat, |i: int| 0u64));
            }
            proof {
                if b.len() >= l {
                    assert(bits@ =~= b);
                }
            }
        },
        None => {},
    }
    bits
}

/// The character of a decimal digit.
pub open spec fn digit_char(d: int) -> char {
    (d + 48) as char
}

/// The decimal text of a natural number.
pub open spec fn dec_text(n: nat) -> Seq<char>
    decreases n,
{
    if n < 10 {
        seq![digit_char(n as int)]
    } else {
        dec_text(n / 10).push(digit_char((n % 10) as int))
    }
}

/// The decimal text of an integer, with `-` in front when it is negative.
pub open spec fn int_text(n: int) -> Seq<char> {
    if n < 0 {
        seq!['-'] + dec_text((-n) as nat)
    } else {
        dec_text(n as nat)
    }
}

/// The decimal texts of the numbers, separated by commas.
pub open spec fn join_ints(v: Seq<i64>) -> Seq<char>
    decreases v.len(),
{
    if v.len() == 0 {
        Seq::empty()
    } else if v.len() == 1 {
        int_text(v[0] as int)
    } else {
        join_ints(v.drop_last()) + seq![','] + int_text(v.last() as int)
    }
}

/// Every character of the decimal text of an integer is `-` or a digit.
pub proof fn lemma_int_text_digits(n: int)
    ensures
        forall|i: int| 0 <= i < int_text(n).len() ==> (#[trigger] int_text(n)[i]) as int <= 57,
{
    if n < 0 {
        lemma_dec_text_digits((-n) as nat);
        assert forall|i: int| 0 <= i < int_text(n).len() implies (#[trigger] int_text(n)[i]) as int <= 57 by {
            if i > 0 {
                assert(int_text(n)[i] == dec_text((-n) as nat)[i - 1]);
            }
        }
    } else {
        lemma_dec_text_digits(n as nat);
    }
}

/// Every character of the decimal text of a natural number is a digit.
pub proof fn lemma_dec_text_digits(n: nat)
    ensures
        forall|i: int| 0 <= i < dec_text(n).len() ==> 48 <= (#[trigger] dec_text(n)[i]) as int <= 57,
    decreases n,
{
    if n >= 10 {
        lemma_dec_text_digits(n / 10);
        let s = dec_text(n / 10);
        let d = digit_char((n % 10) as int);
        assert(d as int == (n % 10) + 48);
        assert(dec_text(n) == s.push(d));
        assert forall|i: int| 0 <= i < dec_text(n).len() implies 48 <= (#[trigger] dec_text(n)[i]) as int
            <= 57 by {
            if i < s.len() {
                assert(dec_text(n)[i] == s[i]);
            } else {
                assert(dec_text(n)[i] == d);
            }
        }
    } else {
        assert(digit_char(n as int) as int == n + 48);
        assert(dec_text(n) == seq![digit_char(n as int)]);
    }
}

/// The decimal text of a number has at least one digit, and two from 10 on.
pub proof fn lemma_dec_text_len(n: nat)
    ensures
        dec_text(n).len() >= 1,
        n >= 10 ==> dec_text(n).len() >= 2,
    decreases n,
{
    if n >= 10 {
        lemma_dec_text_len(n / 10);
    }
}

/// Different numbers have different decimal texts.
pub proof fn lemma_dec_text_injective(a: nat, b: nat)
    requires
        dec_text(a) == dec_text(b),
    ensures
        a == b,
    decreases a,
{
    lemma_dec_text_len(a);
    lemma_dec_text_len(b);
    if a < 10 && b < 10 {
        assert(dec_text(a)[0] == digit_char(a as int));
        assert(dec_text(b)[0] == digit_char(b as int));
        assert(digit_char(a as int) as int == a + 48);
        assert(digit_char(b as int) as int == b + 48);
    } else if a >= 10 && b >= 10 {
        let da = digit_char((a % 10) as int);
        let db = digit_char((b % 10) as int);
        assert(dec_text(a) == dec_text(a / 10).push(da));
        assert(dec_text(b) == dec_text(b / 10).push(db));
        assert(dec_text(a).last() == da);
        assert(dec_text(b).last() == db);
        assert(da as int == a % 10 + 48);
        assert(db as int == b % 10 + 48);
        assert(dec_text(a / 10) =~= dec_text(a).drop_last());
        assert(dec_text(b / 10) =~= dec_text(b).drop_last());
        lemma_dec_text_injective(a / 10, b / 10);
    }
}

/// The text of one decimal digit.
fn digit_str(d: u64) -> (r: &'static str)
    requires
        d < 10,
    ensures
        r@ == seq![digit_char(d as int)],
{
    proof {
        reveal_strlit("0");
        reveal_strlit("1");
        reveal_strlit("2");
        reveal_strlit("3");
        reveal_strlit("4");
        reveal_strlit("5");
        reveal_strlit("6");
        reveal_strlit("7");
        reveal_strlit("8");
        reveal_strlit("9");
    }
    match d {
        0 => "0",
        1 => "1",
        2 => "2",
        3 => "3",
        4 => "4",
        5 => "5",
        6 => "6",
        7 => "7",
        8 => "8",
        _ => "9",
    }
}

/// Appends the decimal text of `m`.
pub(crate) fn push_dec(s: &mut String, m: u64)
    ensures
        final(s)@ == old(s)@ + dec_text(m as nat),
    decreases m,
{
    if m < 10 {
        s.append(digit_str(m));
    } else {
        push_dec(s, m / 10);
        s.append(digit_str(m % 10));
        proof {
            assert(dec_text(m as nat) == dec_text((m / 10) as nat).push(digit_char((m % 10) as int)));
        }
        assert(final(s)@ =~= old(s)@ + dec_text(m as nat)) by {
            assert(dec_text(m as nat) =~= dec_text((m / 10) as nat) + seq![digit_char((m % 10) as int)]);
        }
    }
}

/// The decimal text of a number.
pub fn int_to_text(n: i64) -> (r: String)
    ensures
        r@ == int_text(n as int),
{
    let mut s = String::new();
    if n < 0 {
        s.append("-");
        proof {
            reveal_strlit("-");
        }
        let m: u64 = if n == i64::MIN {
            9223372036854775808u64
        } else {
            (-n) as u64
        };
        push_dec(&mut s, m);
        assert(s@ =~= seq!['-'] + dec_text((-n) as nat));
    } else {
        push_dec(&mut s, n as u64);
        assert(s@ =~= dec_text(n as nat));
    }
    s
}

/// The decimal texts of the numbers, separated by commas.
pub fn join_numbers(v: &Vec<i64>) -> (r: String)
    ensures
        r@ == join_ints(v@),
{
    let mut s = String::new();
    let mut i: usize = 0;
    while i < v.len()
        invariant
            i <= v@.len(),
            s@ == join_ints(v@.subrange(0, i as int)),
        decreases v.len() - i,
    {
        let ghost pre = v@.subrange(0, i as int);
        if i > 0 {
            s.append(",");
            proof {
                reveal_strlit(",");
            }
        }
        let t = int_to_text(v[i]);
        s.append(t.as_str());
        proof {
            let next = v@.subrange(0, i + 1 as int);
            assert(next.drop_last() =~= pre);
            assert(next.last() == v@[i as int]);
            if i == 0 {
                assert(s@ =~= join_ints(next));
            } else {
                assert(s@ =~= join_ints(next));
            }
        }
        i = i + 1;
    }
    assert(v@.subrange(0, v@.len() as int) =~= v@);
    s
}

/// A party id: a number for the parties of a computation, or a text such as `"s1"`
/// for the server.
pub enum PartyId {
    Number(i64),
    Text(String),
}

/// The abstract value of a party id.
pub enum PartyIdView {
    Number(int),
    Text(Seq<char>),
}

impl View for PartyId {
    type V = PartyIdView;

    open spec fn view(&self) -> PartyIdView {
        match self {
            PartyId::Number(n) => PartyIdView::Number(*n as int),
            PartyId::Text(s) => PartyIdView::Text(s@),
        }
    }
}

/// The value of a decimal digit character.
pub open spec fn digit_value(c: char) -> int {
    c as int - '0' as int
}

pub open spec fn is_digit(c: char) -> bool {
    '0' <= c <= '9'
}

/// The value of a string of decimal digits.
pub open spec fn digits_value(s: Seq<char>) -> int
    decreases s.len(),
{
    if s.len() == 0 {
        0
    } else {
        digits_value(s.drop_last()) * 10 + digit_value(s.last())
    }
}

/// All characters are decimal digits.
pub open spec fn all_digits(s: Seq<char>) -> bool {
    forall|i: int| 0 <= i < s.len() ==> is_digit(#[trigger] s[i])
}

/// The length of the sign in front of the digits: 1 for `-` or `+`, else 0.
pub open spec fn sign_len(s: Seq<char>) -> int {
    if s.len() > 0 && (s[0] == '-' || s[0] == '+') {
        1
    } else {
        0
    }
}

/// The value of an optionally signed digit string.
pub open spec fn signed_value(s: Seq<char>) -> int {
    let d = digits_value(s.subrange(sign_len(s), s.len() as int));
    if s.len() > 0 && s[0] == '-' {
        -d
    } else {
        d
    }
}

/// What parsing a decimal integer gives: an optional sign, then at least one digit,
/// and a value that fits in an `i64`.
pub open spec fn parse_i64_spec(s: Seq<char>) -> Option<int> {
    let digits = s.subrange(sign_len(s), s.len() as int);
    if digits.len() == 0 || !all_digits(digits) {
        None
    } else if i64::MIN <= signed_value(s) <= i64::MAX {
        Some(signed_value(s))
    } else {
        None
    }
}

/// The decimal text of a number reads back as that number.
pub proof fn lemma_dec_text_value(n: nat)
    ensures
        all_digits(dec_text(n)),
        digits_value(dec_text(n)) == n,
        dec_text(n).len() >= 1,
    decreases n,
{
    if n < 10 {
        let t = dec_text(n);
        assert(t.drop_last() =~= Seq::<char>::empty());
        assert(digits_value(t.drop_last()) == 0);
        assert(t.last() == digit_char(n as int));
        assert(digit_value(digit_char(n as int)) == n);
        assert(digits_value(t) == 0 * 10 + digit_value(t.last()));
    } else {
        lemma_dec_text_value(n / 10);
        let d = (n % 10) as int;
        lemma_digits_value_push(dec_text(n / 10), digit_char(d));
        assert(digit_value(digit_char(d)) == d);
        vstd::arithmetic::div_mod::lemma_fundamental_div_mod(n as int, 10);
        assert(dec_text(n) == dec_text(n / 10).push(digit_char(d)));
        assert(digits_value(dec_text(n)) == (n / 10) * 10 + d);
        let t = dec_text(n);
        assert forall|i: int| 0 <= i < t.len() implies is_digit(#[trigger] t[i]) by {
            if i < t.len() - 1 {
                assert(t[i] == dec_text(n / 10)[i]);
            }
        }
    }
}

/// The decimal text of an `i64` parses back to it.
pub proof fn lemma_parse_int_text(v: int)
    requires
        i64::MIN <= v <= i64::MAX,
    ensures
        parse_i64_spec(int_text(v)) == Some(v),
{
    let t = int_text(v);
    if v >= 0 {
        lemma_dec_text_value(v as nat);
        let d = dec_text(v as nat);
        assert(is_digit(d[0]));
        assert(sign_len(t) == 0);
        assert(t.subrange(0, t.len() as int) =~= t);
    } else {
        lemma_dec_text_value((-v) as nat);
        let d = dec_text((-v) as nat);
        assert(t[0] == '-');
        assert(sign_len(t) == 1);
        assert(t.subrange(1, t.len() as int) =~= d);
    }
}

/// The number of a party, used to compute and open shares: the number itself, the
/// negated number after an `s` (servers), or the parsed text.
pub open spec fn party_number_spec(id: PartyIdView) -> Option<int> {
    match id {
        PartyIdView::Number(n) => Some(n),
        PartyIdView::Text(s) => if s.len() > 0 && s[0] == 's' {
            match parse_i64_spec(s.drop_first()) {
                Some(v) => if v == i64::MIN {
                    None
                } else {
                    Some(-v)
                },
                None => None,
            }
        } else {
            parse_i64_spec(s)
        },
    }
}

proof fn lemma_digits_value_push(s: Seq<char>, c: char)
    ensures
        digits_value(s.push(c)) == digits_value(s) * 10 + digit_value(c),
{
    assert(s.push(c).drop_last() =~= s);
}

proof fn lemma_digits_value_nonneg(s: Seq<char>)
    requires
        forall|i: int| 0 <= i < s.len() ==> is_digit(#[trigger] s[i]),
    ensures
        digits_value(s) >= 0,
        s.len() > 0 ==> digits_value(s) >= digits_value(s.drop_last()) * 10,
    decreases s.len(),
{
    if s.len() > 0 {
        lemma_digits_value_nonneg(s.drop_last());
    }
}

/// Parses a decimal integer from `s[start..]`: an optional sign, then digits.
fn parse_i64_chars(s: &Vec<char>, start: usize) -> (r: Option<i64>)
    requires
        start <= s@.len(),
    ensures
        r matches Some(v) ==> parse_i64_spec(s@.subrange(start as int, s@.len() as int)) == Some(
            v as int,
        ),
        r is None ==> parse_i64_spec(s@.subrange(start as int, s@.len() as int)) is None,
{
    let ghost t = s@.subrange(start as int, s@.len() as int);
    let len = s.len();
    let mut i = start;
    let mut neg = false;
    if i < len {
        let c = s[i];
        if c == '-' || c == '+' {
            neg = c == '-';
            i = i + 1;
        }
    }
    let ghost first: int = i - start;
    assert(first == (if t.len() > 0 && (t[0] == '-' || t[0] == '+') {
        1int
    } else {
        0int
    }));
    assert(neg == (t.len() > 0 && t[0] == '-'));
    if i >= len {
        assert(t.subrange(first, t.len() as int).len() == 0);
        return None;
    }
    let mut mag: u64 = 0;
    let mut overflow = false;
    let ghost digits = t.subrange(first, t.len() as int);
    while i < len
        invariant
            t == s@.subrange(start as int, s@.len() as int),
            len == s@.len(),
            start + first <= i <= len,
            digits == t.subrange(first, t.len() as int),
            first == 0 || first == 1,
            !overflow ==> forall|k: int|
                0 <= k < i - start - first ==> is_digit(#[trigger] digits[k]),
            !overflow ==> mag == digits_value(digits.subrange(0, i - start - first)),
            overflow ==> (exists|k: int| 0 <= k < digits.len() && !is_digit(#[trigger] digits[k]))
                || digits_value(digits) > u64::MAX,
        decreases len - i,
    {
        let c = s[i];
        let ghost k = i - start - first;
        assert(digits[k] == c);
        if !('0' <= c && c <= '9') {
            overflow = true;
            i = len;
        } else {
            let d = (c as u32 - '0' as u32) as u64;
            proof {
                lemma_digits_value_push(digits.subrange(0, k), c);
                assert(digits.subrange(0, k + 1) =~= digits.subrange(0, k).push(c));
            }
            if mag > (u64::MAX - d) / 10 {
                proof {
                    assert(mag * 10 + d > u64::MAX) by (nonlinear_arith)
                        requires
                            mag > (u64::MAX - d) / 10,
                            d <= 9,
                    ;
                    lemma_prefix_value_grows(digits, k + 1);
                }
                overflow = true;
                i = len;
            } else {
                proof {
                    assert(mag * 10 + d <= u64::MAX) by (nonlinear_arith)
                        requires
                            mag <= (u64::MAX - d) / 10,
                            d <= 9,
                    ;
                }
                mag = mag * 10 + d;
                i = i + 1;
            }
        }
    }
    assert(t.subrange(first, t.len() as int) == digits);
    if overflow {
        proof {
            if forall|k: int| 0 <= k < digits.len() ==> is_digit(#[trigger] digits[k]) {
                assert(digits_value(digits) > u64::MAX);
                assert(digits.len() > 0);
                assert(sign_len(t) == first);
                assert(!(i64::MIN <= signed_value(t) <= i64::MAX));
                assert(parse_i64_spec(t) is None);
            } else {
                assert(parse_i64_spec(t) is None);
            }
        }
        return None;
    }
    assert(digits.subrange(0, digits.len() as int) =~= digits);
    if neg {
        if mag > 9223372036854775808 {
            None
        } else if mag == 9223372036854775808 {
            Some(i64::MIN)
        } else {
            Some(-(mag as i64))
        }
    } else if mag > 9223372036854775807 {
        None
    } else {
        Some(mag as i64)
    }
}

/// Parses the text of `s` from `start` as a decimal integer.
fn parse_i64_from(s: &str, start: usize) -> (r: Option<i64>)
    requires
        start <= s@.len(),
    ensures
        r matches Some(v) ==> parse_i64_spec(s@.subrange(start as int, s@.len() as int)) == Some(
            v as int,
        ),
        r is None ==> parse_i64_spec(s@.subrange(start as int, s@.len() as int)) is None,
{
    let len = s.unicode_len();
    let mut chars: Vec<char> = Vec::new();
    let mut i: usize = 0;
    while i < len
        invariant
            i <= len,
            len == s@.len(),
            chars@ == s@.subrange(0, i as int),
        decreases len - i,
    {
        chars.push(s.get_char(i));
        i = i + 1;
        assert(chars@ =~= s@.subrange(0, i as int));
    }
    assert(chars@ =~= s@);
    parse_i64_chars(&chars, start)
}

/// Reads a text as a decimal integer.
pub fn parse_i64_text(s: &String) -> (r: Option<i64>)
    ensures
        match parse_i64_spec(s@) {
            Some(v) => r == Some(v as i64),
            None => r is None,
        },
{
    let r = parse_i64_from(s.as_str(), 0);
    assert(s@.subrange(0, s@.len() as int) =~= s@);
    r
}

/// The characters of ASCII bytes.
pub open spec fn ascii_chars(b: Seq<u8>) -> Seq<char> {
    b.map_values(|x: u8| x as char)
}

/// All bytes are ASCII.
pub open spec fn all_ascii(b: Seq<u8>) -> bool {
    forall|i: int| 0 <= i < b.len() ==> #[trigger] b[i] < 128
}

/// Reads ASCII bytes as a decimal integer (none when a byte is not ASCII).
pub fn parse_i64_bytes(b: &Vec<u8>) -> (r: Option<i64>)
    ensures
        !all_ascii(b@) ==> r is None,
        all_ascii(b@) ==> match parse_i64_spec(ascii_chars(b@)) {
            Some(v) => r == Some(v as i64),
            None => r is None,
        },
{
    let mut chars: Vec<char> = Vec::new();
    let mut i: usize = 0;
    while i < b.len()
        invariant
            i <= b@.len(),
            chars@ == ascii_chars(b@.subrange(0, i as int)),
            all_ascii(b@.subrange(0, i as int)),
        decreases b.len() - i,
    {
        if b[i] >= 128 {
            assert(!all_ascii(b@)) by {
                assert(b@[i as int] >= 128);
            }
            return None;
        }
        chars.push(b[i] as char);
        i = i + 1;
        assert(chars@ =~= ascii_chars(b@.subrange(0, i as int)));
        assert(all_ascii(b@.subrange(0, i as int))) by {
            assert forall|k: int| 0 <= k < i implies #[trigger] b@.subrange(0, i as int)[k] < 128 by {
                if k < i - 1 {
                    assert(b@.subrange(0, i as int)[k] == b@.subrange(0, i - 1)[k]);
                }
            }
        }
    }
    assert(b@.subrange(0, b@.len() as int) =~= b@);
    let r = parse_i64_chars(&chars, 0);
    assert(chars@.subrange(0, chars@.len() as int) =~= chars@);
    r
}

/// The value of a digit string is at least the value of any prefix of it.
proof fn lemma_prefix_value_grows(digits: Seq<char>, k: int)
    requires
        0 <= k <= digits.len(),
    ensures
        (forall|i: int| 0 <= i < digits.len() ==> is_digit(#[trigger] digits[i])) ==> digits_value(
            digits,
        ) >= digits_value(digits.subrange(0, k)),
    decreases digits.len() - k,
{
    if k < digits.len() {
        lemma_prefix_value_grows(digits, k + 1);
        if forall|i: int| 0 <= i < digits.len() ==> is_digit(#[trigger] digits[i]) {
            let p = digits.subrange(0, k + 1);
            assert(p.drop_last() =~= digits.subrange(0, k));
            assert forall|i: int| 0 <= i < p.len() implies is_digit(#[trigger] p[i]) by {
                assert(p[i] == digits[i]);
            }
            lemma_digits_value_nonneg(p);
            assert forall|i: int| 0 <= i < k implies is_digit(
                #[trigger] digits.subrange(0, k)[i],
            ) by {
                assert(digits.subrange(0, k)[i] == digits[i]);
            }
            lemma_digits_value_nonneg(digits.subrange(0, k));
        }
    } else {
        assert(digits.subrange(0, k) =~= digits);
    }
}

/// The number of a party id, when it has one.
pub fn party_number(party_id: &PartyId) -> (r: Option<i64>)
    ensures
        match party_number_spec(party_id@) {
            Some(v) => r == Some(v as i64),
            None => r is None,
        },
{
    match party_id {
        PartyId::Number(n) => Some(*n),
        PartyId::Text(s) => {
            let t = s.as_str();
            if t.unicode_len() > 0 && t.get_char(0) == 's' {
                let v = parse_i64_from(t, 1);
                proof {
                    assert(t@.subrange(1, t@.len() as int) =~= t@.drop_first());
                }
                match v {
                    Some(v) => if v == i64::MIN {
                        None
                    } else {
                        Some(-v)
                    },
                    None => None,
                }
            } else {
                let v = parse_i64_from(t, 0);
                proof {
                    assert(t@.subrange(0, t@.len() as int) =~= t@);
                }
                v
            }
        },
    }
}

/// Gets the party number from a party id: a number stays itself; a text that starts
/// with `s` (a server) gives the negated number that follows; other texts are parsed.
pub fn get_party_number(party_id: &PartyId) -> (r: i64)
    requires
        party_number_spec(party_id@) is Some,
    ensures
        r == party_number_spec(party_id@)->0,
{
    match party_id {
        PartyId::Number(n) => *n,
        PartyId::Text(s) => {
            let t = s.as_str();
            if t.unicode_len() > 0 && t.get_char(0) == 's' {
                let v = parse_i64_from(t, 1);
                proof {
                    assert(t@.subrange(1, t@.len() as int) =~= t@.drop_first());
                }
                match v {
                    Some(v) => -v,
                    None => 0,
                }
            } else {
                let v = parse_i64_from(t, 0);
                proof {
                    assert(t@.subrange(0, t@.len() as int) =~= t@);
                }
                match v {
                    Some(v) => v,
                    None => 0,
                }
            }
        },
    }
}

/// Random bytes from libsodium.
///
/// Calls `sodiumoxide::randombytes::randombytes`, which fills a vector of `size`
/// bytes from libsodium's generator: only the length of the result is stated.
#[verifier::external_body]
fn random_bytes(size: usize) -> (r: Vec<u8>)
    ensures
        r@.len() == size,
{
    sodiumoxide::randombytes::randombytes(size)
}

/// The number of bits needed for values below `max`: the least `k` with `2^k >= max`.
pub open spec fn bits_needed(max: nat) -> nat
    decreases max,
{
    if max <= 1 {
        0
    } else {
        1 + bits_needed(((max + 1) / 2) as nat)
    }
}

/// The big-endian number that a sequence of bytes stands for.
pub open spec fn bytes_value(b: Seq<u8>) -> nat
    decreases b.len(),
{
    if b.len() == 0 {
        0
    } else {
        bytes_value(b.drop_last()) * 256 + b.last() as nat
    }
}

/// The number of random bytes drawn for values below `max`, and the bound `256^bytes`.
pub open spec fn draw_shape(max: nat) -> (nat, nat) {
    let bytes = (bits_needed(max) + 7) / 8;
    (bytes, pow2(8 * bytes) as nat)
}

/// The outcome of one draw of rejection sampling with the random `bytes`: their value
/// modulo `max` when it lies below the largest multiple of `max` that fits, else nothing.
pub open spec fn accept_spec(max: nat, bytes: Seq<u8>) -> Option<u64> {
    let limit = draw_shape(max).1;
    let v = bytes_value(bytes);
    if v < limit - (limit % max) {
        Some((v % max) as u64)
    } else {
        None
    }
}

proof fn lemma_pow2_mono(a: nat, b: nat)
    requires
        a <= b,
    ensures
        pow2(a) <= pow2(b),
{
    if a < b {
        vstd::arithmetic::power2::lemma_pow2_strictly_increases(a, b);
    }
}

proof fn lemma_bits_needed(max: nat, k: nat)
    requires
        1 <= max,
        pow2(k) >= max,
    ensures
        pow2(bits_needed(max)) >= max,
        bits_needed(max) <= k,
        max > 1 ==> pow2((bits_needed(max) - 1) as nat) < max,
    decreases max,
{
    vstd::arithmetic::power2::lemma2_to64();
    if max > 1 {
        let h = ((max + 1) / 2) as nat;
        assert(k > 0);
        vstd::arithmetic::power2::lemma_pow2_unfold(k);
        lemma_bits_needed(h, (k - 1) as nat);
        let bh = bits_needed(h);
        assert(bits_needed(max) == 1 + bh);
        vstd::arithmetic::power2::lemma_pow2_unfold(1 + bh);
        assert(((1 + bh) - 1) as nat == bh);
        if h > 1 {
            vstd::arithmetic::power2::lemma_pow2_unfold(bh);
        }
    }
}

/// One draw of rejection sampling for a uniform number in `[0, max)`: takes the random
/// bytes and returns the number when the draw is accepted.
pub fn random_from_bytes(max: u64, random_bytes: &Vec<u8>) -> (r: Option<u64>)
    requires
        1 <= max <= 562949953421312,
        random_bytes@.len() == draw_shape(max as nat).0,
    ensures
        r == accept_spec(max as nat, random_bytes@),
        r matches Some(v) ==> v < max,
{
    let shape = draw_parameters(max);
    let max_value = shape.1;
    let mut random_value: u64 = 0;
    let mut i: usize = 0;
    proof {
        assert(random_bytes@.subrange(0, 0) =~= Seq::<u8>::empty());
        vstd::arithmetic::power2::lemma2_to64();
    }
    while i < random_bytes.len()
        invariant
            i <= random_bytes@.len(),
            random_bytes@.len() == draw_shape(max as nat).0,
            random_bytes@.len() <= 7,
            random_value == bytes_value(random_bytes@.subrange(0, i as int)),
            bytes_value(random_bytes@.subrange(0, i as int)) < pow2(8 * i as nat),
            max_value == draw_shape(max as nat).1,
        decreases random_bytes.len() - i,
    {
        let ghost pre = random_bytes@.subrange(0, i as int);
        assert(random_bytes@.subrange(0, i + 1).drop_last() =~= pre);
        proof {
            vstd::arithmetic::power2::lemma_pow2_adds(8 * i as nat, 8);
            vstd::arithmetic::power2::lemma2_to64();
            vstd::bits::lemma_u64_pow2_no_overflow(8 * (i + 1) as nat);
            assert(8 * i as nat + 8 == 8 * (i + 1) as nat);
            assert(random_value * 256 + 255 < pow2(8 * (i + 1) as nat)) by (nonlinear_arith)
                requires
                    random_value < pow2(8 * i as nat),
                    pow2(8 * (i + 1) as nat) == pow2(8 * i as nat) * 256,
            ;
        }
        random_value = random_value * 256 + (random_bytes[i] as u64);
        i = i + 1;
    }
    assert(random_bytes@.subrange(0, i as int) =~= random_bytes@);
    if random_value < (max_value - (max_value % max)) {
        return Some(random_value % max);
    }
    None
}

/// The number of bytes to draw for values below `max`, and `256^bytes`.
fn draw_parameters(max: u64) -> (r: (usize, u64))
    requires
        1 <= max <= 562949953421312,
    ensures
        r.0 == draw_shape(max as nat).0,
        r.1 == draw_shape(max as nat).1,
        r.0 <= 7,
        r.1 >= max,
        r.1 == pow2(8 * r.0 as nat),
{
    proof {
        vstd::arithmetic::power2::lemma2_to64();
        vstd::arithmetic::power2::lemma2_to64_rest();
        lemma_bits_needed(max as nat, 49);
    }
    let ghost bn = bits_needed(max as nat);
    let mut bits: u64 = 0;
    loop
        invariant
            bits <= bn,
            bn <= 49,
            pow2(bn) >= max,
            max > 1 ==> pow2((bn - 1) as nat) < max,
            1 <= max,
        ensures
            bits <= bn,
            pow2(bits as nat) >= max,
        decreases 49 - bits,
    {
        proof {
            vstd::bits::lemma_u64_pow2_no_overflow(bits as nat);
            vstd::bits::lemma_u64_shl_is_mul(1, bits);
        }
        if (1u64 << bits) >= max {
            break;
        }
        assert(bits < bn);
        bits = bits + 1;
    }
    proof {
        if bits < bn {
            lemma_pow2_mono(bits as nat, (bn - 1) as nat);
        }
        assert(bits == bn);
    }
    let bytes = ((bits + 7) / 8) as usize;
    let mut max_value: u64 = 1;
    let mut j: usize = 0;
    while j < bytes
        invariant
            j <= bytes,
            bytes <= 7,
            max_value == pow2(8 * j as nat),
        decreases bytes - j,
    {
        proof {
            vstd::arithmetic::power2::lemma_pow2_adds(8 * j as nat, 8);
            vstd::arithmetic::power2::lemma2_to64();
            vstd::bits::lemma_u64_pow2_no_overflow(8 * (j + 1) as nat);
            assert(8 * j as nat + 8 == 8 * (j + 1) as nat);
        }
        max_value = max_value * 256;
        j = j + 1;
    }
    proof {
        lemma_pow2_mono(bits as nat, 8 * bytes as nat);
    }
    (bytes, max_value)
}

/// One draw of rejection sampling for a uniform random number in `[0, max)`:
/// draws random bytes and keeps the number only when the draw is accepted.
pub fn random_attempt(max: u64) -> (r: Option<u64>)
    requires
        1 <= max <= 562949953421312,
    ensures
        exists|b: Seq<u8>| b.len() == draw_shape(max as nat).0 && r == accept_spec(max as nat, b),
        r matches Some(v) ==> v < max,
{
    let shape = draw_parameters(max);
    let bytes = random_bytes(shape.0);
    random_from_bytes(max, &bytes)
}

} // verus!
