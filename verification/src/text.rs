//! Byte-string utilities for the engine's textual surface: case-insensitive
//! coin symbols, table-name validation, status words, and the 24-digit
//! hexadecimal record identifiers.

use vstd::prelude::*;
use crate::position::{Side, Status};

verus! {

/// Record identifiers are 96-bit values written as 24 hexadecimal digits.
pub const ID_LIMIT: u128 = 0x1_0000_0000_0000_0000_0000_0000;

/// The byte with any lower-case ASCII letter folded to upper case.
pub open spec fn spec_upper_byte(b: u8) -> u8 {
    if 97 <= b <= 122 {
        (b - 32) as u8
    } else {
        b
    }
}

/// The sequence with every lower-case ASCII letter folded to upper case.
pub open spec fn spec_upper(s: Seq<u8>) -> Seq<u8> {
    s.map_values(|b: u8| spec_upper_byte(b))
}

/// Bytes allowed in a normalized coin symbol: upper-case letters and digits.
pub open spec fn spec_is_symbol_byte(b: u8) -> bool {
    (65 <= b <= 90) || (48 <= b <= 57)
}

/// A usable coin symbol: non-empty, upper-case letters and digits only.
pub open spec fn spec_valid_symbol(s: Seq<u8>) -> bool {
    &&& 0 < s.len()
    &&& forall|i: int| 0 <= i < s.len() ==> spec_is_symbol_byte(#[trigger] s[i])
}

/// Bytes allowed in a table name: ASCII letters, digits and underscore.
pub open spec fn spec_is_table_byte(b: u8) -> bool {
    (65 <= b <= 90) || (97 <= b <= 122) || (48 <= b <= 57) || b == 95
}

/// A usable table name: non-empty, letters, digits and underscores only.
pub open spec fn spec_valid_table_name(s: Seq<u8>) -> bool {
    &&& 0 < s.len()
    &&& forall|i: int| 0 <= i < s.len() ==> spec_is_table_byte(#[trigger] s[i])
}

/// Value of an ASCII hexadecimal digit, or 16 for any other byte.
pub open spec fn spec_hex_digit(b: u8) -> u8 {
    if 48 <= b <= 57 {
        (b - 48) as u8
    } else if 97 <= b <= 102 {
        (b - 87) as u8
    } else if 65 <= b <= 70 {
        (b - 55) as u8
    } else {
        16
    }
}

pub open spec fn spec_is_hex_byte(b: u8) -> bool {
    spec_hex_digit(b) < 16
}

/// Numeric value of a big-endian sequence of hexadecimal digits.
pub open spec fn spec_hex_value(s: Seq<u8>) -> nat
    decreases s.len(),
{
    if s.len() == 0 {
        0
    } else {
        spec_hex_value(s.drop_last()) * 16 + spec_hex_digit(s.last()) as nat
    }
}

/// An identifier in its textual form: exactly 24 hexadecimal digits.
pub open spec fn spec_valid_id_text(s: Seq<u8>) -> bool {
    &&& s.len() == 24
    &&& forall|i: int| 0 <= i < s.len() ==> spec_is_hex_byte(#[trigger] s[i])
}

/// Fold a byte sequence to upper case.
pub fn to_upper(s: &Vec<u8>) -> (r: Vec<u8>)
    ensures
        r@ == spec_upper(s@),
{
    let mut r: Vec<u8> = Vec::new();
    let mut i: usize = 0;
    while i < s.len()
        invariant
            i <= s.len(),
            r@ == spec_upper(s@.take(i as int)),
        decreases s.len() - i,
    {
        let b = s[i];
        let u: u8 = if 97 <= b && b <= 122 {
            b - 32
        } else {
            b
        };
        r.push(u);
        proof {
            assert(s@.take(i + 1 as int).drop_last() =~= s@.take(i as int));
            assert(spec_upper(s@.take(i + 1 as int)) =~= spec_upper(s@.take(i as int)).push(
                spec_upper_byte(s@[i as int]),
            ));
        }
        i = i + 1;
    }
    proof {
        assert(s@.take(s@.len() as int) =~= s@);
    }
    r
}

/// Whether the bytes form a usable normalized coin symbol.
pub fn symbol_ok(s: &Vec<u8>) -> (r: bool)
    ensures
        r == spec_valid_symbol(s@),
{
    if s.len() == 0 {
        return false;
    }
    let mut i: usize = 0;
    while i < s.len()
        invariant
            i <= s.len(),
            0 < s@.len(),
            forall|j: int| 0 <= j < i ==> spec_is_symbol_byte(#[trigger] s@[j]),
        decreases s.len() - i,
    {
        let b = s[i];
        if !((65 <= b && b <= 90) || (48 <= b && b <= 57)) {
            return false;
        }
        i = i + 1;
    }
    true
}

/// Whether the bytes form a usable table name; the transport layer falls back
/// to its default table when this is false.
pub fn table_name_ok(s: &Vec<u8>) -> (r: bool)
    ensures
        r == spec_valid_table_name(s@),
{
    if s.len() == 0 {
        return false;
    }
    let mut i: usize = 0;
    while i < s.len()
        invariant
            i <= s.len(),
            0 < s@.len(),
            forall|j: int| 0 <= j < i ==> spec_is_table_byte(#[trigger] s@[j]),
        decreases s.len() - i,
    {
        let b = s[i];
        if !((65 <= b && b <= 90) || (97 <= b && b <= 122) || (48 <= b && b <= 57) || b == 95) {
            return false;
        }
        i = i + 1;
    }
    true
}

/// Whether two byte strings hold the same bytes.
pub fn bytes_eq(a: &Vec<u8>, b: &Vec<u8>) -> (r: bool)
    ensures
        r == (a@ == b@),
{
    if a.len() != b.len() {
        return false;
    }
    let mut i: usize = 0;
    while i < a.len()
        invariant
            i <= a.len(),
            a@.len() == b@.len(),
            forall|j: int| 0 <= j < i ==> a@[j] == b@[j],
        decreases a.len() - i,
    {
        if a[i] != b[i] {
            return false;
        }
        i = i + 1;
    }
    proof {
        assert(a@ =~= b@);
    }
    true
}

/// Copy a byte string.
pub fn copy_bytes(s: &Vec<u8>) -> (r: Vec<u8>)
    ensures
        r@ == s@,
{
    let mut r: Vec<u8> = Vec::new();
    let mut i: usize = 0;
    while i < s.len()
        invariant
            i <= s.len(),
            r@ == s@.take(i as int),
        decreases s.len() - i,
    {
        r.push(s[i]);
        proof {
            assert(s@.take(i + 1 as int) =~= s@.take(i as int).push(s@[i as int]));
        }
        i = i + 1;
    }
    proof {
        assert(s@.take(s@.len() as int) =~= s@);
    }
    r
}

/// Parse a textual record identifier: exactly 24 hexadecimal digits, either
/// letter case. Returns the identifier's numeric value, or nothing when the
/// text is malformed.
pub fn parse_id(s: &Vec<u8>) -> (r: Option<u128>)
    ensures
        spec_valid_id_text(s@) ==> r == Some(spec_hex_value(s@) as u128),
        !spec_valid_id_text(s@) ==> r is None,
        r matches Some(v) ==> v < ID_LIMIT,
{
    if s.len() != 24 {
        return None;
    }
    let mut acc: u128 = 0;
    let mut i: usize = 0;
    while i < 24
        invariant
            i <= 24,
            s@.len() == 24,
            forall|j: int| 0 <= j < i ==> spec_is_hex_byte(#[trigger] s@[j]),
            acc == spec_hex_value(s@.take(i as int)),
        decreases 24 - i,
    {
        let b = s[i];
        let d: u8 = if 48 <= b && b <= 57 {
            b - 48
        } else if 97 <= b && b <= 102 {
            b - 87
        } else if 65 <= b && b <= 70 {
            b - 55
        } else {
            return None;
        };
        proof {
            lemma_hex_value_bound(s@.take(i as int));
            lemma_pow16_increases(i as nat, 23);
            lemma_pow16_24();
            assert(acc * 16 + 15 < pow16(24)) by (nonlinear_arith)
                requires
                    acc < pow16(i as nat),
                    pow16(i as nat) <= pow16(23),
                    pow16(24) == 16 * pow16(23),
            ;
            assert(s@.take(i + 1 as int).drop_last() =~= s@.take(i as int));
            assert(s@.take(i + 1 as int).last() == s@[i as int]);
        }
        acc = acc * 16 + d as u128;
        i = i + 1;
    }
    proof {
        assert(s@.take(24) =~= s@);
        lemma_hex_value_bound(s@);
        lemma_pow16_24();
    }
    Some(acc)
}

/// 16 to the 24th power is the identifier limit.
pub proof fn lemma_pow16_24()
    ensures
        pow16(24) == 0x1_0000_0000_0000_0000_0000_0000,
        pow16(23) == 0x1000_0000_0000_0000_0000_0000,
{
    reveal_with_fuel(pow16, 25);
}

/// 16 raised to the given power.
pub open spec fn pow16(n: nat) -> nat
    decreases n,
{
    if n == 0 {
        1
    } else {
        16 * pow16((n - 1) as nat)
    }
}

/// A sequence of hexadecimal digits is worth less than 16 to the power of its
/// length.
pub proof fn lemma_hex_value_bound(s: Seq<u8>)
    requires
        forall|i: int| 0 <= i < s.len() ==> spec_is_hex_byte(#[trigger] s[i]),
    ensures
        spec_hex_value(s) < pow16(s.len()),
    decreases s.len(),
{
    if s.len() == 0 {
    } else {
        assert(forall|i: int|
            0 <= i < s.drop_last().len() ==> spec_is_hex_byte(#[trigger] s.drop_last()[i]));
        lemma_hex_value_bound(s.drop_last());
        assert(s.last() == s[s.len() - 1]);
        assert(spec_hex_digit(s.last()) <= 15);
        assert(spec_hex_value(s.drop_last()) * 16 + 15 <= (pow16((s.len() - 1) as nat) - 1) * 16
            + 15) by (nonlinear_arith)
            requires
                spec_hex_value(s.drop_last()) <= pow16((s.len() - 1) as nat) - 1,
        ;
        assert(pow16(s.len()) == 16 * pow16((s.len() - 1) as nat));
    }
}

/// Powers of 16 grow with the exponent.
pub proof fn lemma_pow16_increases(a: nat, b: nat)
    requires
        a <= b,
    ensures
        pow16(a) <= pow16(b),
    decreases b,
{
    if a < b {
        lemma_pow16_increases(a, (b - 1) as nat);
        assert(pow16(b) == 16 * pow16((b - 1) as nat));
    }
}

/// Render an identifier as 24 lower-case hexadecimal digits.
pub fn format_id(id: u128) -> (r: Vec<u8>)
    requires
        id < ID_LIMIT,
    ensures
        spec_valid_id_text(r@),
        spec_hex_value(r@) == id,
{
    let mut digits: Vec<u8> = Vec::new();
    let mut rest: u128 = id;
    let mut i: usize = 0;
    proof {
        assert(pow16(0) == 1);
    }
    while i < 24
        invariant
            i <= 24,
            digits@.len() == i,
            forall|j: int| 0 <= j < i ==> spec_is_hex_byte(#[trigger] digits@[j]),
            rest < ID_LIMIT,
            id == rest as int * pow16(i as nat) + spec_hex_rev_value(digits@),
        decreases 24 - i,
    {
        let ghost rest0 = rest as int;
        let d: u8 = (rest % 16) as u8;
        let c: u8 = if d < 10 {
            d + 48
        } else {
            d + 87
        };
        proof {
            assert(spec_hex_digit(c) == d);
            vstd::arithmetic::div_mod::lemma_fundamental_div_mod(rest as int, 16);
            lemma_rev_push(digits@, c, i as nat);
            assert(pow16((i + 1) as nat) == 16 * pow16(i as nat));
            assert((16 * (rest0 / 16) + rest0 % 16) * pow16(i as nat) == (rest0 / 16) * (16
                * pow16(i as nat)) + (rest0 % 16) * pow16(i as nat)) by (nonlinear_arith);
        }
        digits.push(c);
        rest = rest / 16;
        i = i + 1;
    }
    proof {
        lemma_pow16_24();
        if rest > 0 {
            assert(rest as int * pow16(24) >= pow16(24)) by (nonlinear_arith)
                requires
                    rest >= 1,
                    pow16(24) > 0,
            ;
        }
        assert(rest == 0);
        assert(spec_hex_rev_value(digits@) == id);
    }
    // digits now holds the hexadecimal digits least-significant first
    let mut r: Vec<u8> = Vec::new();
    let mut k: usize = 24;
    while k > 0
        invariant
            k <= 24,
            digits@.len() == 24,
            forall|j: int| 0 <= j < digits@.len() ==> spec_is_hex_byte(#[trigger] digits@[j]),
            r@.len() == 24 - k,
            forall|j: int| 0 <= j < r@.len() ==> r@[j] == digits@[23 - j],
        decreases k,
    {
        k = k - 1;
        r.push(digits[k]);
    }
    proof {
        assert(r@ =~= digits@.reverse());
        lemma_rev_value(digits@);
        assert(forall|j: int| 0 <= j < r@.len() ==> spec_is_hex_byte(#[trigger] r@[j]));
    }
    r
}

/// Numeric value of a little-endian (least-significant first) digit sequence.
pub open spec fn spec_hex_rev_value(s: Seq<u8>) -> nat
    decreases s.len(),
{
    if s.len() == 0 {
        0
    } else {
        spec_hex_digit(s[0]) as nat + 16 * spec_hex_rev_value(s.skip(1))
    }
}

/// Appending a digit to a little-endian sequence adds it at the next power.
pub proof fn lemma_rev_push(s: Seq<u8>, c: u8, n: nat)
    requires
        s.len() == n,
    ensures
        spec_hex_rev_value(s.push(c)) == spec_hex_rev_value(s) + spec_hex_digit(c) as nat * pow16(
            n,
        ),
    decreases n,
{
    if n == 0 {
        assert(s.push(c)[0] == c);
        assert(s.push(c).skip(1) =~= Seq::<u8>::empty());
        assert(spec_hex_rev_value(Seq::<u8>::empty()) == 0);
        assert(pow16(0) == 1);
        assert(spec_hex_rev_value(s.push(c)) == spec_hex_digit(c) as nat);
        assert(spec_hex_rev_value(s) == 0);
    } else {
        assert(s.push(c)[0] == s[0]);
        assert(s.push(c).skip(1) =~= s.skip(1).push(c));
        lemma_rev_push(s.skip(1), c, (n - 1) as nat);
        assert(pow16(n) == 16 * pow16((n - 1) as nat));
        let r1 = spec_hex_rev_value(s.skip(1)) as int;
        let dc = spec_hex_digit(c) as int;
        let p1 = pow16((n - 1) as nat) as int;
        let d0 = spec_hex_digit(s[0]) as int;
        assert(spec_hex_rev_value(s.push(c)) as int == d0 + 16 * (r1 + dc * p1));
        assert(d0 + 16 * (r1 + dc * p1) == (d0 + 16 * r1) + dc * (16 * p1)) by (nonlinear_arith);
        assert(spec_hex_rev_value(s) as int == d0 + 16 * r1);
        assert(spec_hex_digit(c) as int * pow16(n) as int == dc * (16 * p1));
    }
}

/// A little-endian digit sequence read in reverse has the big-endian value.
pub proof fn lemma_rev_value(s: Seq<u8>)
    ensures
        spec_hex_value(s.reverse()) == spec_hex_rev_value(s),
    decreases s.len(),
{
    if s.len() == 0 {
        assert(s.reverse() =~= Seq::<u8>::empty());
    } else {
        lemma_rev_value(s.skip(1));
        assert(s.reverse().drop_last() =~= s.skip(1).reverse());
        assert(s.reverse().last() == s[0]);
    }
}

/// Canonical reading of a status word, case-insensitively: the word "open"
/// is the open state; "close", and its common long form "closed", the
/// closed state; anything else is no status at all.
pub open spec fn spec_status_word(s: Seq<u8>) -> Option<Status> {
    if spec_upper(s) == seq![79u8, 80u8, 69u8, 78u8] {
        Some(Status::Open)
    } else if spec_upper(s) == seq![67u8, 76u8, 79u8, 83u8, 69u8] || spec_upper(s) == seq![
        67u8,
        76u8,
        79u8,
        83u8,
        69u8,
        68u8,
    ] {
        Some(Status::Closed)
    } else {
        None
    }
}

/// Read a query's status word.
pub fn parse_status_word(s: &Vec<u8>) -> (r: Option<Status>)
    ensures
        r == spec_status_word(s@),
{
    let u = to_upper(s);
    let open_w: Vec<u8> = vec![79u8, 80u8, 69u8, 78u8];
    let close_w: Vec<u8> = vec![67u8, 76u8, 79u8, 83u8, 69u8];
    let closed_w: Vec<u8> = vec![67u8, 76u8, 79u8, 83u8, 69u8, 68u8];
    proof {
        assert(open_w@ =~= seq![79u8, 80u8, 69u8, 78u8]);
        assert(close_w@ =~= seq![67u8, 76u8, 79u8, 83u8, 69u8]);
        assert(closed_w@ =~= seq![67u8, 76u8, 79u8, 83u8, 69u8, 68u8]);
    }
    if bytes_eq(&u, &open_w) {
        Some(Status::Open)
    } else if bytes_eq(&u, &close_w) || bytes_eq(&u, &closed_w) {
        Some(Status::Closed)
    } else {
        None
    }
}

} // verus!


verus! {

/// Canonical reading of a side word, case-insensitively: the word "long" or
/// the word "short"; anything else is no side at all.
pub open spec fn spec_side_word(s: Seq<u8>) -> Option<Side> {
    if spec_upper(s) == seq![76u8, 79u8, 78u8, 71u8] {
        Some(Side::Long)
    } else if spec_upper(s) == seq![83u8, 72u8, 79u8, 82u8, 84u8] {
        Some(Side::Short)
    } else {
        None
    }
}

/// Read a query's side word.
pub fn parse_side_word(s: &Vec<u8>) -> (r: Option<Side>)
    ensures
        r == spec_side_word(s@),
{
    let u = to_upper(s);
    let long_w: Vec<u8> = vec![76u8, 79u8, 78u8, 71u8];
    let short_w: Vec<u8> = vec![83u8, 72u8, 79u8, 82u8, 84u8];
    proof {
        assert(long_w@ =~= seq![76u8, 79u8, 78u8, 71u8]);
        assert(short_w@ =~= seq![83u8, 72u8, 79u8, 82u8, 84u8]);
    }
    if bytes_eq(&u, &long_w) {
        Some(Side::Long)
    } else if bytes_eq(&u, &short_w) {
        Some(Side::Short)
    } else {
        None
    }
}

/// Strict lexicographic order on byte strings: a proper prefix comes before
/// its extensions, and otherwise the first differing byte decides.
pub open spec fn spec_lex_lt(a: Seq<u8>, b: Seq<u8>) -> bool
    decreases a.len() + b.len(),
{
    if b.len() == 0 {
        false
    } else if a.len() == 0 {
        true
    } else if a[0] < b[0] {
        true
    } else if a[0] > b[0] {
        false
    } else {
        spec_lex_lt(a.skip(1), b.skip(1))
    }
}

/// Of two distinct byte strings, one comes strictly before the other.
pub proof fn lemma_lex_trichotomy(a: Seq<u8>, b: Seq<u8>)
    requires
        a != b,
    ensures
        spec_lex_lt(a, b) || spec_lex_lt(b, a),
    decreases a.len() + b.len(),
{
    if a.len() == 0 && b.len() == 0 {
        assert(a =~= b);
    } else if a.len() == 0 || b.len() == 0 {
    } else {
        if a[0] == b[0] {
            if a.skip(1) == b.skip(1) {
                assert(a.skip(1).len() == a.len() - 1);
                assert(b.skip(1).len() == b.len() - 1);
                assert(a.len() == b.len());
                assert forall|i: int| 0 <= i < a.len() implies a[i] == b[i] by {
                    if i > 0 {
                        assert(a.skip(1)[i - 1] == a[i]);
                        assert(b.skip(1)[i - 1] == b[i]);
                    }
                }
                assert(a =~= b);
            }
            lemma_lex_trichotomy(a.skip(1), b.skip(1));
        }
    }
}

/// The lexicographic order is transitive.
pub proof fn lemma_lex_transitive(a: Seq<u8>, b: Seq<u8>, c: Seq<u8>)
    requires
        spec_lex_lt(a, b),
        spec_lex_lt(b, c),
    ensures
        spec_lex_lt(a, c),
    decreases a.len() + b.len() + c.len(),
{
    if a.len() == 0 {
    } else {
        if a[0] == b[0] && b[0] == c[0] {
            lemma_lex_transitive(a.skip(1), b.skip(1), c.skip(1));
        }
    }
}

/// Whether the first byte string comes strictly before the second in the
/// lexicographic order.
pub fn bytes_lt(a: &Vec<u8>, b: &Vec<u8>) -> (r: bool)
    ensures
        r == spec_lex_lt(a@, b@),
{
    let n: usize = if a.len() < b.len() {
        a.len()
    } else {
        b.len()
    };
    let mut i: usize = 0;
    proof {
        assert(a@.skip(0int) =~= a@);
        assert(b@.skip(0int) =~= b@);
    }
    while i < n
        invariant
            i <= n,
            n <= a@.len(),
            n <= b@.len(),
            n == a@.len() || n == b@.len(),
            spec_lex_lt(a@, b@) == spec_lex_lt(a@.skip(i as int), b@.skip(i as int)),
        decreases n - i,
    {
        proof {
            assert(a@.skip(i as int)[0] == a@[i as int]);
            assert(b@.skip(i as int)[0] == b@[i as int]);
        }
        if a[i] < b[i] {
            return true;
        }
        if a[i] > b[i] {
            return false;
        }
        proof {
            assert(a@.skip(i as int).skip(1) =~= a@.skip(i + 1 as int));
            assert(b@.skip(i as int).skip(1) =~= b@.skip(i + 1 as int));
        }
        i = i + 1;
    }
    proof {
        assert(a@.skip(n as int).len() == a@.len() - n);
        assert(b@.skip(n as int).len() == b@.len() - n);
    }
    a.len() < b.len()
}

/// The prefix that marks a table as the store's own: the word "system"
/// followed by a dot.
pub open spec fn spec_internal_prefix() -> Seq<u8> {
    seq![115u8, 121u8, 115u8, 116u8, 101u8, 109u8, 46u8]
}

/// A table name the store keeps for itself.
pub open spec fn spec_is_internal_table(name: Seq<u8>) -> bool {
    name.len() >= 7 && name.take(7) == spec_internal_prefix()
}

/// Whether the name begins with the store's internal prefix.
fn has_internal_prefix(name: &Vec<u8>) -> (r: bool)
    ensures
        r == spec_is_internal_table(name@),
{
    if name.len() < 7 {
        return false;
    }
    let prefix: Vec<u8> = vec![115u8, 121u8, 115u8, 116u8, 101u8, 109u8, 46u8];
    proof {
        assert(prefix@ =~= spec_internal_prefix());
    }
    let mut t: usize = 0;
    while t < 7
        invariant
            t <= 7,
            name@.len() >= 7,
            prefix@ == spec_internal_prefix(),
            forall|u: int| 0 <= u < t ==> name@[u] == spec_internal_prefix()[u],
        decreases 7 - t,
    {
        if name[t] != prefix[t] {
            proof {
                assert(name@.take(7)[t as int] == name@[t as int]);
                assert(name@.take(7) != spec_internal_prefix());
            }
            return false;
        }
        t = t + 1;
    }
    proof {
        assert(name@.take(7) =~= spec_internal_prefix());
    }
    true
}

/// Drop the store's own tables from a listing, keeping the callers' tables
/// in their listed order.
pub fn visible_tables(names: Vec<Vec<u8>>) -> (r: Vec<Vec<u8>>)
    ensures
        r@ == names@.filter(|n: Vec<u8>| !spec_is_internal_table(n@)),
{
    let ghost orig = names@;
    let ghost g_keep = |n: Vec<u8>| !spec_is_internal_table(n@);
    let mut rest = names;
    let mut kept: Vec<Vec<u8>> = Vec::new();
    let mut k: usize = 0;
    let n = rest.len();
    proof {
        assert(orig.take(0int).filter(g_keep) =~= Seq::<Vec<u8>>::empty());
        assert(kept@ =~= orig.take(0int).filter(g_keep));
        assert(rest@ =~= orig.skip(0int));
    }
    while k < n
        invariant
            n == orig.len(),
            k <= n,
            rest@ == orig.skip(k as int),
            g_keep == (|n2: Vec<u8>| !spec_is_internal_table(n2@)),
            kept@ == orig.take(k as int).filter(g_keep),
        decreases n - k,
    {
        let name = rest.remove(0);
        proof {
            assert(orig.skip(k as int)[0] == orig[k as int]);
            assert(rest@ =~= orig.skip(k + 1 as int));
        }
        let is_internal = has_internal_prefix(&name);
        proof {
            assert(orig.take(k + 1 as int).drop_last() =~= orig.take(k as int));
            assert(orig.take(k + 1 as int).last() == orig[k as int]);
            reveal(Seq::filter);
            assert(is_internal == spec_is_internal_table(orig[k as int]@));
        }
        if !is_internal {
            kept.push(name);
        }
        k = k + 1;
    }
    proof {
        assert(orig.take(n as int) =~= orig);
    }
    kept
}

} // verus!
