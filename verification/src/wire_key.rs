//! The wire text form of log keys: `"{node}-{counter}"`, the counter in
//! canonical decimal.
//!
//! `format_key` renders a key; `parse_key` reads one back, splitting at
//! the last `-` so node names may themselves contain dashes. Parsing
//! accepts exactly the canonical renderings (digits only, no leading
//! zero), so distinct wire keys never collapse onto one key, and
//! formatting then parsing is the identity.

use crate::log::LogKey;
use vstd::prelude::*;
use vstd::string::{StrSliceExecFns, StringExecFns};

verus! {

/// The decimal digit character for `d`.
pub open spec fn digit_char(d: int) -> char {
    if d == 0 {
        '0'
    } else if d == 1 {
        '1'
    } else if d == 2 {
        '2'
    } else if d == 3 {
        '3'
    } else if d == 4 {
        '4'
    } else if d == 5 {
        '5'
    } else if d == 6 {
        '6'
    } else if d == 7 {
        '7'
    } else if d == 8 {
        '8'
    } else {
        '9'
    }
}

/// The value of a decimal digit character, or a negative number for any
/// other character.
pub open spec fn digit_val(c: char) -> int {
    if c == '0' {
        0
    } else if c == '1' {
        1
    } else if c == '2' {
        2
    } else if c == '3' {
        3
    } else if c == '4' {
        4
    } else if c == '5' {
        5
    } else if c == '6' {
        6
    } else if c == '7' {
        7
    } else if c == '8' {
        8
    } else if c == '9' {
        9
    } else {
        -1
    }
}

/// The canonical decimal numeral of `n`.
pub open spec fn dec_rep(n: nat) -> Seq<char>
    decreases n,
{
    if n < 10 {
        seq![digit_char(n as int)]
    } else {
        dec_rep(n / 10) + seq![digit_char((n % 10) as int)]
    }
}

/// The number a digit sequence denotes.
pub open spec fn dec_val(digits: Seq<char>) -> int
    decreases digits.len(),
{
    if digits.len() == 0 {
        0
    } else {
        dec_val(digits.drop_last()) * 10 + digit_val(digits.last())
    }
}

/// Whether `digits` is a canonical numeral: nonempty, digits only, and
/// no leading zero except for `"0"` itself.
pub open spec fn canonical_digits(digits: Seq<char>) -> bool {
    &&& digits.len() > 0
    &&& forall|i: int| 0 <= i < digits.len() ==> digit_val(#[trigger] digits[i]) >= 0
    &&& (digits.len() > 1 ==> digits[0] != '0')
}

/// The index of the last `-` of `s`, or a negative number if there is
/// none.
pub open spec fn last_dash(s: Seq<char>) -> int
    decreases s.len(),
{
    if s.len() == 0 {
        -1
    } else if s.last() == '-' {
        s.len() - 1
    } else {
        last_dash(s.drop_last())
    }
}

/// The wire text of the key `(node, counter)`.
pub open spec fn key_text(node: Seq<char>, counter: nat) -> Seq<char> {
    node + seq!['-'] + dec_rep(counter)
}

/// What a wire string denotes as a key: the text before its last dash
/// and the canonical numeral after it, or nothing when it has no dash
/// or the tail is not canonical.
pub open spec fn spec_parse_key(s: Seq<char>) -> Option<(Seq<char>, nat)> {
    let d = last_dash(s);
    if d < 0 {
        None
    } else {
        let node = s.take(d);
        let digits = s.skip(d + 1);
        if canonical_digits(digits) {
            Some((node, dec_val(digits) as nat))
        } else {
            None
        }
    }
}

/// Appends the digit character for `d`.
fn push_digit(out: &mut String, d: usize)
    requires
        d < 10,
    ensures
        final(out)@ == old(out)@ + seq![digit_char(d as int)],
{
    proof {
        reveal_strlit("0");
        reveal_strlit("1");
        reveal_strlit("2");
        reveal_strlit("3");
        reveal_strlit("4");
        reveal_strlit("5");
        reveal_strlit("6");
        reveal_strlit("7");
        reveal_strlit("8");
        reveal_strlit("9");
    }
    match d {
        0 => out.append("0"),
        1 => out.append("1"),
        2 => out.append("2"),
        3 => out.append("3"),
        4 => out.append("4"),
        5 => out.append("5"),
        6 => out.append("6"),
        7 => out.append("7"),
        8 => out.append("8"),
        _ => out.append("9"),
    }
    proof {
        assert(final(out)@ =~= old(out)@ + seq![digit_char(d as int)]);
    }
}

/// Appends the canonical decimal numeral of `n`.
fn push_decimal(out: &mut String, n: usize)
    ensures
        final(out)@ == old(out)@ + dec_rep(n as nat),
    decreases n,
{
    if n < 10 {
        push_digit(out, n);
    } else {
        push_decimal(out, n / 10);
        push_digit(out, n % 10);
        proof {
            assert(final(out)@ =~= old(out)@ + dec_rep(n as nat));
        }
    }
}

/// Renders a key in its wire form `"{node}-{counter}"`.
pub fn format_key(key: &LogKey) -> (s: String)
    ensures
        s@ == key_text(key.node@, key.counter as nat),
{
    let mut out = key.node.clone();
    proof {
        reveal_strlit("-");
    }
    out.append("-");
    push_decimal(&mut out, key.counter);
    proof {
        assert(out@ =~= key_text(key.node@, key.counter as nat));
    }
    out
}

/// Reads a key from its wire form. Yields nothing when the string has
/// no dash, when what follows its last dash is not a canonical numeral,
/// or when the counter does not fit the machine's word.
pub fn parse_key(s: &str) -> (r: Option<LogKey>)
    ensures
        r matches Some(k) ==> spec_parse_key(s@) == Some((k.node@, k.counter as nat)),
        r is None ==> (spec_parse_key(s@) is None || (spec_parse_key(s@) matches Some(p) && p.1
            > usize::MAX)),
{
    let n = s.unicode_len();
    let mut i: usize = n;
    let mut dash: Option<usize> = None;
    while dash.is_none() && i > 0
        invariant
            n == s@.len(),
            i <= n,
            dash matches Some(dd) ==> (dd < n && s@[dd as int] == '-' && (forall|k: int|
                dd < k < n ==> s@[k] != '-')),
            dash is None ==> forall|k: int| i <= k < n ==> s@[k] != '-',
        decreases i,
    {
        let c = s.get_char(i - 1);
        if c == '-' {
            dash = Some(i - 1);
        }
        i = i - 1;
    }
    let d = match dash {
        Some(d) => {
            proof {
                lemma_last_dash_at(s@, d as int);
            }
            d
        },
        None => {
            proof {
                lemma_no_dash(s@);
            }
            return None;
        },
    };
    let ghost digits = s@.skip(d + 1);
    if d + 1 == n {
        // nothing after the dash
        assert(digits.len() == 0);
        return None;
    }
    if n - d > 2 && s.get_char(d + 1) == '0' {
        // a leading zero is not canonical
        assert(digits[0] == '0' && digits.len() > 1);
        return None;
    }
    let mut value: usize = 0;
    let mut j: usize = d + 1;
    while j < n
        invariant
            n == s@.len(),
            digits == s@.skip(d + 1),
            d + 1 <= j <= n,
            d < n,
            last_dash(s@) == d,
            value == dec_val(digits.take(j - d - 1)),
            forall|k: int| 0 <= k < j - d - 1 ==> digit_val(#[trigger] digits[k]) >= 0,
        decreases n - j,
    {
        let c = s.get_char(j);
        let dv: usize = match c {
            '0' => 0,
            '1' => 1,
            '2' => 2,
            '3' => 3,
            '4' => 4,
            '5' => 5,
            '6' => 6,
            '7' => 7,
            '8' => 8,
            '9' => 9,
            _ => {
                // not a numeral: the key is malformed
                assert(digit_val(digits[j - d - 1]) < 0);
                return None;
            },
        };
        proof {
            let taken = digits.take(j - d);
            assert(taken.drop_last() =~= digits.take(j - d - 1));
            assert(taken.last() == digits[j - d - 1]);
            assert(digit_val(digits[j - d - 1]) == dv);
        }
        let scaled = match value.checked_mul(10) {
            Some(scaled) => scaled,
            None => {
                proof {
                    if canonical_digits(digits) {
                        lemma_dec_val_nonneg(digits.take(j - d - 1));
                        lemma_dec_val_prefix(digits, j - d);
                    }
                }
                return None;
            },
        };
        value = match scaled.checked_add(dv) {
            Some(next) => next,
            None => {
                proof {
                    if canonical_digits(digits) {
                        lemma_dec_val_nonneg(digits.take(j - d - 1));
                        lemma_dec_val_prefix(digits, j - d);
                    }
                }
                return None;
            },
        };
        j = j + 1;
    }
    proof {
        assert(digits.take(n - d - 1) =~= digits);
    }
    let node_str = s.substring_char(0, d);
    let node = String::from_str(node_str);
    proof {
        assert(node@ =~= s@.take(d as int));
    }
    Some(LogKey { node, counter: value })
}

/// A dash with none after it is the last one.
proof fn lemma_last_dash_at(s: Seq<char>, j: int)
    requires
        0 <= j < s.len(),
        s[j] == '-',
        forall|k: int| j < k < s.len() ==> s[k] != '-',
    ensures
        last_dash(s) == j,
    decreases s.len(),
{
    if j < s.len() - 1 {
        lemma_last_dash_at(s.drop_last(), j);
    }
}

/// A string without a dash has no last one.
proof fn lemma_no_dash(s: Seq<char>)
    requires
        forall|k: int| 0 <= k < s.len() ==> s[k] != '-',
    ensures
        last_dash(s) < 0,
    decreases s.len(),
{
    if s.len() > 0 {
        lemma_no_dash(s.drop_last());
    }
}

/// A digit sequence denotes nothing negative.
proof fn lemma_dec_val_nonneg(digits: Seq<char>)
    requires
        forall|i: int| 0 <= i < digits.len() ==> digit_val(#[trigger] digits[i]) >= 0,
    ensures
        dec_val(digits) >= 0,
    decreases digits.len(),
{
    if digits.len() > 0 {
        lemma_dec_val_nonneg(digits.drop_last());
    }
}

/// Reading more digits never shrinks the value.
proof fn lemma_dec_val_prefix(digits: Seq<char>, i: int)
    requires
        0 <= i <= digits.len(),
        forall|k: int| 0 <= k < digits.len() ==> digit_val(#[trigger] digits[k]) >= 0,
    ensures
        dec_val(digits.take(i)) <= dec_val(digits),
    decreases digits.len(),
{
    if i < digits.len() {
        assert(digits.drop_last().take(i) =~= digits.take(i));
        lemma_dec_val_prefix(digits.drop_last(), i);
        lemma_dec_val_nonneg(digits.drop_last());
    } else {
        assert(digits.take(i) =~= digits);
    }
}

/// The canonical numeral of a number is made of digits and starts with
/// a zero only when it is exactly `"0"`.
proof fn lemma_dec_rep_canonical(n: nat)
    ensures
        canonical_digits(dec_rep(n)),
        n > 0 ==> dec_rep(n)[0] != '0',
        forall|i: int| 0 <= i < dec_rep(n).len() ==> dec_rep(n)[i] != '-',
    decreases n,
{
    if n < 10 {
        assert(dec_rep(n) =~= seq![digit_char(n as int)]);
    } else {
        lemma_dec_rep_canonical(n / 10);
        let prefix = dec_rep(n / 10);
        let whole = dec_rep(n);
        assert(whole == prefix + seq![digit_char((n % 10) as int)]);
        assert(n / 10 > 0);
        assert(whole[0] == prefix[0]);
        assert forall|i: int| 0 <= i < whole.len() implies digit_val(#[trigger] whole[i])
            >= 0 by {
            if i < prefix.len() {
                assert(whole[i] == prefix[i]);
            }
        }
        assert forall|i: int| 0 <= i < whole.len() implies #[trigger] whole[i] != '-' by {
            if i < prefix.len() {
                assert(whole[i] == prefix[i]);
            }
        }
    }
}

/// The canonical numeral reads back as the number it renders.
proof fn lemma_dec_val_dec_rep(n: nat)
    ensures
        dec_val(dec_rep(n)) == n,
    decreases n,
{
    if n < 10 {
        let one = seq![digit_char(n as int)];
        assert(dec_rep(n) == one);
        assert(one.drop_last() =~= Seq::<char>::empty());
        assert(one.last() == digit_char(n as int));
        assert(digit_val(digit_char(n as int)) == n);
        assert(dec_val(Seq::<char>::empty()) == 0);
        assert(dec_val(one) == dec_val(one.drop_last()) * 10 + digit_val(one.last()));
        assert(dec_val(one) == n);
    } else {
        lemma_dec_val_dec_rep(n / 10);
        let whole = dec_rep(n);
        assert(whole.drop_last() =~= dec_rep(n / 10));
        assert(whole.last() == digit_char((n % 10) as int));
        assert(digit_val(digit_char((n % 10) as int)) == n % 10);
        assert(dec_val(whole) == dec_val(whole.drop_last()) * 10 + digit_val(whole.last()));
        assert(dec_val(whole) == (n / 10) * 10 + n % 10);
        vstd::arithmetic::div_mod::lemma_fundamental_div_mod(n as int, 10);
        assert(dec_val(whole) == n);
    }
}

/// Round trip: the wire text of any key parses back to exactly that
/// key. Formatting is therefore injective: distinct keys have distinct
/// wire forms.
pub proof fn lemma_parse_key_text(node: Seq<char>, counter: nat)
    ensures
        spec_parse_key(key_text(node, counter)) == Some((node, counter)),
{
    let s = key_text(node, counter);
    let digits = dec_rep(counter);
    lemma_dec_rep_canonical(counter);
    lemma_dec_val_dec_rep(counter);
    assert(s[node.len() as int] == '-');
    assert forall|k: int| node.len() < k < s.len() implies s[k] != '-' by {
        assert(s[k] == digits[k - node.len() - 1]);
    }
    lemma_last_dash_at(s, node.len() as int);
    assert(s.take(node.len() as int) =~= node);
    assert(s.skip(node.len() + 1 as int) =~= digits);
}

} // verus!
