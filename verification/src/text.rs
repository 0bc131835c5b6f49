//! Plain-text helpers shared by the registry codec and the samplers:
//! decimal numerals, splitting and joining on a separator character,
//! and small string predicates, each with a matching specification.

use vstd::prelude::*;

verus! {

// ---------------------------------------------------------------------------
// Decimal digits
// ---------------------------------------------------------------------------

/// The ten decimal digit characters.
pub open spec fn is_digit_char(c: char) -> bool {
    c == '0' || c == '1' || c == '2' || c == '3' || c == '4' || c == '5' || c == '6' || c == '7'
        || c == '8' || c == '9'
}

/// Numeric value of a digit character.
pub open spec fn digit_char_val(c: char) -> int {
    if c == '0' {
        0
    } else if c == '1' {
        1
    } else if c == '2' {
        2
    } else if c == '3' {
        3
    } else if c == '4' {
        4
    } else if c == '5' {
        5
    } else if c == '6' {
        6
    } else if c == '7' {
        7
    } else if c == '8' {
        8
    } else {
        9
    }
}

/// Digit character of a value below ten.
pub open spec fn dec_digit(d: int) -> char {
    if d == 0 {
        '0'
    } else if d == 1 {
        '1'
    } else if d == 2 {
        '2'
    } else if d == 3 {
        '3'
    } else if d == 4 {
        '4'
    } else if d == 5 {
        '5'
    } else if d == 6 {
        '6'
    } else if d == 7 {
        '7'
    } else if d == 8 {
        '8'
    } else {
        '9'
    }
}

/// Every character of `s` is a decimal digit.
pub open spec fn all_digits(s: Seq<char>) -> bool {
    forall|i: int| 0 <= i < s.len() ==> is_digit_char(#[trigger] s[i])
}

/// Value of a digit string, most significant digit first.
pub open spec fn dec_val(s: Seq<char>) -> int
    decreases s.len(),
{
    if s.len() == 0 {
        0
    } else {
        dec_val(s.drop_last()) * 10 + digit_char_val(s.last())
    }
}

/// The canonical decimal numeral of a natural number.
pub open spec fn u64_dec(n: nat) -> Seq<char>
    decreases n,
{
    if n < 10 {
        seq![dec_digit(n as int)]
    } else {
        u64_dec(n / 10).push(dec_digit((n % 10) as int))
    }
}

pub proof fn lemma_u64_dec_digits(n: nat)
    ensures
        u64_dec(n).len() >= 1,
        all_digits(u64_dec(n)),
    decreases n,
{
    if n >= 10 {
        lemma_u64_dec_digits(n / 10);
        assert forall|i: int| 0 <= i < u64_dec(n).len() implies is_digit_char(
            #[trigger] u64_dec(n)[i],
        ) by {
            if i < u64_dec(n / 10).len() {
                assert(u64_dec(n)[i] == u64_dec(n / 10)[i]);
            }
        }
    }
}

pub proof fn lemma_dec_val_u64_dec(n: nat)
    ensures
        dec_val(u64_dec(n)) == n,
    decreases n,
{
    if n < 10 {
        let s = u64_dec(n);
        assert(s.drop_last() =~= Seq::<char>::empty());
        assert(s.last() == dec_digit(n as int));
        assert(digit_char_val(dec_digit(n as int)) == n);
        assert(dec_val(s) == dec_val(s.drop_last()) * 10 + digit_char_val(s.last()));
    } else {
        lemma_dec_val_u64_dec(n / 10);
        lemma_u64_dec_digits(n / 10);
        let s = u64_dec(n);
        assert(s.drop_last() =~= u64_dec(n / 10));
        assert(s.last() == dec_digit((n % 10) as int));
    }
}

pub proof fn lemma_dec_val_nonneg(s: Seq<char>)
    requires
        all_digits(s),
    ensures
        dec_val(s) >= 0,
    decreases s.len(),
{
    if s.len() > 0 {
        assert(all_digits(s.drop_last())) by {
            assert(forall|i: int|
                0 <= i < s.drop_last().len() ==> s.drop_last()[i] == #[trigger] s[i]);
        }
        lemma_dec_val_nonneg(s.drop_last());
    }
}

/// The value of a proper prefix of a digit string never exceeds the whole.
pub proof fn lemma_dec_val_prefix(s: Seq<char>, j: int)
    requires
        all_digits(s),
        0 <= j <= s.len(),
    ensures
        dec_val(s.subrange(0, j)) <= dec_val(s),
    decreases s.len() - j,
{
    if j == s.len() {
        assert(s.subrange(0, j) =~= s);
    } else {
        lemma_dec_val_prefix(s, j + 1);
        let p = s.subrange(0, j + 1);
        assert(p.drop_last() =~= s.subrange(0, j));
        assert(p.last() == s[j]);
        assert(all_digits(s.subrange(0, j))) by {
            assert(forall|i: int|
                0 <= i < j ==> s.subrange(0, j)[i] == #[trigger] s[i]);
        }
        lemma_dec_val_nonneg(s.subrange(0, j));
        assert(dec_val(s.subrange(0, j)) <= dec_val(p));
    }
}

/// What a decimal field of the registry parses to: at least one character,
/// digits only, value within `u64`.
pub open spec fn parse_u64_spec(s: Seq<char>) -> Option<u64> {
    if s.len() >= 1 && all_digits(s) && dec_val(s) <= u64::MAX {
        Some(dec_val(s) as u64)
    } else {
        None
    }
}

/// The numeral of a number parses back to it.
pub proof fn lemma_u64_roundtrip(n: u64)
    ensures
        parse_u64_spec(u64_dec(n as nat)) == Some(n),
{
    lemma_u64_dec_digits(n as nat);
    lemma_dec_val_u64_dec(n as nat);
}

// ---------------------------------------------------------------------------
// Executable digit conversions
// ---------------------------------------------------------------------------

/// Relies on `String::push` from the standard library: appends one character.
#[verifier::external_body]
pub fn push_char(s: &mut String, c: char)
    ensures
        final(s)@ == old(s)@.push(c),
{
    s.push(c);
}

pub fn digit_to_char(d: u64) -> (c: char)
    requires
        d < 10,
    ensures
        c == dec_digit(d as int),
{
    if d == 0 {
        '0'
    } else if d == 1 {
        '1'
    } else if d == 2 {
        '2'
    } else if d == 3 {
        '3'
    } else if d == 4 {
        '4'
    } else if d == 5 {
        '5'
    } else if d == 6 {
        '6'
    } else if d == 7 {
        '7'
    } else if d == 8 {
        '8'
    } else {
        '9'
    }
}

pub fn char_to_digit(c: char) -> (r: Option<u64>)
    ensures
        r is Some <==> is_digit_char(c),
        r is Some ==> r->Some_0 == digit_char_val(c),
{
    match c {
        '0' => Some(0),
        '1' => Some(1),
        '2' => Some(2),
        '3' => Some(3),
        '4' => Some(4),
        '5' => Some(5),
        '6' => Some(6),
        '7' => Some(7),
        '8' => Some(8),
        '9' => Some(9),
        _ => None,
    }
}

pub fn u64_to_string(n: u64) -> (s: String)
    ensures
        s@ == u64_dec(n as nat),
    decreases n,
{
    if n < 10 {
        let mut s = String::new();
        push_char(&mut s, digit_to_char(n));
        proof {
            assert(s@ =~= u64_dec(n as nat));
        }
        s
    } else {
        let mut s = u64_to_string(n / 10);
        push_char(&mut s, digit_to_char(n % 10));
        proof {
            assert(s@ =~= u64_dec(n as nat));
        }
        s
    }
}

pub fn parse_u64_str(s: &str) -> (r: Option<u64>)
    ensures
        r == parse_u64_spec(s@),
{
    let n = s.unicode_len();
    if n == 0 {
        return None;
    }
    let mut acc: u64 = 0;
    let mut i: usize = 0;
    while i < n
        invariant
            0 <= i <= n,
            n == s@.len(),
            all_digits(s@.subrange(0, i as int)),
            acc == dec_val(s@.subrange(0, i as int)),
        decreases n - i,
    {
        let c = s.get_char(i);
        match char_to_digit(c) {
            None => {
                assert(!is_digit_char(s@[i as int]));
                return None;
            },
            Some(d) => {
                proof {
                    let p = s@.subrange(0, i + 1);
                    assert(p.drop_last() =~= s@.subrange(0, i as int));
                    assert(p.last() == s@[i as int]);
                }
                let next = acc.checked_mul(10);
                match next {
                    None => {
                        proof {
                            overflow_means_none(s@, i as int);
                        }
                        return None;
                    },
                    Some(m) => {
                        match m.checked_add(d) {
                            None => {
                                proof {
                                    overflow_means_none(s@, i as int);
                                }
                                return None;
                            },
                            Some(v) => {
                                acc = v;
                            },
                        }
                    },
                }
            },
        }
        i += 1;
    }
    proof {
        assert(s@.subrange(0, n as int) =~= s@);
    }
    Some(acc)
}

/// If the value of some prefix one digit longer than `j` characters already
/// exceeds `u64`, the whole string cannot parse.
proof fn overflow_means_none(s: Seq<char>, j: int)
    requires
        0 <= j < s.len(),
        all_digits(s.subrange(0, j)),
        is_digit_char(s[j]),
        dec_val(s.subrange(0, j)) * 10 + digit_char_val(s[j]) > u64::MAX,
    ensures
        parse_u64_spec(s) is None,
{
    if s.len() >= 1 && all_digits(s) && dec_val(s) <= u64::MAX {
        let p = s.subrange(0, j + 1);
        assert(p.drop_last() =~= s.subrange(0, j));
        assert(p.last() == s[j]);
        lemma_dec_val_prefix(s, j + 1);
        assert(false);
    }
}

// ---------------------------------------------------------------------------
// Signed decimal numerals (PID fields)
// ---------------------------------------------------------------------------

/// The canonical numeral of an integer: a minus sign before the magnitude.
pub open spec fn int_dec(n: int) -> Seq<char> {
    if n < 0 {
        seq!['-'] + u64_dec((-n) as nat)
    } else {
        u64_dec(n as nat)
    }
}

/// What a signed decimal field of the registry parses to.
pub open spec fn parse_i32_spec(s: Seq<char>) -> Option<i32> {
    if s.len() >= 2 && s[0] == '-' {
        let t = s.subrange(1, s.len() as int);
        if all_digits(t) && dec_val(t) <= 0x8000_0000 {
            Some((-dec_val(t)) as i32)
        } else {
            None
        }
    } else if s.len() >= 1 && all_digits(s) && dec_val(s) <= i32::MAX {
        Some(dec_val(s) as i32)
    } else {
        None
    }
}

/// The numeral of an `i32` parses back to it.
pub proof fn lemma_i32_roundtrip(n: i32)
    ensures
        parse_i32_spec(int_dec(n as int)) == Some(n),
{
    if n < 0 {
        let m = (-(n as int)) as nat;
        lemma_u64_dec_digits(m);
        lemma_dec_val_u64_dec(m);
        let s = int_dec(n as int);
        assert(s.subrange(1, s.len() as int) =~= u64_dec(m));
        assert(s[0] == '-');
    } else {
        lemma_u64_dec_digits(n as nat);
        lemma_dec_val_u64_dec(n as nat);
        let s = int_dec(n as int);
        assert(s[0] != '-') by {
            lemma_u64_dec_first_digit(n as nat);
        }
    }
}

/// The first character of a numeral is a digit.
proof fn lemma_u64_dec_first_digit(n: nat)
    ensures
        is_digit_char(u64_dec(n)[0]),
    decreases n,
{
    if n >= 10 {
        lemma_u64_dec_first_digit(n / 10);
        lemma_u64_dec_digits(n / 10);
        assert(u64_dec(n)[0] == u64_dec(n / 10)[0]);
    }
}

pub fn i32_to_string(n: i32) -> (s: String)
    ensures
        s@ == int_dec(n as int),
{
    if n >= 0 {
        u64_to_string(n as u64)
    } else {
        let m: u64 = (-(n as i64)) as u64;
        let mut s = String::new();
        push_char(&mut s, '-');
        let digits = u64_to_string(m);
        s.append(digits.as_str());
        proof {
            assert(s@ =~= int_dec(n as int));
        }
        s
    }
}

pub fn parse_i32_str(s: &str) -> (r: Option<i32>)
    ensures
        r == parse_i32_spec(s@),
{
    let n = s.unicode_len();
    if n >= 2 && s.get_char(0) == '-' {
        let tail = s.substring_char(1, n);
        proof {
            if all_digits(tail@) {
                lemma_dec_val_nonneg(tail@);
            }
        }
        match parse_u64_str(tail) {
            Some(v) if v <= 0x8000_0000 => {
                proof {
                    let t = s@.subrange(1, s@.len() as int);
                    assert(tail@ == t);
                    lemma_dec_val_nonneg(t);
                    assert(dec_val(t) == v as int);
                }
                Some((-(v as i64)) as i32)
            },
            _ => {
                proof {
                    if parse_u64_spec(s@.subrange(1, s@.len() as int)) is None {
                        let t = s@.subrange(1, s@.len() as int);
                        if all_digits(t) && dec_val(t) <= 0x8000_0000 {
                            lemma_dec_val_nonneg(t);
                        }
                    }
                }
                None
            },
        }
    } else if n >= 1 {
        proof {
            if all_digits(s@) {
                lemma_dec_val_nonneg(s@);
            }
        }
        match parse_u64_str(s) {
            Some(v) if v <= i32::MAX as u64 => Some(v as i32),
            _ => None,
        }
    } else {
        None
    }
}

// ---------------------------------------------------------------------------
// Boolean fields
// ---------------------------------------------------------------------------

/// How a boolean field is written in the registry.
pub open spec fn bool_dec(b: bool) -> Seq<char> {
    if b {
        seq!['t', 'r', 'u', 'e']
    } else {
        seq!['f', 'a', 'l', 's', 'e']
    }
}

pub open spec fn parse_bool_spec(s: Seq<char>) -> Option<bool> {
    if s == bool_dec(true) {
        Some(true)
    } else if s == bool_dec(false) {
        Some(false)
    } else {
        None
    }
}

pub proof fn lemma_bool_roundtrip(b: bool)
    ensures
        parse_bool_spec(bool_dec(b)) == Some(b),
{
    assert(bool_dec(true)[0] == 't');
    assert(bool_dec(false)[0] == 'f');
    assert(bool_dec(true) != bool_dec(false));
}

pub fn bool_to_string(b: bool) -> (s: String)
    ensures
        s@ == bool_dec(b),
{
    let lit = if b {
        "true"
    } else {
        "false"
    };
    proof {
        reveal_strlit("true");
        reveal_strlit("false");
        assert("true"@ =~= bool_dec(true));
        assert("false"@ =~= bool_dec(false));
    }
    String::from_str(lit)
}

pub fn parse_bool_str(s: &str) -> (r: Option<bool>)
    ensures
        r == parse_bool_spec(s@),
{
    proof {
        reveal_strlit("true");
        reveal_strlit("false");
        assert("true"@ =~= bool_dec(true));
        assert("false"@ =~= bool_dec(false));
    }
    if str_eq(s, "true") {
        Some(true)
    } else if str_eq(s, "false") {
        Some(false)
    } else {
        None
    }
}

// ---------------------------------------------------------------------------
// Character-level string helpers
// ---------------------------------------------------------------------------

pub fn str_eq(a: &str, b: &str) -> (r: bool)
    ensures
        r == (a@ == b@),
{
    let n = a.unicode_len();
    let m = b.unicode_len();
    if n != m {
        return false;
    }
    let mut i: usize = 0;
    while i < n
        invariant
            0 <= i <= n,
            n == a@.len(),
            n == b@.len(),
            forall|j: int| 0 <= j < i ==> a@[j] == b@[j],
        decreases n - i,
    {
        if a.get_char(i) != b.get_char(i) {
            return false;
        }
        i += 1;
    }
    proof {
        assert(a@ =~= b@);
    }
    true
}

pub fn contains_char(s: &str, c: char) -> (r: bool)
    ensures
        r == s@.contains(c),
{
    let n = s.unicode_len();
    let mut i: usize = 0;
    while i < n
        invariant
            0 <= i <= n,
            n == s@.len(),
            forall|j: int| 0 <= j < i ==> s@[j] != c,
        decreases n - i,
    {
        if s.get_char(i) == c {
            return true;
        }
        i += 1;
    }
    false
}

/// `p` is a prefix of `s`.
pub open spec fn is_prefix_of(p: Seq<char>, s: Seq<char>) -> bool {
    p.len() <= s.len() && s.subrange(0, p.len() as int) == p
}

pub fn str_starts_with(s: &str, p: &str) -> (r: bool)
    ensures
        r == is_prefix_of(p@, s@),
{
    let n = s.unicode_len();
    let m = p.unicode_len();
    if m > n {
        assert(!is_prefix_of(p@, s@));
        return false;
    }
    let mut i: usize = 0;
    while i < m
        invariant
            0 <= i <= m,
            m <= n,
            n == s@.len(),
            m == p@.len(),
            forall|j: int| 0 <= j < i ==> s@[j] == p@[j],
        decreases m - i,
    {
        if s.get_char(i) != p.get_char(i) {
            assert(s@.subrange(0, p@.len() as int)[i as int] != p@[i as int]);
            return false;
        }
        i += 1;
    }
    proof {
        assert(s@.subrange(0, p@.len() as int) =~= p@);
    }
    true
}

// ---------------------------------------------------------------------------
// Splitting and joining on a separator
// ---------------------------------------------------------------------------

/// Split `s` on `sep`, with `cur` the piece under construction.
pub open spec fn split_acc(s: Seq<char>, sep: char, cur: Seq<char>) -> Seq<Seq<char>>
    decreases s.len(),
{
    if s.len() == 0 {
        seq![cur]
    } else if s[0] == sep {
        seq![cur] + split_acc(s.drop_first(), sep, Seq::empty())
    } else {
        split_acc(s.drop_first(), sep, cur.push(s[0]))
    }
}

/// The pieces of `s` between occurrences of `sep`, in order. Always at
/// least one piece; an empty string yields one empty piece.
pub open spec fn split_on(s: Seq<char>, sep: char) -> Seq<Seq<char>> {
    split_acc(s, sep, Seq::empty())
}

/// The pieces joined back with `sep` between each adjacent pair.
pub open spec fn join_with(parts: Seq<Seq<char>>, sep: char) -> Seq<char>
    decreases parts.len(),
{
    if parts.len() == 0 {
        Seq::empty()
    } else if parts.len() == 1 {
        parts[0]
    } else {
        parts[0] + seq![sep] + join_with(parts.drop_first(), sep)
    }
}

proof fn lemma_split_acc_no_sep(piece: Seq<char>, sep: char, cur: Seq<char>)
    requires
        !piece.contains(sep),
    ensures
        split_acc(piece, sep, cur) == seq![cur + piece],
    decreases piece.len(),
{
    if piece.len() == 0 {
        assert(cur + piece =~= cur);
        assert(split_acc(piece, sep, cur) =~~= seq![cur + piece]);
    } else {
        assert(piece[0] != sep) by {
            assert(piece.contains(piece[0]));
        }
        assert(!piece.drop_first().contains(sep)) by {
            if piece.drop_first().contains(sep) {
                let k = choose|k: int|
                    0 <= k < piece.drop_first().len() && piece.drop_first()[k] == sep;
                assert(piece[k + 1] == sep);
                assert(piece.contains(sep));
            }
        }
        lemma_split_acc_no_sep(piece.drop_first(), sep, cur.push(piece[0]));
        assert(cur.push(piece[0]) + piece.drop_first() =~= cur + piece);
    }
}

proof fn lemma_split_acc_concat(piece: Seq<char>, rest: Seq<char>, sep: char, cur: Seq<char>)
    requires
        !piece.contains(sep),
    ensures
        split_acc(piece + seq![sep] + rest, sep, cur) == seq![cur + piece] + split_acc(
            rest,
            sep,
            Seq::empty(),
        ),
    decreases piece.len(),
{
    let s = piece + seq![sep] + rest;
    if piece.len() == 0 {
        assert(s[0] == sep);
        assert(s.drop_first() =~= rest);
        assert(cur + piece =~= cur);
        assert(split_acc(s, sep, cur) =~~= seq![cur + piece] + split_acc(rest, sep, Seq::empty()));
    } else {
        assert(s[0] == piece[0]);
        assert(piece[0] != sep) by {
            assert(piece.contains(piece[0]));
        }
        assert(!piece.drop_first().contains(sep)) by {
            if piece.drop_first().contains(sep) {
                let k = choose|k: int|
                    0 <= k < piece.drop_first().len() && piece.drop_first()[k] == sep;
                assert(piece[k + 1] == sep);
                assert(piece.contains(sep));
            }
        }
        assert(s.drop_first() =~= piece.drop_first() + seq![sep] + rest);
        lemma_split_acc_concat(piece.drop_first(), rest, sep, cur.push(piece[0]));
        assert(cur.push(piece[0]) + piece.drop_first() =~= cur + piece);
    }
}

/// Splitting undoes joining, provided no piece contains the separator.
pub proof fn lemma_split_join(parts: Seq<Seq<char>>, sep: char)
    requires
        parts.len() >= 1,
        forall|i: int| 0 <= i < parts.len() ==> !(#[trigger] parts[i]).contains(sep),
    ensures
        split_on(join_with(parts, sep), sep) == parts,
    decreases parts.len(),
{
    if parts.len() == 1 {
        lemma_split_acc_no_sep(parts[0], sep, Seq::empty());
        assert(Seq::<char>::empty() + parts[0] =~= parts[0]);
        assert(split_on(join_with(parts, sep), sep) =~~= parts);
    } else {
        let tail = parts.drop_first();
        assert(forall|i: int| 0 <= i < tail.len() ==> !(#[trigger] tail[i]).contains(sep)) by {
            assert(forall|i: int| 0 <= i < tail.len() ==> tail[i] == #[trigger] parts[i + 1]);
        }
        lemma_split_join(tail, sep);
        lemma_split_acc_concat(parts[0], join_with(tail, sep), sep, Seq::empty());
        assert(Seq::<char>::empty() + parts[0] =~= parts[0]);
        assert(split_on(join_with(parts, sep), sep) =~~= parts);
    }
}

/// Splitting a string that starts with a separator-free piece followed by
/// the separator yields that piece and then the split of the remainder.
pub proof fn lemma_split_concat(piece: Seq<char>, rest: Seq<char>, sep: char)
    requires
        !piece.contains(sep),
    ensures
        split_on(piece + seq![sep] + rest, sep) == seq![piece] + split_on(rest, sep),
{
    lemma_split_acc_concat(piece, rest, sep, Seq::empty());
    assert(Seq::<char>::empty() + piece =~= piece);
    assert(seq![Seq::<char>::empty() + piece] + split_on(rest, sep) =~~= seq![piece] + split_on(
        rest,
        sep,
    ));
}

/// A string made of two separator-free parts contains no separator.
pub proof fn lemma_concat_no_char(a: Seq<char>, b: Seq<char>, c: char)
    requires
        !a.contains(c),
        !b.contains(c),
    ensures
        !(a + b).contains(c),
{
    if (a + b).contains(c) {
        let k = choose|k: int| 0 <= k < (a + b).len() && (a + b)[k] == c;
        if k < a.len() {
            assert(a[k] == c);
        } else {
            assert(b[k - a.len()] == c);
        }
    }
}

/// Joining parts that are free of some character, on a separator other
/// than it, yields a string free of it.
pub proof fn lemma_join_no_char(parts: Seq<Seq<char>>, sep: char, c: char)
    requires
        forall|i: int| 0 <= i < parts.len() ==> !(#[trigger] parts[i]).contains(c),
        sep != c,
    ensures
        !join_with(parts, sep).contains(c),
    decreases parts.len(),
{
    if parts.len() == 0 {
    } else if parts.len() == 1 {
        assert(!parts[0].contains(c));
    } else {
        let tail = parts.drop_first();
        assert(forall|i: int| 0 <= i < tail.len() ==> tail[i] == #[trigger] parts[i + 1]);
        lemma_join_no_char(tail, sep, c);
        assert(!seq![sep].contains(c)) by {
            if seq![sep].contains(c) {
                let k = choose|k: int| 0 <= k < 1 && seq![sep][k] == c;
                assert(seq![sep][k] == sep);
            }
        }
        lemma_concat_no_char(parts[0], seq![sep], c);
        lemma_concat_no_char(parts[0] + seq![sep], join_with(tail, sep), c);
        assert((parts[0] + seq![sep]) + join_with(tail, sep) =~= parts[0] + seq![sep] + join_with(
            tail,
            sep,
        ));
    }
}

/// A digit string contains no non-digit character.
pub proof fn lemma_digits_no_char(s: Seq<char>, c: char)
    requires
        all_digits(s),
        !is_digit_char(c),
    ensures
        !s.contains(c),
{
    if s.contains(c) {
        let k = choose|k: int| 0 <= k < s.len() && s[k] == c;
        assert(is_digit_char(s[k]));
    }
}

/// A signed numeral holds only digits and possibly a leading minus sign.
pub proof fn lemma_int_dec_no_char(n: int, c: char)
    requires
        !is_digit_char(c),
        c != '-',
    ensures
        !int_dec(n).contains(c),
{
    if n < 0 {
        lemma_u64_dec_digits((-n) as nat);
        lemma_digits_no_char(u64_dec((-n) as nat), c);
        assert(!seq!['-'].contains(c)) by {
            if seq!['-'].contains(c) {
                let k = choose|k: int| 0 <= k < 1 && seq!['-'][k] == c;
                assert(seq!['-'][k] == '-');
            }
        }
        lemma_concat_no_char(seq!['-'], u64_dec((-n) as nat), c);
    } else {
        lemma_u64_dec_digits(n as nat);
        lemma_digits_no_char(u64_dec(n as nat), c);
    }
}

/// A boolean field holds only letters.
pub proof fn lemma_bool_dec_no_char(b: bool, c: char)
    requires
        c != 't' && c != 'r' && c != 'u' && c != 'e' && c != 'f' && c != 'a' && c != 'l'
            && c != 's',
    ensures
        !bool_dec(b).contains(c),
{
    if bool_dec(b).contains(c) {
        let k = choose|k: int| 0 <= k < bool_dec(b).len() && bool_dec(b)[k] == c;
        assert(false);
    }
}

pub fn split_str(s: &str, sep: char) -> (parts: Vec<String>)
    ensures
        parts.deep_view() == split_on(s@, sep),
        parts.len() >= 1,
{
    let n = s.unicode_len();
    let mut parts: Vec<String> = Vec::new();
    let mut cur = String::new();
    let mut i: usize = 0;
    proof {
        assert(parts.deep_view() =~= Seq::<Seq<char>>::empty());
        assert(s@.subrange(0, n as int) =~= s@);
        assert(Seq::<Seq<char>>::empty() + split_acc(s@, sep, Seq::empty()) =~= split_acc(
            s@,
            sep,
            Seq::empty(),
        ));
    }
    while i < n
        invariant
            0 <= i <= n,
            n == s@.len(),
            split_on(s@, sep) == parts.deep_view() + split_acc(
                s@.subrange(i as int, n as int),
                sep,
                cur@,
            ),
        decreases n - i,
    {
        let c = s.get_char(i);
        proof {
            let rem = s@.subrange(i as int, n as int);
            assert(rem.len() > 0);
            assert(rem[0] == s@[i as int]);
            assert(rem.drop_first() =~= s@.subrange(i + 1, n as int));
        }
        if c == sep {
            let ghost old_parts = parts.deep_view();
            let ghost old_cur = cur@;
            parts.push(cur);
            cur = String::new();
            proof {
                assert(parts.deep_view() =~= old_parts + seq![old_cur]);
                assert(old_parts + (seq![old_cur] + split_acc(
                    s@.subrange(i + 1, n as int),
                    sep,
                    Seq::empty(),
                )) =~= (old_parts + seq![old_cur]) + split_acc(
                    s@.subrange(i + 1, n as int),
                    sep,
                    Seq::empty(),
                ));
            }
        } else {
            push_char(&mut cur, c);
        }
        i += 1;
    }
    proof {
        assert(s@.subrange(n as int, n as int) =~= Seq::<char>::empty());
    }
    let ghost old_parts = parts.deep_view();
    let ghost old_cur = cur@;
    parts.push(cur);
    proof {
        assert(parts.deep_view() =~= old_parts + seq![old_cur]);
    }
    parts
}

fn join_from(parts: &Vec<String>, sep: char, start: usize) -> (s: String)
    requires
        start <= parts.len(),
    ensures
        s@ == join_with(parts.deep_view().subrange(start as int, parts.len() as int), sep),
    decreases parts.len() - start,
{
    let n = parts.len();
    if start == n {
        let s = String::new();
        proof {
            assert(parts.deep_view().subrange(start as int, n as int) =~~= Seq::<Seq<char>>::empty());
        }
        s
    } else if start == n - 1 {
        let s = parts[start].clone();
        proof {
            let sub = parts.deep_view().subrange(start as int, n as int);
            assert(sub.len() == 1);
            assert(sub[0] == parts.deep_view()[start as int]);
        }
        s
    } else {
        let mut s = parts[start].clone();
        push_char(&mut s, sep);
        let rest = join_from(parts, sep, start + 1);
        s.append(rest.as_str());
        proof {
            let sub = parts.deep_view().subrange(start as int, n as int);
            assert(sub.len() >= 2);
            assert(sub[0] == parts.deep_view()[start as int]);
            assert(sub.drop_first() =~= parts.deep_view().subrange(start + 1, n as int));
            assert(s@ =~= sub[0] + seq![sep] + join_with(sub.drop_first(), sep));
        }
        s
    }
}

pub fn join_strings(parts: &Vec<String>, sep: char) -> (s: String)
    ensures
        s@ == join_with(parts.deep_view(), sep),
{
    let s = join_from(parts, sep, 0);
    proof {
        assert(parts.deep_view().subrange(0, parts.len() as int) =~= parts.deep_view());
    }
    s
}

/// The pieces joined with a multi-character separator between each
/// adjacent pair.
pub open spec fn join_with_sep(parts: Seq<Seq<char>>, sep: Seq<char>) -> Seq<char>
    decreases parts.len(),
{
    if parts.len() == 0 {
        Seq::empty()
    } else if parts.len() == 1 {
        parts[0]
    } else {
        parts[0] + sep + join_with_sep(parts.drop_first(), sep)
    }
}

fn join_sep_from(parts: &Vec<String>, sep: &str, start: usize) -> (s: String)
    requires
        start <= parts.len(),
    ensures
        s@ == join_with_sep(parts.deep_view().subrange(start as int, parts.len() as int), sep@),
    decreases parts.len() - start,
{
    let n = parts.len();
    if start == n {
        let s = String::new();
        proof {
            assert(parts.deep_view().subrange(start as int, n as int) =~~= Seq::<Seq<char>>::empty());
        }
        s
    } else if start == n - 1 {
        let s = parts[start].clone();
        proof {
            let sub = parts.deep_view().subrange(start as int, n as int);
            assert(sub.len() == 1);
            assert(sub[0] == parts.deep_view()[start as int]);
        }
        s
    } else {
        let mut s = parts[start].clone();
        s.append(sep);
        let rest = join_sep_from(parts, sep, start + 1);
        s.append(rest.as_str());
        proof {
            let sub = parts.deep_view().subrange(start as int, n as int);
            assert(sub.len() >= 2);
            assert(sub[0] == parts.deep_view()[start as int]);
            assert(sub.drop_first() =~= parts.deep_view().subrange(start + 1, n as int));
            assert(s@ =~= sub[0] + sep@ + join_with_sep(sub.drop_first(), sep@));
        }
        s
    }
}

pub fn join_strings_sep(parts: &Vec<String>, sep: &str) -> (s: String)
    ensures
        s@ == join_with_sep(parts.deep_view(), sep@),
{
    let s = join_sep_from(parts, sep, 0);
    proof {
        assert(parts.deep_view().subrange(0, parts.len() as int) =~= parts.deep_view());
    }
    s
}

} // verus!
