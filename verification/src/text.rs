//! Verified text utilities: character classes, decimal numerals, and the
//! string manipulations the pattern language is built from.

use vstd::prelude::*;
use vstd::string::StrSliceExecFns;

verus! {

/// A decimal digit.
pub open spec fn spec_is_digit(c: char) -> bool {
    '0' <= c && c <= '9'
}

/// A single ASCII letter, lower or upper case.
pub open spec fn spec_is_alpha(c: char) -> bool {
    ('a' <= c && c <= 'z') || ('A' <= c && c <= 'Z')
}

/// The whitespace trimmed around separators: blank, tab, and line breaks.
pub open spec fn spec_is_space(c: char) -> bool {
    c == ' ' || c == '\t' || c == '\r' || c == '\n'
}

/// The character sequences a vector of character vectors holds.
pub open spec fn seq_views(v: Seq<Vec<char>>) -> Seq<Seq<char>> {
    v.map_values(|x: Vec<char>| x@)
}

/// Every character of `s` is a decimal digit.
pub open spec fn all_digits(s: Seq<char>) -> bool {
    forall|i: int| 0 <= i < s.len() ==> spec_is_digit(#[trigger] s[i])
}

/// The numeric value of a digit character.
pub open spec fn digit_val(c: char) -> int {
    c as int - '0' as int
}

/// The digit character for a value in `0 ..= 9`.
pub open spec fn digit_char(d: int) -> char {
    ('0' as int + d) as char
}

/// The number denoted by a digit string, most significant digit first.
pub open spec fn dec_val(s: Seq<char>) -> int
    decreases s.len(),
{
    if s.len() == 0 {
        0
    } else {
        dec_val(s.drop_last()) * 10 + digit_val(s.last())
    }
}

/// The canonical decimal numeral of `n`: no leading zeros, except that
/// zero itself is the single digit `0`.
pub open spec fn dec_str(n: nat) -> Seq<char>
    decreases n,
{
    if n < 10 {
        seq![digit_char(n as int)]
    } else {
        dec_str(n / 10).push(digit_char((n % 10) as int))
    }
}

pub fn is_digit(c: char) -> (r: bool)
    ensures
        r == spec_is_digit(c),
{
    '0' <= c && c <= '9'
}

pub fn is_alpha(c: char) -> (r: bool)
    ensures
        r == spec_is_alpha(c),
{
    ('a' <= c && c <= 'z') || ('A' <= c && c <= 'Z')
}

pub fn is_space(c: char) -> (r: bool)
    ensures
        r == spec_is_space(c),
{
    c == ' ' || c == '\t' || c == '\r' || c == '\n'
}

/// The numeric value of a digit character, executably.
pub fn digit_of(c: char) -> (r: u8)
    requires
        spec_is_digit(c),
    ensures
        r as int == digit_val(c),
        r <= 9,
{
    let x: u32 = c as u32;
    assert(x as u8 == x) by (bit_vector)
        requires
            48 <= x <= 57,
    ;
    (x as u8) - 48
}

/// The digit character of a value in `0 ..= 9`, executably.
pub fn char_of_digit(d: u8) -> (r: char)
    requires
        d <= 9,
    ensures
        r == digit_char(d as int),
{
    (48 + d) as char
}

/// The characters of a string slice, in order.
pub fn chars_of(s: &str) -> (r: Vec<char>)
    ensures
        r@ == s@,
{
    let n = s.unicode_len();
    let mut r: Vec<char> = Vec::new();
    let mut i: usize = 0;
    while i < n
        invariant
            i <= n,
            n == s@.len(),
            r@ == s@.take(i as int),
        decreases n - i,
    {
        let c = s.get_char(i);
        r.push(c);
        assert(r@ =~= s@.take(i + 1));
        i += 1;
    }
    assert(r@ =~= s@);
    r
}

/// Relies on `String::push`: appends the given character to the end of the
/// string.
#[verifier::external_body]
pub(crate) fn push_char(s: &mut String, c: char)
    ensures
        final(s)@ == old(s)@.push(c),
{
    s.push(c)
}

/// The string holding exactly the given characters, in order.
pub fn string_of(v: &Vec<char>) -> (r: String)
    ensures
        r@ == v@,
{
    let mut r = String::new();
    let mut i: usize = 0;
    while i < v.len()
        invariant
            i <= v@.len(),
            r@ == v@.take(i as int),
        decreases v@.len() - i,
    {
        push_char(&mut r, v[i]);
        assert(r@ =~= v@.take(i + 1));
        i += 1;
    }
    assert(r@ =~= v@);
    r
}

/// The character sequences a vector of strings holds.
pub open spec fn str_views(v: Seq<String>) -> Seq<Seq<char>> {
    v.map_values(|s: String| s@)
}

/// The strings holding exactly the given character vectors, in order.
pub fn strings_of(v: &Vec<Vec<char>>) -> (r: Vec<String>)
    ensures
        str_views(r@) == seq_views(v@),
{
    let mut r: Vec<String> = Vec::new();
    let mut i: usize = 0;
    while i < v.len()
        invariant
            i <= v@.len(),
            r@.len() == i,
            forall|k: int| 0 <= k < i ==> str_views(r@)[k] == seq_views(v@)[k],
        decreases v@.len() - i,
    {
        let ghost prev = r@;
        r.push(string_of(&v[i]));
        proof {
            assert forall|k: int| 0 <= k < i + 1 implies str_views(r@)[k] == seq_views(v@)[k] by {
                if k < i {
                    assert(str_views(r@)[k] == str_views(prev)[k]);
                } else {
                    assert(str_views(r@)[k] == v@[k]@);
                }
            }
        }
        i += 1;
    }
    assert(str_views(r@) =~= seq_views(v@));
    r
}

/// A copy of `v[lo .. hi]`.
pub fn subvec(v: &Vec<char>, lo: usize, hi: usize) -> (r: Vec<char>)
    requires
        lo <= hi <= v@.len(),
    ensures
        r@ == v@.subrange(lo as int, hi as int),
{
    let mut r: Vec<char> = Vec::new();
    let mut i: usize = lo;
    while i < hi
        invariant
            lo <= i <= hi <= v@.len(),
            r@ == v@.subrange(lo as int, i as int),
        decreases hi - i,
    {
        r.push(v[i]);
        assert(r@ =~= v@.subrange(lo as int, i + 1));
        i += 1;
    }
    r
}

/// The number a digit string denotes, or `None` where it exceeds `u64::MAX`.
pub fn parse_decimal(v: &Vec<char>) -> (r: Option<u64>)
    requires
        all_digits(v@),
        v@.len() > 0,
    ensures
        match r {
            Some(n) => n as int == dec_val(v@),
            None => dec_val(v@) > u64::MAX,
        },
{
    let mut acc: u64 = 0;
    let mut over: bool = false;
    let mut i: usize = 0;
    while i < v.len()
        invariant
            i <= v@.len(),
            all_digits(v@),
            !over ==> acc as int == dec_val(v@.take(i as int)),
            over ==> dec_val(v@.take(i as int)) > u64::MAX,
        decreases v@.len() - i,
    {
        let d = digit_of(v[i]);
        let ghost pre = v@.take(i as int);
        let ghost post = v@.take(i + 1);
        assert(post.drop_last() =~= pre);
        assert(post.last() == v@[i as int]);
        assert(dec_val(post) == dec_val(pre) * 10 + digit_val(v@[i as int]));
        if over {
            assert(dec_val(pre) * 10 >= dec_val(pre)) by (nonlinear_arith)
                requires
                    dec_val(pre) > 0,
            ;
        } else {
            match acc.checked_mul(10) {
                Some(m) => match m.checked_add(d as u64) {
                    Some(n) => {
                        acc = n;
                    },
                    None => {
                        over = true;
                    },
                },
                None => {
                    over = true;
                },
            }
        }
        i += 1;
    }
    assert(v@.take(v@.len() as int) =~= v@);
    if over {
        None
    } else {
        Some(acc)
    }
}

/// A decimal numeral consists of digits and is never empty.
pub proof fn lemma_dec_str_digits(n: nat)
    ensures
        all_digits(dec_str(n)),
        dec_str(n).len() >= 1,
    decreases n,
{
    if n < 10 {
        assert(spec_is_digit(digit_char(n as int)));
    } else {
        lemma_dec_str_digits(n / 10);
        assert(spec_is_digit(digit_char((n % 10) as int)));
        assert forall|i: int| 0 <= i < dec_str(n).len() implies spec_is_digit(
            #[trigger] dec_str(n)[i],
        ) by {
            if i < dec_str(n / 10).len() {
                assert(dec_str(n)[i] == dec_str(n / 10)[i]);
            }
        }
    }
}

/// A decimal numeral denotes the number it was rendered from.
pub proof fn lemma_dec_str_val(n: nat)
    ensures
        dec_val(dec_str(n)) == n,
    decreases n,
{
    if n < 10 {
        assert(dec_str(n).drop_last() =~= Seq::<char>::empty());
        assert(dec_str(n).last() == digit_char(n as int));
        assert(digit_val(digit_char(n as int)) == n);
        assert(dec_val(Seq::<char>::empty()) == 0);
        assert(dec_val(dec_str(n)) == dec_val(Seq::<char>::empty()) * 10 + digit_val(
            digit_char(n as int),
        ));
    } else {
        lemma_dec_str_val(n / 10);
        let s = dec_str(n);
        assert(s.drop_last() =~= dec_str(n / 10));
        assert(dec_val(s) == dec_val(dec_str(n / 10)) * 10 + digit_val(
            digit_char((n % 10) as int),
        ));
        vstd::arithmetic::div_mod::lemma_fundamental_div_mod(n as int, 10);
    }
}

/// A decimal numeral of a positive number has no leading zero, and a
/// numeral longer than one digit denotes at least ten.
pub proof fn lemma_dec_str_canonical(n: nat)
    ensures
        n >= 1 ==> dec_str(n)[0] != '0',
        dec_str(n).len() > 1 ==> n >= 10,
    decreases n,
{
    if n < 10 {
        if n >= 1 {
            assert(digit_char(n as int) != '0');
        }
    } else {
        lemma_dec_str_canonical(n / 10);
        lemma_dec_str_digits(n / 10);
        assert(n / 10 >= 1) by (nonlinear_arith)
            requires
                n >= 10,
        ;
        assert(dec_str(n)[0] == dec_str(n / 10)[0]);
    }
}

/// The canonical decimal numeral of `n`, as characters.
pub fn render_decimal(n: u64) -> (r: Vec<char>)
    ensures
        r@ == dec_str(n as nat),
    decreases n,
{
    if n < 10 {
        assert(n as u8 as int == n as int) by (bit_vector)
            requires
                n < 10,
        ;
        let mut v: Vec<char> = Vec::new();
        v.push(char_of_digit(n as u8));
        assert(v@ =~= dec_str(n as nat));
        v
    } else {
        assert(n / 10 < n && n / 10 >= 1) by (nonlinear_arith)
            requires
                n >= 10,
        ;
        let mut v = render_decimal(n / 10);
        let m: u64 = n % 10;
        assert(m as u8 as int == m as int) by (bit_vector)
            requires
                m < 10,
        ;
        v.push(char_of_digit(m as u8));
        assert(v@ =~= dec_str(n as nat));
        v
    }
}

/// The code point of an ASCII letter, as a byte.
pub fn letter_code(c: char) -> (r: u8)
    requires
        spec_is_alpha(c),
    ensures
        r as int == c as int,
{
    let x: u32 = c as u32;
    assert(x as u8 as int == x as int) by (bit_vector)
        requires
            x <= 122,
    ;
    x as u8
}

/// The character with the given code point below 128.
pub fn code_char(b: u8) -> (r: char)
    ensures
        r as int == b as int,
{
    b as char
}

/// Whether `c` occurs in `s`.
pub open spec fn has_char(s: Seq<char>, c: char) -> bool {
    exists|i: int| 0 <= i < s.len() && s[i] == c
}

/// The index of the first occurrence of `c` in `s`; meaningful only where
/// `has_char` holds.
pub open spec fn first_idx(s: Seq<char>, c: char) -> int
    decreases s.len(),
{
    if s.len() == 0 {
        0
    } else if s[0] == c {
        0
    } else {
        1 + first_idx(s.skip(1), c)
    }
}

/// Where `c` occurs, `first_idx` is a valid index of an occurrence and
/// everything before it differs from `c`.
pub proof fn lemma_first_idx(s: Seq<char>, c: char)
    requires
        has_char(s, c),
    ensures
        0 <= first_idx(s, c) < s.len(),
        s[first_idx(s, c)] == c,
        forall|j: int| 0 <= j < first_idx(s, c) ==> s[j] != c,
    decreases s.len(),
{
    if s.len() == 0 {
    } else if s[0] == c {
    } else {
        let i = choose|i: int| 0 <= i < s.len() && s[i] == c;
        assert(s.skip(1)[i - 1] == c);
        lemma_first_idx(s.skip(1), c);
        let f = first_idx(s.skip(1), c);
        assert(s[1 + f] == s.skip(1)[f]);
        assert forall|j: int| 0 <= j < 1 + f implies s[j] != c by {
            if j > 0 {
                assert(s.skip(1)[j - 1] != c);
            }
        }
    }
}

/// The index of the first occurrence of `c` in `v`, if any.
pub fn find_char(v: &Vec<char>, c: char) -> (r: Option<usize>)
    ensures
        match r {
            Some(i) => has_char(v@, c) && i as int == first_idx(v@, c),
            None => !has_char(v@, c),
        },
{
    let mut i: usize = 0;
    while i < v.len()
        invariant
            i <= v@.len(),
            forall|j: int| 0 <= j < i ==> v@[j] != c,
        decreases v@.len() - i,
    {
        if v[i] == c {
            proof {
                lemma_first_idx(v@, c);
                let f = first_idx(v@, c);
                if f < i as int {
                    assert(v@[f] != c);
                } else if f > i as int {
                    assert(v@[i as int] != c);
                }
            }
            return Some(i);
        }
        i += 1;
    }
    None
}

/// Splits `v` at the first occurrence of `c`, which is dropped, as
/// `str::split_once` does.
pub fn split_at_char(v: &Vec<char>, c: char) -> (r: Option<(Vec<char>, Vec<char>)>)
    ensures
        match r {
            Some(p) => has_char(v@, c) && p.0@ == v@.take(first_idx(v@, c)) && p.1@ == v@.skip(
                first_idx(v@, c) + 1,
            ),
            None => !has_char(v@, c),
        },
{
    match find_char(v, c) {
        None => None,
        Some(i) => {
            proof {
                lemma_first_idx(v@, c);
            }
            assert(i < v.len());
            let a = subvec(v, 0, i);
            let b = subvec(v, i + 1, v.len());
            assert(a@ =~= v@.take(i as int));
            assert(b@ =~= v@.skip(i + 1));
            Some((a, b))
        },
    }
}

/// The pieces of `s` between occurrences of `c`, in order; a string without
/// `c` is one piece.
pub open spec fn split_all(s: Seq<char>, c: char) -> Seq<Seq<char>>
    decreases s.len(),
{
    if !has_char(s, c) {
        seq![s]
    } else {
        let i = first_idx(s, c);
        if 0 <= i < s.len() {
            seq![s.take(i)] + split_all(s.skip(i + 1), c)
        } else {
            seq![s]
        }
    }
}

/// The pieces of `v` between occurrences of `c`, executably.
pub fn split_all_char(v: Vec<char>, c: char) -> (r: Vec<Vec<char>>)
    ensures
        seq_views(r@) == split_all(v@, c),
    decreases v@.len(),
{
    let ghost s = v@;
    match split_at_char(&v, c) {
        None => {
            let mut r: Vec<Vec<char>> = Vec::new();
            r.push(v);
            assert(seq_views(r@) =~= split_all(s, c));
            r
        },
        Some((a, b)) => {
            proof {
                lemma_first_idx(s, c);
            }
            let mut r = split_all_char(b, c);
            let ghost tail = seq_views(r@);
            let ghost prev = r@;
            r.insert(0, a);
            proof {
                assert forall|k: int| 0 <= k < r@.len() implies seq_views(r@)[k] == (seq![a@]
                    + tail)[k] by {
                    if k > 0 {
                        assert(r@[k] == prev[k - 1]);
                    }
                }
                assert(seq_views(r@) =~= seq![a@] + tail);
                assert(seq_views(r@) =~= split_all(s, c));
            }
            r
        },
    }
}

/// Every character of `v` is a decimal digit, executably.
pub fn digits_vec(v: &Vec<char>) -> (r: bool)
    ensures
        r == all_digits(v@),
{
    let mut i: usize = 0;
    while i < v.len()
        invariant
            i <= v@.len(),
            forall|j: int| 0 <= j < i ==> spec_is_digit(#[trigger] v@[j]),
        decreases v@.len() - i,
    {
        if !is_digit(v[i]) {
            return false;
        }
        i += 1;
    }
    true
}

/// Appends every character of `src` to `dst`.
pub fn push_all(dst: &mut Vec<char>, src: &Vec<char>)
    ensures
        final(dst)@ == old(dst)@ + src@,
{
    let mut i: usize = 0;
    while i < src.len()
        invariant
            i <= src@.len(),
            dst@ == old(dst)@ + src@.take(i as int),
        decreases src@.len() - i,
    {
        dst.push(src[i]);
        assert(dst@ =~= old(dst)@ + src@.take(i + 1));
        i += 1;
    }
    assert(dst@ =~= old(dst)@ + src@);
}

/// The concatenation `p + v + s`.
pub fn concat3(p: &Vec<char>, v: &Vec<char>, s: &Vec<char>) -> (r: Vec<char>)
    ensures
        r@ == p@ + v@ + s@,
{
    let mut r: Vec<char> = Vec::new();
    push_all(&mut r, p);
    push_all(&mut r, v);
    push_all(&mut r, s);
    assert(r@ =~= p@ + v@ + s@);
    r
}

/// Each value wrapped between a prefix and a suffix, in order.
pub open spec fn affix(p: Seq<char>, vs: Seq<Seq<char>>, sfx: Seq<char>) -> Seq<Seq<char>> {
    vs.map_values(|v: Seq<char>| p + v + sfx)
}

/// `affix`, executably.
pub fn affix_all(p: &Vec<char>, vs: &Vec<Vec<char>>, sfx: &Vec<char>) -> (r: Vec<Vec<char>>)
    ensures
        seq_views(r@) == affix(p@, seq_views(vs@), sfx@),
{
    let mut r: Vec<Vec<char>> = Vec::new();
    let mut i: usize = 0;
    while i < vs.len()
        invariant
            i <= vs@.len(),
            r@.len() == i,
            forall|k: int| 0 <= k < i ==> seq_views(r@)[k] == p@ + seq_views(vs@)[k] + sfx@,
        decreases vs@.len() - i,
    {
        let ghost prev = r@;
        r.push(concat3(p, &vs[i], sfx));
        proof {
            assert forall|k: int| 0 <= k < i + 1 implies seq_views(r@)[k] == p@ + seq_views(vs@)[k]
                + sfx@ by {
                if k < i {
                    assert(seq_views(r@)[k] == seq_views(prev)[k]);
                } else {
                    assert(seq_views(r@)[k] == p@ + vs@[k]@ + sfx@);
                }
            }
        }
        i += 1;
    }
    assert(seq_views(r@) =~= affix(p@, seq_views(vs@), sfx@));
    r
}

/// The decimal numerals of the inclusive range `a ..= b`, in ascending
/// order; empty where `a > b`.
pub open spec fn num_range(a: int, b: int) -> Seq<Seq<char>> {
    if a > b {
        Seq::empty()
    } else {
        Seq::new((b - a + 1) as nat, |k: int| dec_str((a + k) as nat))
    }
}

/// `num_range`, executably.
pub fn num_values(a: u64, b: u64) -> (r: Vec<Vec<char>>)
    ensures
        seq_views(r@) == num_range(a as int, b as int),
{
    let mut r: Vec<Vec<char>> = Vec::new();
    if a > b {
        assert(seq_views(r@) =~~= num_range(a as int, b as int));
        return r;
    }
    let mut i: u64 = a;
    while i < b
        invariant
            a <= i <= b,
            r@.len() == i - a,
            forall|k: int| 0 <= k < i - a ==> seq_views(r@)[k] == dec_str((a + k) as nat),
        decreases b - i,
    {
        let ghost prev = r@;
        r.push(render_decimal(i));
        proof {
            assert forall|k: int| 0 <= k < (i + 1) - a implies seq_views(r@)[k] == dec_str(
                (a + k) as nat,
            ) by {
                if k < i - a {
                    assert(seq_views(r@)[k] == seq_views(prev)[k]);
                } else {
                    assert(seq_views(r@)[k] == dec_str(i as nat));
                }
            }
        }
        i += 1;
    }
    let ghost prev = r@;
    r.push(render_decimal(b));
    proof {
        assert forall|k: int| 0 <= k < (b + 1) - a implies seq_views(r@)[k] == dec_str(
            (a + k) as nat,
        ) by {
            if k < b - a {
                assert(seq_views(r@)[k] == seq_views(prev)[k]);
            } else {
                assert(seq_views(r@)[k] == dec_str(b as nat));
            }
        }
        assert(seq_views(r@) =~= num_range(a as int, b as int));
    }
    r
}

/// The single-letter names of the inclusive code-point range `a ..= b`, in
/// ascending order; empty where `a > b`. Meaningful for ASCII codes.
pub open spec fn alpha_range(a: int, b: int) -> Seq<Seq<char>> {
    if a > b {
        Seq::empty()
    } else {
        Seq::new((b - a + 1) as nat, |k: int| seq![(a + k) as char])
    }
}

/// `alpha_range`, executably, for codes below 128.
pub fn alpha_values(a: u8, b: u8) -> (r: Vec<Vec<char>>)
    requires
        b < 128,
    ensures
        seq_views(r@) == alpha_range(a as int, b as int),
{
    let mut r: Vec<Vec<char>> = Vec::new();
    if a > b {
        assert(seq_views(r@) =~~= alpha_range(a as int, b as int));
        return r;
    }
    let mut i: u8 = a;
    while i < b
        invariant
            a <= i <= b,
            b < 128,
            r@.len() == i - a,
            forall|k: int| 0 <= k < i - a ==> seq_views(r@)[k] == seq![((a + k) as char)],
        decreases b - i,
    {
        let ghost prev = r@;
        let mut one: Vec<char> = Vec::new();
        one.push(code_char(i));
        assert(one@ =~= seq![(i as char)]);
        r.push(one);
        proof {
            assert forall|k: int| 0 <= k < (i + 1) - a implies seq_views(r@)[k] == seq![
                ((a + k) as char),
            ] by {
                if k < i - a {
                    assert(seq_views(r@)[k] == seq_views(prev)[k]);
                } else {
                    assert(seq_views(r@)[k] == seq![(i as char)]);
                    assert(a + k == i as int);
                }
            }
        }
        i += 1;
    }
    let ghost prev = r@;
    let mut one: Vec<char> = Vec::new();
    one.push(code_char(b));
    assert(one@ =~= seq![(b as char)]);
    r.push(one);
    proof {
        assert forall|k: int| 0 <= k < (b + 1) - a implies seq_views(r@)[k] == seq![
            ((a + k) as char),
        ] by {
            if k < b - a {
                assert(seq_views(r@)[k] == seq_views(prev)[k]);
            } else {
                assert(seq_views(r@)[k] == seq![(b as char)]);
                assert(a + k == b as int);
            }
        }
        assert(seq_views(r@) =~= alpha_range(a as int, b as int));
    }
    r
}

/// `s` without leading whitespace.
pub open spec fn ltrim(s: Seq<char>) -> Seq<char>
    decreases s.len(),
{
    if s.len() > 0 && spec_is_space(s[0]) {
        ltrim(s.skip(1))
    } else {
        s
    }
}

/// `s` without trailing whitespace.
pub open spec fn rtrim(s: Seq<char>) -> Seq<char>
    decreases s.len(),
{
    if s.len() > 0 && spec_is_space(s.last()) {
        rtrim(s.drop_last())
    } else {
        s
    }
}

/// `s` without leading and trailing whitespace.
pub open spec fn spec_trim(s: Seq<char>) -> Seq<char> {
    rtrim(ltrim(s))
}

/// A copy of `v` without leading and trailing whitespace.
pub fn trim(v: &Vec<char>) -> (r: Vec<char>)
    ensures
        r@ == spec_trim(v@),
{
    let mut lo: usize = 0;
    assert(v@.skip(0) =~= v@);
    while lo < v.len() && is_space(v[lo])
        invariant
            lo <= v@.len(),
            ltrim(v@.skip(lo as int)) == ltrim(v@),
        decreases v@.len() - lo,
    {
        assert(v@.skip(lo as int).skip(1) =~= v@.skip(lo + 1));
        lo += 1;
    }
    assert(ltrim(v@) == v@.skip(lo as int)) by {
        if lo < v.len() {
            assert(v@.skip(lo as int)[0] == v@[lo as int]);
        }
    }
    let mut hi: usize = v.len();
    while hi > lo && is_space(v[hi - 1])
        invariant
            lo <= hi <= v@.len(),
            rtrim(v@.subrange(lo as int, hi as int)) == rtrim(v@.skip(lo as int)),
        decreases hi,
    {
        assert(v@.subrange(lo as int, hi as int).drop_last() =~= v@.subrange(lo as int, hi - 1));
        assert(v@.subrange(lo as int, hi as int).last() == v@[hi - 1]);
        hi -= 1;
    }
    assert(rtrim(v@.subrange(lo as int, hi as int)) == v@.subrange(lo as int, hi as int)) by {
        if hi > lo {
            assert(v@.subrange(lo as int, hi as int).last() == v@[hi - 1]);
        }
    }
    subvec(v, lo, hi)
}

} // verus!
