//! Character and string predicates the pipeline is built on: ASCII
//! case-insensitive equality, whitespace trimming, decimal-digit tests,
//! and ordinal (code-point) lexicographic order.

use vstd::prelude::*;
use vstd::string::*;

verus! {

/// The code point of a character with an ASCII upper-case letter taken
/// down to its lower-case form; every other character is left alone.
pub open spec fn lower_u32(c: char) -> u32 {
    if 65 <= c as u32 <= 90 {
        (c as u32 + 32) as u32
    } else {
        c as u32
    }
}

/// Two characters are equal up to ASCII case.
pub open spec fn chars_ieq(a: char, b: char) -> bool {
    lower_u32(a) == lower_u32(b)
}

/// ASCII case-insensitive equality of two character sequences.
pub open spec fn str_ieq(a: Seq<char>, b: Seq<char>) -> bool {
    a.len() == b.len() && forall|i: int| 0 <= i < a.len() ==> chars_ieq(a[i], b[i])
}

/// Strings that agree up to ASCII case are interchangeable on either
/// side of a case-insensitive comparison.
pub proof fn lemma_str_ieq_equiv(a: Seq<char>, b: Seq<char>, n: Seq<char>)
    requires
        str_ieq(a, b),
    ensures
        str_ieq(a, n) <==> str_ieq(b, n),
{
    if str_ieq(a, n) {
        assert forall|i: int| 0 <= i < b.len() implies chars_ieq(b[i], n[i]) by {
            assert(chars_ieq(a[i], b[i]));
            assert(chars_ieq(a[i], n[i]));
        }
    }
    if str_ieq(b, n) {
        assert forall|i: int| 0 <= i < a.len() implies chars_ieq(a[i], n[i]) by {
            assert(chars_ieq(a[i], b[i]));
            assert(chars_ieq(b[i], n[i]));
        }
    }
}

/// One character of ASCII case-insensitive equality, decided in
/// executable code.
fn char_ieq(a: char, b: char) -> (r: bool)
    ensures
        r == chars_ieq(a, b),
{
    let au = a as u32;
    let bu = b as u32;
    let al = if 65 <= au && au <= 90 {
        au + 32
    } else {
        au
    };
    let bl = if 65 <= bu && bu <= 90 {
        bu + 32
    } else {
        bu
    };
    al == bl
}

/// ASCII case-insensitive string equality, as used for header-column
/// resolution and the privacy marker.
pub fn eq_ignore_case(a: &str, b: &str) -> (r: bool)
    ensures
        r == str_ieq(a@, b@),
{
    let alen = a.unicode_len();
    let blen = b.unicode_len();
    if alen != blen {
        return false;
    }
    let mut i: usize = 0;
    while i < alen
        invariant
            alen == a@.len(),
            blen == b@.len(),
            alen == blen,
            0 <= i <= alen,
            forall|j: int| 0 <= j < i ==> chars_ieq(a@[j], b@[j]),
        decreases alen - i,
    {
        if !char_ieq(a.get_char(i), b.get_char(i)) {
            return false;
        }
        i = i + 1;
    }
    true
}

/// A decimal digit in the ASCII range.
pub open spec fn is_digit_char(c: char) -> bool {
    48 <= c as u32 <= 57
}

/// Every character of the sequence is an ASCII decimal digit.
pub open spec fn all_digits(s: Seq<char>) -> bool {
    forall|i: int| 0 <= i < s.len() ==> is_digit_char(s[i])
}

/// The characters that count as whitespace for trimming: the Unicode
/// White_Space set.
pub open spec fn is_space_char(c: char) -> bool {
    ||| (9 <= c as u32 <= 13)
    ||| c as u32 == 32
    ||| c as u32 == 0x85
    ||| c as u32 == 0xA0
    ||| c as u32 == 0x1680
    ||| (0x2000 <= c as u32 <= 0x200A)
    ||| c as u32 == 0x2028
    ||| c as u32 == 0x2029
    ||| c as u32 == 0x202F
    ||| c as u32 == 0x205F
    ||| c as u32 == 0x3000
}

fn char_is_space(c: char) -> (r: bool)
    ensures
        r == is_space_char(c),
{
    let u = c as u32;
    (9 <= u && u <= 13) || u == 32 || u == 0x85 || u == 0xA0 || u == 0x1680 || (0x2000 <= u && u
        <= 0x200A) || u == 0x2028 || u == 0x2029 || u == 0x202F || u == 0x205F || u == 0x3000
}

/// The sequence with leading and trailing whitespace removed.
pub open spec fn trim_spec(s: Seq<char>) -> Seq<char> {
    trim_back(trim_front(s))
}

pub open spec fn trim_front(s: Seq<char>) -> Seq<char>
    decreases s.len(),
{
    if s.len() > 0 && is_space_char(s[0]) {
        trim_front(s.drop_first())
    } else {
        s
    }
}

pub open spec fn trim_back(s: Seq<char>) -> Seq<char>
    decreases s.len(),
{
    if s.len() > 0 && is_space_char(s.last()) {
        trim_back(s.drop_last())
    } else {
        s
    }
}

proof fn lemma_trim_front_skip(s: Seq<char>, lo: int)
    requires
        0 <= lo <= s.len(),
        forall|j: int| 0 <= j < lo ==> is_space_char(s[j]),
        lo < s.len() ==> !is_space_char(s[lo]),
    ensures
        trim_front(s) == s.skip(lo),
    decreases lo,
{
    if lo == 0 {
        assert(s.skip(0) =~= s);
    } else {
        lemma_trim_front_skip(s.drop_first(), lo - 1);
        assert(s.drop_first().skip(lo - 1) =~= s.skip(lo));
    }
}

proof fn lemma_trim_back_take(s: Seq<char>, hi: int)
    requires
        0 <= hi <= s.len(),
        forall|j: int| hi <= j < s.len() ==> is_space_char(s[j]),
        hi > 0 ==> !is_space_char(s[hi - 1]),
    ensures
        trim_back(s) == s.take(hi),
    decreases s.len() - hi,
{
    if hi == s.len() {
        assert(s.take(hi) =~= s);
    } else {
        lemma_trim_back_take(s.drop_last(), hi);
        assert(s.drop_last().take(hi) =~= s.take(hi));
    }
}

/// Whether the trimmed value marks a row as private: after removing
/// surrounding whitespace, the single letter `y` in either case is left.
pub open spec fn is_privacy_marker(s: Seq<char>) -> bool {
    str_ieq(trim_spec(s), seq!['y'])
}

/// Decides `is_privacy_marker` on a string slice.
pub fn privacy_marked(s: &str) -> (r: bool)
    ensures
        r == is_privacy_marker(s@),
{
    let len = s.unicode_len();
    let mut lo: usize = 0;
    while lo < len && char_is_space(s.get_char(lo))
        invariant
            len == s@.len(),
            0 <= lo <= len,
            forall|j: int| 0 <= j < lo ==> is_space_char(s@[j]),
        decreases len - lo,
    {
        lo = lo + 1;
    }
    proof {
        lemma_trim_front_skip(s@, lo as int);
    }
    let mut hi: usize = len;
    while hi > lo && char_is_space(s.get_char(hi - 1))
        invariant
            len == s@.len(),
            lo <= hi <= len,
            forall|j: int| 0 <= j < lo ==> is_space_char(s@[j]),
            lo < len ==> !is_space_char(s@[lo as int]),
            forall|j: int| hi <= j < len ==> is_space_char(s@[j]),
        decreases hi,
    {
        hi = hi - 1;
    }
    proof {
        let f = s@.skip(lo as int);
        lemma_trim_back_take(f, hi - lo);
        assert(trim_spec(s@) == f.take(hi - lo));
    }
    if hi - lo != 1 {
        proof {
            assert(trim_spec(s@).len() == hi - lo);
        }
        return false;
    }
    let c = s.get_char(lo);
    proof {
        assert(trim_spec(s@)[0] == s@[lo as int]);
        assert(trim_spec(s@).len() == 1);
    }
    char_ieq(c, 'y')
}

/// Ordinal (code-point) lexicographic order on character sequences:
/// `a` is less than or equal to `b`.
pub open spec fn lex_le(a: Seq<char>, b: Seq<char>) -> bool
    decreases a.len(),
{
    if a.len() == 0 {
        true
    } else if b.len() == 0 {
        false
    } else if (a[0] as u32) < (b[0] as u32) {
        true
    } else if (a[0] as u32) > (b[0] as u32) {
        false
    } else {
        lex_le(a.drop_first(), b.drop_first())
    }
}

/// `lex_le` is total: any two sequences compare one way or the other.
pub proof fn lemma_lex_le_total(a: Seq<char>, b: Seq<char>)
    ensures
        lex_le(a, b) || lex_le(b, a),
    decreases a.len(),
{
    if a.len() > 0 && b.len() > 0 && a[0] as u32 == b[0] as u32 {
        lemma_lex_le_total(a.drop_first(), b.drop_first());
    }
}

/// `lex_le` is transitive.
pub proof fn lemma_lex_le_trans(a: Seq<char>, b: Seq<char>, c: Seq<char>)
    requires
        lex_le(a, b),
        lex_le(b, c),
    ensures
        lex_le(a, c),
    decreases a.len(),
{
    if a.len() > 0 && b.len() > 0 && c.len() > 0 && a[0] as u32 == b[0] as u32 && b[0] as u32
        == c[0] as u32 {
        lemma_lex_le_trans(a.drop_first(), b.drop_first(), c.drop_first());
    }
}

/// Decides `lex_le` on two string slices.
pub fn str_le(a: &str, b: &str) -> (r: bool)
    ensures
        r == lex_le(a@, b@),
{
    let alen = a.unicode_len();
    let blen = b.unicode_len();
    let mut i: usize = 0;
    proof {
        assert(a@.skip(0) =~= a@);
        assert(b@.skip(0) =~= b@);
    }
    loop
        invariant
            alen == a@.len(),
            blen == b@.len(),
            0 <= i <= alen,
            0 <= i <= blen,
            lex_le(a@, b@) == lex_le(a@.skip(i as int), b@.skip(i as int)),
        decreases alen - i,
    {
        if i == alen {
            proof {
                assert(a@.skip(i as int).len() == 0);
            }
            return true;
        }
        if i == blen {
            proof {
                assert(b@.skip(i as int).len() == 0);
                assert(a@.skip(i as int).len() > 0);
            }
            return false;
        }
        let ca = a.get_char(i);
        let cb = b.get_char(i);
        proof {
            assert(a@.skip(i as int)[0] == a@[i as int]);
            assert(b@.skip(i as int)[0] == b@[i as int]);
        }
        if (ca as u32) < (cb as u32) {
            return true;
        }
        if (ca as u32) > (cb as u32) {
            return false;
        }
        proof {
            assert(a@.skip(i as int).drop_first() =~= a@.skip(i + 1));
            assert(b@.skip(i as int).drop_first() =~= b@.skip(i + 1));
        }
        i = i + 1;
    }
}

/// Relies on `String::push`: appends the given character to the end of
/// the string.
pub assume_specification[ String::push ](s: &mut String, c: char)
    ensures
        final(s)@ == old(s)@.push(c),
;

proof fn lemma_char_inj(a: char, b: char)
    requires
        a as u32 == b as u32,
    ensures
        a == b,
{
}

/// Case folding cannot turn a miss into a hit against a digit-only
/// key: a string equals a digit string up to ASCII case only when it
/// equals it outright.
pub proof fn lemma_ieq_on_digits(p: Seq<char>, k: Seq<char>)
    requires
        all_digits(k),
    ensures
        str_ieq(p, k) <==> p == k,
{
    if str_ieq(p, k) {
        assert forall|i: int| 0 <= i < p.len() implies p[i] == k[i] by {
            assert(chars_ieq(p[i], k[i]));
            assert(is_digit_char(k[i]));
            assert(p[i] as u32 == k[i] as u32);
            lemma_char_inj(p[i], k[i]);
        }
        assert(p =~= k);
    }
    if p == k {
        assert(str_ieq(p, k));
    }
}

} // verus!
