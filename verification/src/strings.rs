//! Small verified string utilities shared by the rest of the library:
//! building strings character by character, decimal rendering of numbers,
//! ASCII lowercasing and lexicographic comparison.

use vstd::prelude::*;

verus! {

/// Relies on `String::push`: appends exactly one character.
#[verifier::external_body]
pub fn string_push(s: &mut String, c: char)
    ensures
        final(s)@ == old(s)@.push(c),
{
    s.push(c);
}

/// The characters of a string slice, as a vector.
#[verifier::loop_isolation(false)]
pub fn str_to_chars(s: &str) -> (r: Vec<char>)
    ensures
        r@ == s@,
{
    let mut r: Vec<char> = Vec::new();
    for c in it: s.chars()
        invariant
            it.seq() == s@,
            r@ =~= s@.take(it.index() as int),
    {
        r.push(c);
        proof {
            assert(s@.take(it.index() + 1) =~= s@.take(it.index() as int).push(c));
        }
    }
    proof {
        assert(s@.take(s@.len() as int) =~= s@);
    }
    r
}

/// Whether two string slices hold the same characters.
#[verifier::loop_isolation(false)]
pub fn str_eq(a: &str, b: &str) -> (r: bool)
    ensures
        r == (a@ == b@),
{
    let ca = str_to_chars(a);
    let cb = str_to_chars(b);
    if ca.len() != cb.len() {
        return false;
    }
    let n = ca.len();
    for i in 0..n
        invariant
            forall|j: int| 0 <= j < i ==> a@[j] == b@[j],
    {
        if ca[i] != cb[i] {
            return false;
        }
    }
    proof {
        assert(a@ =~= b@);
    }
    true
}

/// Whether `p` is a prefix of `s`.
#[verifier::loop_isolation(false)]
pub fn str_starts_with(s: &str, p: &str) -> (r: bool)
    ensures
        r == (s@.len() >= p@.len() && s@.take(p@.len() as int) == p@),
{
    let cs = str_to_chars(s);
    let cp = str_to_chars(p);
    if cs.len() < cp.len() {
        return false;
    }
    let n = cp.len();
    for i in 0..n
        invariant
            cs@.len() >= n,
            forall|j: int| 0 <= j < i ==> s@[j] == p@[j],
    {
        if cs[i] != cp[i] {
            assert(s@.take(p@.len() as int)[i as int] != p@[i as int]);
            return false;
        }
    }
    proof {
        assert(s@.take(p@.len() as int) =~= p@);
    }
    true
}

/// Lexicographic order on character sequences, comparing scalar values.
pub open spec fn lex_le(a: Seq<char>, b: Seq<char>) -> bool
    decreases a.len(),
{
    if a.len() == 0 {
        true
    } else if b.len() == 0 {
        false
    } else if a[0] != b[0] {
        a[0] < b[0]
    } else {
        lex_le(a.drop_first(), b.drop_first())
    }
}

/// Relies on `str`'s `PartialOrd`: string slices are ordered lexicographically
/// by byte value, which on UTF-8 text coincides with lexicographic order on
/// the scalar values of the characters.
#[verifier::external_body]
pub fn str_le(a: &str, b: &str) -> (r: bool)
    ensures
        r == lex_le(a@, b@),
{
    a <= b
}

/// `lex_le` is total: two sequences are always comparable.
pub proof fn lemma_lex_le_total(a: Seq<char>, b: Seq<char>)
    ensures
        lex_le(a, b) || lex_le(b, a),
    decreases a.len(),
{
    if a.len() != 0 && b.len() != 0 && a[0] == b[0] {
        lemma_lex_le_total(a.drop_first(), b.drop_first());
    }
}

/// `lex_le` is transitive.
pub proof fn lemma_lex_le_trans(a: Seq<char>, b: Seq<char>, c: Seq<char>)
    requires
        lex_le(a, b),
        lex_le(b, c),
    ensures
        lex_le(a, c),
    decreases a.len(),
{
    if a.len() != 0 && b.len() != 0 && c.len() != 0 && a[0] == b[0] && b[0] == c[0] {
        lemma_lex_le_trans(a.drop_first(), b.drop_first(), c.drop_first());
    }
}


/// `lex_le` is antisymmetric: mutual order means equality.
pub proof fn lemma_lex_le_antisym(a: Seq<char>, b: Seq<char>)
    requires
        lex_le(a, b),
        lex_le(b, a),
    ensures
        a == b,
    decreases a.len(),
{
    if a.len() == 0 {
        assert(b.len() == 0);
        assert(a =~= b);
    } else {
        assert(b.len() != 0);
        assert(a[0] == b[0]);
        lemma_lex_le_antisym(a.drop_first(), b.drop_first());
        assert(a.drop_first() == b.drop_first());
        assert(a.len() == b.len());
        assert forall|i: int| 0 <= i < a.len() implies a[i] == b[i] by {
            if i > 0 {
                assert(a.drop_first()[i - 1] == a[i]);
                assert(b.drop_first()[i - 1] == b[i]);
            }
        }
        assert(a =~= b);
    }
}

/// The lowercase form of one character: ASCII letters are folded, everything
/// else is unchanged.
pub open spec fn lower_char(c: char) -> char {
    if 'A' <= c && c <= 'Z' {
        (((c as u8) + 32) as u8) as char
    } else {
        c
    }
}

/// A character sequence with every ASCII letter folded to lowercase.
pub open spec fn lower_chars(s: Seq<char>) -> Seq<char> {
    s.map_values(|c: char| lower_char(c))
}

/// Fold the ASCII letters of a string to lowercase, leaving all other
/// characters unchanged.
#[verifier::loop_isolation(false)]
pub fn ascii_lower(s: &str) -> (r: String)
    ensures
        r@ == lower_chars(s@),
{
    let mut r = String::new();
    for c in it: s.chars()
        invariant
            it.seq() == s@,
            r@ =~= lower_chars(s@.take(it.index() as int)),
    {
        let lc = if c >= 'A' && c <= 'Z' {
            (((c as u8) + 32) as u8) as char
        } else {
            c
        };
        string_push(&mut r, lc);
        proof {
            assert(c == s@[it.index() as int]);
            assert(lc == lower_char(c));
            assert(s@.take(it.index() + 1) =~= s@.take(it.index() as int).push(c));
            assert(r@ =~= lower_chars(s@.take(it.index() + 1)));
        }
    }
    proof {
        assert(s@.take(s@.len() as int) =~= s@);
    }
    r
}

/// The decimal digit character for `d` (which must be below ten).
pub open spec fn digit_char(d: nat) -> char {
    ((48 + d) as u8) as char
}

/// The decimal rendering of a natural number, most significant digit first,
/// without leading zeros (zero itself is rendered as one digit).
pub open spec fn dec_chars(n: nat) -> Seq<char>
    decreases n,
{
    if n < 10 {
        seq![digit_char(n)]
    } else {
        dec_chars(n / 10).push(digit_char(n % 10))
    }
}

/// Render a number in decimal.
#[verifier::loop_isolation(false)]
pub fn u32_to_string(n: u32) -> (r: String)
    ensures
        r@ == dec_chars(n as nat),
{
    let mut digits: Vec<char> = Vec::new();
    let mut m = n;
    while m != 0
        invariant
            m > 0 ==> dec_chars(n as nat) =~= dec_chars(m as nat) + digits@.reverse(),
            m == 0 ==> n == 0 || dec_chars(n as nat) =~= digits@.reverse(),
            n > 0 ==> m > 0 || digits@.len() > 0,
        decreases m,
    {
        let d = ((48 + m % 10) as u8) as char;
        let ghost prev = digits@;
        digits.push(d);
        proof {
            assert(d == digit_char((m % 10) as nat));
            assert(digits@.reverse() =~= seq![d] + prev.reverse());
            if m >= 10 {
                assert(dec_chars(m as nat) =~= dec_chars((m / 10) as nat) + seq![d]);
                assert(dec_chars((m / 10) as nat) + digits@.reverse() =~= dec_chars(m as nat)
                    + prev.reverse());
            } else {
                assert(dec_chars(m as nat) =~= seq![d]);
            }
        }
        m = m / 10;
    }
    let mut r = String::new();
    if n == 0 {
        string_push(&mut r, '0');
        proof {
            assert(dec_chars(0) =~= seq!['0']);
        }
        return r;
    }
    let len = digits.len();
    for i in 0..len
        invariant
            r@ =~= digits@.reverse().take(i as int),
    {
        string_push(&mut r, digits[len - 1 - i]);
        proof {
            assert(digits@.reverse()[i as int] == digits@[len - 1 - i]);
            assert(r@ =~= digits@.reverse().take(i + 1));
        }
    }
    proof {
        assert(digits@.reverse().take(len as int) =~= digits@.reverse());
    }
    r
}


/// Replace a known prefix of a string: the result is `new_p` followed by what
/// comes after `old_p` in `s`.
#[verifier::loop_isolation(false)]
pub fn str_swap_prefix(s: &str, old_p: &str, new_p: &str) -> (r: String)
    requires
        s@.len() >= old_p@.len(),
        s@.take(old_p@.len() as int) == old_p@,
    ensures
        r@ == new_p@ + s@.skip(old_p@.len() as int),
{
    let mut r = new_p.to_owned();
    let cs = str_to_chars(s);
    let cp = str_to_chars(old_p);
    let k = cp.len();
    let n = cs.len();
    let mut i = k;
    proof {
        assert(r@ =~= new_p@ + s@.subrange(k as int, k as int));
    }
    while i < n
        invariant
            k <= i <= n,
            n == s@.len(),
            r@ =~= new_p@ + s@.subrange(k as int, i as int),
        decreases n - i,
    {
        string_push(&mut r, cs[i]);
        proof {
            assert(s@.subrange(k as int, i + 1) =~= s@.subrange(k as int, i as int).push(
                s@[i as int],
            ));
        }
        i = i + 1;
    }
    proof {
        assert(s@.subrange(k as int, n as int) =~= s@.skip(k as int));
    }
    r
}
} // verus!
