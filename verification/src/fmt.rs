//! Text building blocks: decimal and hexadecimal numerals, and turning
//! character sequences into owned strings.

use vstd::prelude::*;

verus! {

/// The digit of value `d` (below 16), upper-case for the letters.
pub open spec fn digit_char(d: nat) -> char {
    seq!['0', '1', '2', '3', '4', '5', '6', '7', '8', '9', 'A', 'B', 'C', 'D', 'E', 'F'][d as int]
}

/// The numeral of `n` in base `radix`, most significant digit first, with
/// no leading zeros (and a single `0` for zero).
pub open spec fn numeral(n: nat, radix: nat) -> Seq<char>
    recommends
        2 <= radix <= 16,
    decreases n,
{
    if n < radix || radix < 2 {
        seq![digit_char(n % 16)]
    } else {
        proof {
            assert(n / radix < n) by (nonlinear_arith)
                requires
                    radix >= 2,
                    n >= radix,
            ;
        }
        numeral(n / radix, radix).push(digit_char(n % radix))
    }
}

/// The decimal numeral of `n`.
pub open spec fn decimal(n: nat) -> Seq<char> {
    numeral(n, 10)
}

/// The upper-case hexadecimal numeral of `n`, without prefix.
pub open spec fn hex_upper(n: nat) -> Seq<char> {
    numeral(n, 16)
}

fn digit(d: u64) -> (c: char)
    requires
        d < 16,
    ensures
        c == digit_char(d as nat),
{
    let table = ['0', '1', '2', '3', '4', '5', '6', '7', '8', '9', 'A', 'B', 'C', 'D', 'E', 'F'];
    let c = table[d as usize];
    assert(table@ =~= seq!['0', '1', '2', '3', '4', '5', '6', '7', '8', '9', 'A', 'B', 'C', 'D', 'E', 'F']);
    c
}

/// Appends the numeral of `n` in base `radix` to `out`.
pub fn push_numeral(out: &mut Vec<char>, n: u64, radix: u64)
    requires
        2 <= radix <= 16,
    ensures
        final(out)@ == old(out)@ + numeral(n as nat, radix as nat),
    decreases n,
{
    if n < radix {
        out.push(digit(n));
        assert(n as nat % 16 == n as nat);
    } else {
        assert(n / radix < n) by (nonlinear_arith)
            requires
                radix >= 2,
                n >= radix,
        ;
        push_numeral(out, n / radix, radix);
        out.push(digit(n % radix));
    }
}

/// The characters of `s`, in order.
pub fn chars_of(s: &str) -> (v: Vec<char>)
    ensures
        v@ == s@,
{
    let mut v: Vec<char> = Vec::new();
    for c in it: s.chars()
        invariant
            v@ == it.seq().take(it.index() as int),
    {
        v.push(c);
    }
    assert(v@ == s@);
    v
}

/// The owned string made of the characters in `chars`.
///
/// Calls std's `FromIterator<&char>` for `String`; trusted to yield exactly
/// those characters, in order.
#[verifier::external_body]
pub(crate) fn string_from_chars(chars: &Vec<char>) -> (s: String)
    ensures
        s@ == chars@,
{
    chars.iter().collect()
}

/// Appends the characters of `s` to `out`.
pub fn push_str(out: &mut Vec<char>, s: &str)
    ensures
        final(out)@ == old(out)@ + s@,
{
    let cs = chars_of(s);
    let mut i: usize = 0;
    while i < cs.len()
        invariant
            0 <= i <= cs@.len(),
            cs@ == s@,
            out@ == old(out)@ + s@.take(i as int),
        decreases cs@.len() - i,
    {
        out.push(cs[i]);
        i += 1;
        assert(s@.take(i as int) == s@.take(i - 1) + seq![s@[i - 1]]);
    }
    assert(s@.take(i as int) == s@);
}

/// Whether `a` comes strictly before `b` in lexicographic order by code
/// point, the order of `str`'s `Ord` (UTF-8 keeps code-point order).
pub open spec fn chars_lt(a: Seq<char>, b: Seq<char>) -> bool
    decreases a.len(),
{
    if b.len() == 0 {
        false
    } else if a.len() == 0 {
        true
    } else if a[0] != b[0] {
        (a[0] as int) < (b[0] as int)
    } else {
        chars_lt(a.drop_first(), b.drop_first())
    }
}

proof fn lemma_chars_lt_step(a: Seq<char>, b: Seq<char>, i: int)
    requires
        0 <= i <= a.len(),
        i <= b.len(),
        a.take(i) == b.take(i),
    ensures
        chars_lt(a, b) == chars_lt(a.skip(i), b.skip(i)),
    decreases i,
{
    if i > 0 {
        assert(a[0] == a.take(i)[0]);
        assert(b[0] == b.take(i)[0]);
        assert(a.drop_first().take(i - 1) == a.take(i).drop_first());
        assert(b.drop_first().take(i - 1) == b.take(i).drop_first());
        lemma_chars_lt_step(a.drop_first(), b.drop_first(), i - 1);
        assert(a.drop_first().skip(i - 1) == a.skip(i));
        assert(b.drop_first().skip(i - 1) == b.skip(i));
    } else {
        assert(a.skip(0) == a);
        assert(b.skip(0) == b);
    }
}

pub proof fn lemma_chars_lt_irreflexive(a: Seq<char>)
    ensures
        !chars_lt(a, a),
    decreases a.len(),
{
    if a.len() > 0 {
        lemma_chars_lt_irreflexive(a.drop_first());
    }
}

pub proof fn lemma_chars_lt_asymmetric(a: Seq<char>, b: Seq<char>)
    ensures
        chars_lt(a, b) ==> !chars_lt(b, a),
    decreases a.len(),
{
    if a.len() > 0 && b.len() > 0 && a[0] == b[0] {
        lemma_chars_lt_asymmetric(a.drop_first(), b.drop_first());
    }
}

pub proof fn lemma_chars_lt_total(a: Seq<char>, b: Seq<char>)
    ensures
        a != b ==> chars_lt(a, b) || chars_lt(b, a),
    decreases a.len(),
{
    if a.len() > 0 && b.len() > 0 && a[0] == b[0] {
        lemma_chars_lt_total(a.drop_first(), b.drop_first());
        if a.drop_first() == b.drop_first() {
            assert(a =~= seq![a[0]] + a.drop_first());
            assert(b =~= seq![b[0]] + b.drop_first());
        }
    } else if a.len() == 0 && b.len() == 0 {
        assert(a =~= b);
    } else if a.len() > 0 && b.len() > 0 {
        assert(a[0] as int != b[0] as int);
    }
}

pub proof fn lemma_chars_lt_transitive(a: Seq<char>, b: Seq<char>, c: Seq<char>)
    ensures
        chars_lt(a, b) && chars_lt(b, c) ==> chars_lt(a, c),
    decreases a.len(),
{
    if a.len() > 0 && b.len() > 0 && c.len() > 0 {
        lemma_chars_lt_transitive(a.drop_first(), b.drop_first(), c.drop_first());
    }
}

/// Whether `a` sorts strictly before `b`.
pub fn str_lt(a: &str, b: &str) -> (r: bool)
    ensures
        r == chars_lt(a@, b@),
{
    let x = chars_of(a);
    let y = chars_of(b);
    let mut i: usize = 0;
    while i < x.len() && i < y.len()
        invariant
            0 <= i <= x@.len(),
            i <= y@.len(),
            x@ == a@,
            y@ == b@,
            x@.take(i as int) == y@.take(i as int),
        decreases x@.len() - i,
    {
        if x[i] != y[i] {
            proof {
                lemma_chars_lt_step(x@, y@, i as int);
            }
            return x[i] < y[i];
        }
        assert(x@.take(i + 1) == x@.take(i as int).push(x@[i as int]));
        assert(y@.take(i + 1) == y@.take(i as int).push(y@[i as int]));
        i += 1;
    }
    proof {
        lemma_chars_lt_step(x@, y@, i as int);
    }
    i < y.len()
}

/// Whether `a` and `b` hold the same characters.
pub fn str_eq(a: &str, b: &str) -> (r: bool)
    ensures
        r == (a@ == b@),
{
    let x = chars_of(a);
    let y = chars_of(b);
    if x.len() != y.len() {
        return false;
    }
    let mut i: usize = 0;
    while i < x.len()
        invariant
            0 <= i <= x@.len(),
            x@.len() == y@.len(),
            x@ == a@,
            y@ == b@,
            forall|j: int| 0 <= j < i ==> x@[j] == y@[j],
        decreases x@.len() - i,
    {
        if x[i] != y[i] {
            return false;
        }
        i += 1;
    }
    assert(x@ =~= y@);
    true
}

/// How many bytes UTF-8 takes for `c`.
pub open spec fn utf8_width(c: char) -> nat {
    let u = c as u32;
    if u < 0x80 {
        1
    } else if u < 0x800 {
        2
    } else if u < 0x10000 {
        3
    } else {
        4
    }
}

/// How many bytes UTF-8 takes for the characters `s`.
pub open spec fn utf8_len(s: Seq<char>) -> nat
    decreases s.len(),
{
    if s.len() == 0 {
        0
    } else {
        utf8_len(s.drop_last()) + utf8_width(s.last())
    }
}

/// How many bytes UTF-8 takes for `c`.
pub fn char_width(c: char) -> (r: usize)
    ensures
        r == utf8_width(c),
{
    let u = c as u32;
    if u < 0x80 {
        1
    } else if u < 0x800 {
        2
    } else if u < 0x10000 {
        3
    } else {
        4
    }
}

pub proof fn lemma_utf8_len_bound(s: Seq<char>)
    ensures
        utf8_len(s) <= 4 * s.len(),
    decreases s.len(),
{
    if s.len() > 0 {
        lemma_utf8_len_bound(s.drop_last());
    }
}

/// How many bytes UTF-8 takes for the characters `s`, when that fits.
pub fn utf8_length(s: &Vec<char>) -> (r: Option<usize>)
    ensures
        match r {
            Some(n) => n == utf8_len(s@),
            None => utf8_len(s@) > usize::MAX,
        },
{
    let mut n: usize = 0;
    let mut i: usize = 0;
    while i < s.len()
        invariant
            0 <= i <= s@.len(),
            n == utf8_len(s@.take(i as int)),
        decreases s@.len() - i,
    {
        assert(s@.take(i + 1).drop_last() == s@.take(i as int));
        assert(s@.take(i + 1).last() == s@[i as int]);
        let w = char_width(s[i]);
        if n > usize::MAX - w {
            proof {
                lemma_utf8_len_prefix(s@, i + 1);
            }
            return None;
        }
        n = n + w;
        i += 1;
    }
    assert(s@.take(i as int) == s@);
    Some(n)
}

pub proof fn lemma_utf8_len_prefix(s: Seq<char>, i: int)
    requires
        0 <= i <= s.len(),
    ensures
        utf8_len(s.take(i)) <= utf8_len(s),
    decreases s.len() - i,
{
    if i < s.len() {
        lemma_utf8_len_prefix(s, i + 1);
        assert(s.take(i + 1).drop_last() == s.take(i));
    } else {
        assert(s.take(i) == s);
    }
}

/// Whether `a` starts with `b`.
pub open spec fn starts_with(a: Seq<char>, b: Seq<char>) -> bool {
    a.len() >= b.len() && a.take(b.len() as int) == b
}

/// Whether `a` starts with `b`.
pub fn chars_start_with(a: &Vec<char>, b: &Vec<char>) -> (r: bool)
    ensures
        r == starts_with(a@, b@),
{
    if a.len() < b.len() {
        return false;
    }
    let mut i: usize = 0;
    while i < b.len()
        invariant
            0 <= i <= b@.len(),
            b@.len() <= a@.len(),
            forall|j: int| 0 <= j < i ==> a@[j] == b@[j],
        decreases b@.len() - i,
    {
        if a[i] != b[i] {
            assert(a@.take(b@.len() as int)[i as int] != b@[i as int]);
            return false;
        }
        i += 1;
    }
    assert(a@.take(b@.len() as int) =~= b@);
    true
}

} // verus!
