//! Character-level helpers shared by the envelope, fold and render modules.
//!
//! Strings are reasoned about through their views (`Seq<char>`); the work is
//! done on `Vec<char>` and converted back at the edges.
use vstd::prelude::*;

verus! {

/// The characters of `s`, in order.
pub(crate) fn chars_of(s: &str) -> (v: Vec<char>)
    ensures
        v@ == s@,
{
    let mut v: Vec<char> = Vec::new();
    for c in it: s.chars()
        invariant
            it.seq() == s@,
            v@ == s@.take(it.index() as int),
    {
        proof {
            assert(s@.take(it.index() + 1) =~= v@.push(c));
        }
        v.push(c);
    }
    proof {
        assert(v@.len() == s@.len());
        assert(s@.take(s@.len() as int) =~= s@);
    }
    v
}

/// The string made of the characters of `cs`, in order.
#[verifier::external_body]
pub(crate) fn string_of(cs: &[char]) -> (s: String)
    ensures
        s@ == cs@,
{
    cs.iter().collect()
}

/// Owned copy of a string slice.
pub fn owned(s: &str) -> (r: String)
    ensures
        r@ == s@,
{
    s.to_owned()
}

/// Equality of two string slices, by their characters.
pub fn str_eq(a: &str, b: &str) -> (r: bool)
    ensures
        r == (a@ == b@),
{
    a.to_owned() == b.to_owned()
}

/// `c` is a control character (Unicode general category Cc).
pub open spec fn is_control(c: char) -> bool {
    (c as u32) <= 0x1f || (0x7f <= (c as u32) && (c as u32) <= 0x9f)
}

pub fn char_is_control(c: char) -> (r: bool)
    ensures
        r == is_control(c),
{
    (c as u32) <= 0x1f || (0x7f <= (c as u32) && (c as u32) <= 0x9f)
}

/// Some character of `s` is a control character.
pub open spec fn has_control(s: Seq<char>) -> bool {
    exists|i: int| 0 <= i < s.len() && is_control(#[trigger] s[i])
}

pub fn any_control(s: &str) -> (r: bool)
    ensures
        r == has_control(s@),
{
    let cs = chars_of(s);
    let mut i: usize = 0;
    while i < cs.len()
        invariant
            i <= cs@.len(),
            cs@ == s@,
            forall|j: int| 0 <= j < i ==> !is_control(#[trigger] cs@[j]),
        decreases cs@.len() - i,
    {
        if char_is_control(cs[i]) {
            return true;
        }
        i = i + 1;
    }
    false
}

/// Strict lexicographic order on character sequences, comparing characters
/// by code point. For UTF-8 strings this is the byte order that `String`'s
/// `Ord` uses.
pub open spec fn seq_lt(a: Seq<char>, b: Seq<char>) -> bool
    decreases a.len(),
{
    if b.len() == 0 {
        false
    } else if a.len() == 0 {
        true
    } else if (a[0] as u32) < (b[0] as u32) {
        true
    } else if (a[0] as u32) > (b[0] as u32) {
        false
    } else {
        seq_lt(a.drop_first(), b.drop_first())
    }
}

pub proof fn lemma_seq_lt_irreflexive(a: Seq<char>)
    ensures
        !seq_lt(a, a),
    decreases a.len(),
{
    if a.len() > 0 {
        lemma_seq_lt_irreflexive(a.drop_first());
    }
}

pub proof fn lemma_seq_lt_transitive(a: Seq<char>, b: Seq<char>, c: Seq<char>)
    requires
        seq_lt(a, b),
        seq_lt(b, c),
    ensures
        seq_lt(a, c),
    decreases a.len(),
{
    if a.len() > 0 && b.len() > 0 && c.len() > 0 {
        if (a[0] as u32) == (b[0] as u32) && (b[0] as u32) == (c[0] as u32) {
            lemma_seq_lt_transitive(a.drop_first(), b.drop_first(), c.drop_first());
        }
    }
}

pub proof fn lemma_seq_lt_total(a: Seq<char>, b: Seq<char>)
    ensures
        seq_lt(a, b) || seq_lt(b, a) || a == b,
    decreases a.len(),
{
    if a.len() > 0 && b.len() > 0 {
        if (a[0] as u32) == (b[0] as u32) {
            lemma_seq_lt_total(a.drop_first(), b.drop_first());
            if a.drop_first() == b.drop_first() {
                assert(a =~= seq![a[0]] + a.drop_first());
                assert(b =~= seq![b[0]] + b.drop_first());
                vstd::utf8::char_u32_cast(a[0], a[0] as u32);
                vstd::utf8::char_u32_cast(b[0], b[0] as u32);
                assert(a[0] == b[0]);
            }
        }
    } else if a.len() == 0 && b.len() == 0 {
        assert(a =~= b);
    }
}

pub proof fn lemma_seq_lt_asymmetric(a: Seq<char>, b: Seq<char>)
    requires
        seq_lt(a, b),
    ensures
        !seq_lt(b, a),
{
    if seq_lt(b, a) {
        lemma_seq_lt_transitive(a, b, a);
        lemma_seq_lt_irreflexive(a);
    }
}

/// `a` sorts before `b` when they agree up to position `n` and `a` has the
/// smaller character there.
pub proof fn lemma_seq_lt_at(a: Seq<char>, b: Seq<char>, n: int)
    requires
        0 <= n < a.len(),
        n < b.len(),
        a.take(n) == b.take(n),
        (a[n] as u32) < (b[n] as u32),
    ensures
        seq_lt(a, b),
    decreases n,
{
    if n > 0 {
        assert(a[0] == a.take(n)[0]);
        assert(b[0] == b.take(n)[0]);
        assert(a.drop_first().take(n - 1) =~= a.take(n).drop_first());
        assert(b.drop_first().take(n - 1) =~= b.take(n).drop_first());
        lemma_seq_lt_at(a.drop_first(), b.drop_first(), n - 1);
    }
}

/// Compares `a` and `b`: `-1` when `a` sorts first, `0` when equal, `1` otherwise.
pub fn compare_str(a: &str, b: &str) -> (r: i8)
    ensures
        r == -1 <==> seq_lt(a@, b@),
        r == 0 <==> a@ == b@,
        r == 1 <==> seq_lt(b@, a@),
{
    let x = chars_of(a);
    let y = chars_of(b);
    let mut i: usize = 0;
    while i < x.len() && i < y.len()
        invariant
            x@ == a@,
            y@ == b@,
            i <= x@.len(),
            i <= y@.len(),
            x@.subrange(0, i as int) == y@.subrange(0, i as int),
        decreases x@.len() - i,
    {
        if (x[i] as u32) != (y[i] as u32) {
            proof {
                lemma_seq_lt_common_prefix(x@, y@, i as nat);
            }
            if (x[i] as u32) < (y[i] as u32) {
                return -1;
            } else {
                return 1;
            }
        }
        proof {
            vstd::utf8::char_u32_cast(x@[i as int], x@[i as int] as u32);
            vstd::utf8::char_u32_cast(y@[i as int], y@[i as int] as u32);
            assert(x@[i as int] == y@[i as int]);
            assert(x@.subrange(0, i + 1) =~= x@.subrange(0, i as int).push(x@[i as int]));
            assert(y@.subrange(0, i + 1) =~= y@.subrange(0, i as int).push(y@[i as int]));
        }
        i = i + 1;
    }
    proof {
        lemma_seq_lt_common_prefix(x@, y@, i as nat);
    }
    if x.len() == y.len() {
        proof {
            assert(x@ =~= x@.subrange(0, i as int));
            assert(y@ =~= y@.subrange(0, i as int));
            lemma_seq_lt_irreflexive(a@);
        }
        0
    } else if x.len() < y.len() {
        proof {
            lemma_seq_lt_asymmetric(a@, b@);
            assert(a@ != b@);
        }
        -1
    } else {
        proof {
            lemma_seq_lt_asymmetric(b@, a@);
            assert(a@.len() != b@.len());
        }
        1
    }
}

/// Two sequences that agree on their first `n` characters compare as their
/// suffixes from `n` do.
pub proof fn lemma_seq_lt_common_prefix(a: Seq<char>, b: Seq<char>, n: nat)
    requires
        n <= a.len(),
        n <= b.len(),
        a.subrange(0, n as int) == b.subrange(0, n as int),
    ensures
        seq_lt(a, b) == seq_lt(a.subrange(n as int, a.len() as int), b.subrange(n as int, b.len() as int)),
        seq_lt(b, a) == seq_lt(b.subrange(n as int, b.len() as int), a.subrange(n as int, a.len() as int)),
    decreases n,
{
    if n > 0 {
        assert(a[0] == a.subrange(0, n as int)[0]);
        assert(b[0] == b.subrange(0, n as int)[0]);
        assert(a.drop_first().subrange(0, n - 1) =~= a.subrange(0, n as int).drop_first());
        assert(b.drop_first().subrange(0, n - 1) =~= b.subrange(0, n as int).drop_first());
        lemma_seq_lt_common_prefix(a.drop_first(), b.drop_first(), (n - 1) as nat);
        assert(a.drop_first().subrange(n - 1, a.len() - 1) =~= a.subrange(n as int, a.len() as int));
        assert(b.drop_first().subrange(n - 1, b.len() - 1) =~= b.subrange(n as int, b.len() as int));
    } else {
        assert(a.subrange(0, a.len() as int) =~= a);
        assert(b.subrange(0, b.len() as int) =~= b);
    }
}

/// Decimal digits of `n`, most significant first, without leading zeros.
pub open spec fn decimal(n: nat) -> Seq<char>
    decreases n,
{
    if n < 10 {
        seq![digit_char((n % 10) as nat)]
    } else {
        decimal(n / 10).push(digit_char((n % 10) as nat))
    }
}

pub open spec fn digit_char(d: nat) -> char {
    if d == 0 { '0' }
    else if d == 1 { '1' }
    else if d == 2 { '2' }
    else if d == 3 { '3' }
    else if d == 4 { '4' }
    else if d == 5 { '5' }
    else if d == 6 { '6' }
    else if d == 7 { '7' }
    else if d == 8 { '8' }
    else { '9' }
}

/// Decimal text of a signed integer: a leading `-` for negatives.
pub open spec fn signed_decimal(n: int) -> Seq<char> {
    if n < 0 {
        seq!['-'] + decimal((-n) as nat)
    } else {
        decimal(n as nat)
    }
}

fn digit(d: u64) -> (c: char)
    requires
        d < 10,
    ensures
        c == digit_char(d as nat),
{
    if d == 0 { '0' }
    else if d == 1 { '1' }
    else if d == 2 { '2' }
    else if d == 3 { '3' }
    else if d == 4 { '4' }
    else if d == 5 { '5' }
    else if d == 6 { '6' }
    else if d == 7 { '7' }
    else if d == 8 { '8' }
    else { '9' }
}

/// Decimal text of `n`.
pub fn u64_decimal(n: u64) -> (s: String)
    ensures
        s@ == decimal(n as nat),
{
    let mut rev: Vec<char> = Vec::new();
    let mut m: u64 = n;
    // Collect digits least significant first.
    loop
        invariant_except_break
            m > 0 || rev@.len() == 0,
        invariant
            decimal(n as nat) == decimal_rest(m as nat, rev@.len() == 0) + rev@.reverse(),
            rev@.len() == 0 ==> m == n,
        ensures
            decimal(n as nat) == rev@.reverse(),
        decreases m, if rev@.len() == 0 { 1int } else { 0int },
    {
        let d = m % 10;
        let ghost before = rev@;
        rev.push(digit(d));
        proof {
            lemma_decimal_step(m as nat, n as nat, before, before.len() == 0);
            assert(before.push(digit_char(d as nat)) == rev@);
        }
        m = m / 10;
        if m == 0 {
            assert(decimal(n as nat) =~= rev@.reverse());
            break;
        }
    }
    let mut out: Vec<char> = Vec::new();
    let mut i: usize = rev.len();
    while i > 0
        invariant
            i <= rev@.len(),
            out@ == rev@.subrange(i as int, rev@.len() as int).reverse(),
        decreases i,
    {
        i = i - 1;
        out.push(rev[i]);
        proof {
            assert(rev@.subrange(i as int, rev@.len() as int).reverse() =~= rev@.subrange(
                (i + 1) as int,
                rev@.len() as int,
            ).reverse().push(rev@[i as int]));
        }
    }
    proof {
        assert(rev@.subrange(0, rev@.len() as int) =~= rev@);
    }
    string_of(out.as_slice())
}

/// The leading digits of `n` not yet written, when `m` is what remains of it:
/// the decimal text of `m`, or nothing once `m` reaches zero after the first
/// digit was written.
pub open spec fn decimal_rest(m: nat, first: bool) -> Seq<char> {
    if m == 0 && !first { Seq::empty() } else { decimal(m) }
}

proof fn lemma_decimal_step(m: nat, n: nat, rev: Seq<char>, first: bool)
    requires
        m > 0 || first,
        decimal(n) == decimal_rest(m, first) + rev.reverse(),
    ensures
        decimal(n) == decimal_rest(m / 10, false) + rev.push(digit_char(m % 10)).reverse(),
{
    assert(rev.push(digit_char(m % 10)).reverse() =~= seq![digit_char(m % 10)] + rev.reverse());
    assert(decimal_rest(m, first) == decimal(m));
    if m < 10 {
        assert(decimal(m) == seq![digit_char(m % 10)]);
        assert(decimal_rest(m / 10, false) == Seq::<char>::empty());
        assert(decimal(n) =~= decimal_rest(m / 10, false) + rev.push(digit_char(m % 10)).reverse());
    } else {
        assert(decimal(m) == decimal(m / 10).push(digit_char(m % 10)));
        assert(decimal(n) =~= decimal_rest(m / 10, false) + rev.push(digit_char(m % 10)).reverse());
    }
}

/// Decimal text of a signed integer.
pub fn i64_decimal(n: i64) -> (s: String)
    ensures
        s@ == signed_decimal(n as int),
{
    if n < 0 {
        let magnitude: u64 = if n == i64::MIN {
            9223372036854775808u64
        } else {
            (-n) as u64
        };
        let digits = u64_decimal(magnitude);
        let mut out = owned("-");
        proof {
            reveal_strlit("-");
        }
        out.append(digits.as_str());
        assert(out@ =~= seq!['-'] + decimal((-n) as nat));
        out
    } else {
        u64_decimal(n as u64)
    }
}

} // verus!

verus! {

/// `a` followed by `b`.
pub fn concat(a: &str, b: &str) -> (r: String)
    ensures
        r@ == a@ + b@,
{
    let mut r = owned(a);
    r.append(b);
    r
}

/// The view of an optional string.
pub open spec fn opt_view(o: Option<String>) -> Option<Seq<char>> {
    match o {
        Some(s) => Some(s@),
        None => None,
    }
}

/// A copy of an optional string.
pub fn opt_clone(o: &Option<String>) -> (r: Option<String>)
    ensures
        opt_view(r) == opt_view(*o),
{
    match o {
        Some(s) => Some(s.clone()),
        None => None,
    }
}

/// Number of bytes of the UTF-8 encoding of `s`.
pub open spec fn utf8_len(s: Seq<char>) -> nat {
    vstd::utf8::encode_utf8(s).len()
}

/// Byte length of a string.
pub fn byte_len(s: &str) -> (n: usize)
    ensures
        n == utf8_len(s@),
{
    s.as_bytes().len()
}

} // verus!
