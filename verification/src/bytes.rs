//! Byte-string helpers: equality, prefixes, lexicographic order, and the
//! decimal rendering and parsing that derived names and the stats parser use.

use vstd::prelude::*;

verus! {

/// A byte is an ASCII decimal digit.
pub open spec fn is_digit(b: u8) -> bool {
    48 <= b && b <= 57
}

/// The ASCII digit for a value below ten.
pub open spec fn digit_of(n: nat) -> u8
    recommends
        n < 10,
{
    (48 + n) as u8
}

/// Decimal digits of `n`, empty for zero.
pub open spec fn dec_digits(n: nat) -> Seq<u8>
    decreases n,
{
    if n == 0 {
        Seq::empty()
    } else {
        dec_digits(n / 10).push(digit_of(n % 10))
    }
}

/// Canonical decimal rendering of `n` (a single `0` for zero).
pub open spec fn dec_of(n: nat) -> Seq<u8> {
    if n == 0 {
        seq![48u8]
    } else {
        dec_digits(n)
    }
}

/// Numeric value of a digit string.
pub open spec fn dec_val(s: Seq<u8>) -> nat
    decreases s.len(),
{
    if s.len() == 0 {
        0
    } else {
        (dec_val(s.drop_last()) * 10 + (s.last() - 48)) as nat
    }
}

/// Every byte of `s` is a decimal digit.
pub open spec fn all_digits(s: Seq<u8>) -> bool {
    forall|i: int| 0 <= i < s.len() ==> is_digit(s[i])
}

/// `p` is a prefix of `s`.
pub open spec fn has_prefix(s: Seq<u8>, p: Seq<u8>) -> bool {
    s.len() >= p.len() && s.take(p.len() as int) =~= p
}

/// Strict lexicographic order on byte strings.
pub open spec fn lex_lt(a: Seq<u8>, b: Seq<u8>) -> bool
    decreases a.len(),
{
    if b.len() == 0 {
        false
    } else if a.len() == 0 {
        true
    } else if a[0] < b[0] {
        true
    } else if a[0] > b[0] {
        false
    } else {
        lex_lt(a.skip(1), b.skip(1))
    }
}

/// The decimal digits of `n` evaluate back to `n` and are all digits.
pub proof fn lemma_dec_digits_val(n: nat)
    ensures
        dec_val(dec_digits(n)) == n,
        all_digits(dec_digits(n)),
        n > 0 ==> dec_digits(n).len() > 0,
        n > 0 ==> dec_digits(n)[0] != 48,
    decreases n,
{
    if n > 0 {
        lemma_dec_digits_val(n / 10);
        let s = dec_digits(n / 10);
        let d = digit_of(n % 10);
        assert(s.push(d).drop_last() =~= s);
        assert(s.push(d).last() == d);
        if n / 10 == 0 {
            assert(dec_digits(n) =~= seq![d]);
            assert(n < 10);
            assert(d != 48) by {
                assert(n % 10 == n);
            }
        } else {
            assert(dec_digits(n)[0] == s[0]);
        }
    }
}

/// The canonical rendering evaluates back to its value.
pub proof fn lemma_dec_of_val(n: nat)
    ensures
        dec_val(dec_of(n)) == n,
        all_digits(dec_of(n)),
        dec_of(n).len() > 0,
{
    if n == 0 {
        let s = seq![48u8];
        assert(s.len() == 1);
        assert(s.last() == 48);
        assert(s.drop_last() =~= Seq::<u8>::empty());
        assert(dec_val(s.drop_last()) == 0);
        assert(dec_val(s) == 0);
    } else {
        lemma_dec_digits_val(n);
    }
}

/// Canonical decimal renderings of distinct values differ.
pub proof fn lemma_dec_of_injective(a: nat, b: nat)
    ensures
        dec_of(a) == dec_of(b) ==> a == b,
{
    lemma_dec_of_val(a);
    lemma_dec_of_val(b);
}

/// Reverse a byte vector.
pub fn reverse_bytes(v: &Vec<u8>) -> (r: Vec<u8>)
    ensures
        r@ =~= v@.reverse(),
{
    let n: usize = v.len();
    let mut r: Vec<u8> = Vec::new();
    let mut i: usize = 0;
    while i < n
        invariant
            n == v@.len(),
            i <= n,
            r@.len() == i,
            forall|j: int| 0 <= j < i ==> r@[j] == v@[n - 1 - j],
        decreases n - i,
    {
        r.push(v[n - 1 - i]);
        i = i + 1;
    }
    r
}

/// Render `n` in decimal.
pub fn render_u64(n: u64) -> (r: Vec<u8>)
    ensures
        r@ == dec_of(n as nat),
{
    if n == 0 {
        let mut r: Vec<u8> = Vec::new();
        r.push(48);
        assert(r@ =~= seq![48u8]);
        return r;
    }
    let mut rev: Vec<u8> = Vec::new();
    let mut m: u64 = n;
    while m > 0
        invariant
            dec_digits(n as nat) =~= dec_digits(m as nat) + rev@.reverse(),
        decreases m,
    {
        let ghost old_m = m as nat;
        let ghost old_rev = rev@;
        let d: u8 = (m % 10) as u8;
        rev.push(48 + d);
        m = m / 10;
        proof {
            assert(digit_of(old_m % 10) == 48 + d);
            assert(rev@ =~= old_rev.push((48 + d) as u8));
            assert(rev@.reverse() =~= seq![(48 + d) as u8] + old_rev.reverse());
            assert(dec_digits(old_m) =~= dec_digits(old_m / 10).push(digit_of(old_m % 10)));
            assert(dec_digits(old_m) =~= dec_digits(m as nat) + seq![(48 + d) as u8]);
            assert(dec_digits(m as nat) + rev@.reverse() =~= (dec_digits(m as nat) + seq![
                (48 + d) as u8,
            ]) + old_rev.reverse());
        }
    }
    let r = reverse_bytes(&rev);
    proof {
        assert(dec_digits(m as nat) =~= Seq::<u8>::empty());
        assert(r@ =~= dec_digits(n as nat));
    }
    r
}

/// Helper: `dec_val` over a growing prefix.
proof fn lemma_dec_val_take_step(s: Seq<u8>, i: int)
    requires
        0 <= i < s.len(),
        is_digit(s[i]),
    ensures
        dec_val(s.take(i + 1)) == dec_val(s.take(i)) * 10 + (s[i] - 48),
{
    assert(s.take(i + 1).drop_last() =~= s.take(i));
    assert(s.take(i + 1).last() == s[i]);
}

/// Helper: the value of a digit string only grows as the string extends.
proof fn lemma_dec_val_take_mono(s: Seq<u8>, i: int, j: int)
    requires
        0 <= i <= j <= s.len(),
        all_digits(s),
    ensures
        dec_val(s.take(i)) <= dec_val(s.take(j)),
    decreases j - i,
{
    if i < j {
        lemma_dec_val_take_mono(s, i, j - 1);
        lemma_dec_val_take_step(s, j - 1);
    }
}

/// Parse a decimal number. Accepts any non-empty digit string whose value
/// fits in a `u64` (leading zeros included); rejects everything else.
pub fn parse_u64(s: &Vec<u8>) -> (r: Option<u64>)
    ensures
        r is Some <==> s@.len() > 0 && all_digits(s@) && dec_val(s@) <= u64::MAX,
        r is Some ==> r->0 == dec_val(s@),
{
    let n: usize = s.len();
    if n == 0 {
        return None;
    }
    let mut acc: u64 = 0;
    let mut i: usize = 0;
    while i < n
        invariant
            n == s@.len(),
            0 <= i <= n,
            forall|j: int| 0 <= j < i ==> is_digit(s@[j]),
            acc == dec_val(s@.take(i as int)),
        decreases n - i,
    {
        let b: u8 = s[i];
        if b < 48 || b > 57 {
            return None;
        }
        let d: u64 = (b - 48) as u64;
        proof {
            lemma_dec_val_take_step(s@, i as int);
        }
        if acc > (u64::MAX - d) / 10 {
            proof {
                if all_digits(s@) {
                    lemma_dec_val_take_mono(s@, i + 1, n as int);
                    assert(s@.take(n as int) =~= s@);
                }
            }
            return None;
        }
        acc = acc * 10 + d;
        i = i + 1;
    }
    proof {
        assert(s@.take(n as int) =~= s@);
    }
    Some(acc)
}

/// Parse a decimal port number: a value that fits in a `u16`.
pub fn parse_u16(s: &Vec<u8>) -> (r: Option<u16>)
    ensures
        r is Some <==> s@.len() > 0 && all_digits(s@) && dec_val(s@) <= u16::MAX,
        r is Some ==> r->0 == dec_val(s@),
{
    match parse_u64(s) {
        Some(v) => {
            if v <= 65535 {
                Some(v as u16)
            } else {
                None
            }
        },
        None => {
            proof {
                if s@.len() > 0 && all_digits(s@) && dec_val(s@) <= u16::MAX {
                    assert(dec_val(s@) <= u64::MAX);
                }
            }
            None
        },
    }
}

/// Rendering then parsing a number gives it back.
pub proof fn lemma_dec_round_trip(n: u64)
    ensures
        dec_val(dec_of(n as nat)) == n,
        all_digits(dec_of(n as nat)),
        dec_of(n as nat).len() > 0,
{
    lemma_dec_of_val(n as nat);
}

/// Byte-vector equality.
pub fn bytes_eq(a: &Vec<u8>, b: &Vec<u8>) -> (r: bool)
    ensures
        r <==> a@ == b@,
{
    let n: usize = a.len();
    if n != b.len() {
        return false;
    }
    let mut i: usize = 0;
    while i < n
        invariant
            n == a@.len(),
            n == b@.len(),
            0 <= i <= n,
            forall|j: int| 0 <= j < i ==> a@[j] == b@[j],
        decreases n - i,
    {
        if a[i] != b[i] {
            return false;
        }
        i = i + 1;
    }
    proof {
        assert(a@ =~= b@);
    }
    true
}

/// Does `s` start with `p`?
pub fn starts_with(s: &Vec<u8>, p: &Vec<u8>) -> (r: bool)
    ensures
        r == has_prefix(s@, p@),
{
    let np: usize = p.len();
    if s.len() < np {
        return false;
    }
    let mut i: usize = 0;
    while i < np
        invariant
            np == p@.len(),
            s@.len() >= np,
            0 <= i <= np,
            forall|j: int| 0 <= j < i ==> s@[j] == p@[j],
        decreases np - i,
    {
        if s[i] != p[i] {
            assert(s@.take(np as int)[i as int] != p@[i as int]);
            return false;
        }
        i = i + 1;
    }
    proof {
        assert(s@.take(np as int) =~= p@);
    }
    true
}

/// Copy a byte vector.
pub fn copy_bytes(v: &Vec<u8>) -> (r: Vec<u8>)
    ensures
        r@ == v@,
{
    let n: usize = v.len();
    let mut r: Vec<u8> = Vec::new();
    let mut i: usize = 0;
    while i < n
        invariant
            n == v@.len(),
            0 <= i <= n,
            r@ =~= v@.take(i as int),
        decreases n - i,
    {
        r.push(v[i]);
        proof {
            assert(v@.take(i + 1) =~= v@.take(i as int).push(v@[i as int]));
        }
        i = i + 1;
    }
    proof {
        assert(v@.take(n as int) =~= v@);
    }
    r
}

/// Append all of `src` to `dst`.
pub fn push_all(dst: &mut Vec<u8>, src: &Vec<u8>)
    ensures
        final(dst)@ =~= old(dst)@ + src@,
{
    let n: usize = src.len();
    let mut i: usize = 0;
    while i < n
        invariant
            n == src@.len(),
            0 <= i <= n,
            dst@ =~= old(dst)@ + src@.take(i as int),
        decreases n - i,
    {
        dst.push(src[i]);
        proof {
            assert(old(dst)@ + src@.take(i + 1) =~= (old(dst)@ + src@.take(i as int)).push(
                src@[i as int],
            ));
        }
        i = i + 1;
    }
    proof {
        assert(src@.take(n as int) =~= src@);
    }
}

/// `s` holds no occurrence of `sep`.
pub open spec fn sep_free(s: Seq<u8>, sep: u8) -> bool {
    forall|i: int| 0 <= i < s.len() ==> s[i] != sep
}

/// The views of a sequence of byte vectors.
pub open spec fn seq_views(s: Seq<Vec<u8>>) -> Seq<Seq<u8>> {
    s.map(|i: int, v: Vec<u8>| v@)
}

/// Parts joined with a separator byte between them.
pub open spec fn join_with(parts: Seq<Seq<u8>>, sep: u8) -> Seq<u8>
    decreases parts.len(),
{
    if parts.len() == 0 {
        Seq::empty()
    } else if parts.len() == 1 {
        parts[0]
    } else {
        join_with(parts.drop_last(), sep) + seq![sep] + parts.last()
    }
}

/// Appending a part extends the join by a separator and the part.
pub proof fn lemma_join_push(parts: Seq<Seq<u8>>, c: Seq<u8>, sep: u8)
    ensures
        parts.len() == 0 ==> join_with(parts.push(c), sep) == c,
        parts.len() > 0 ==> join_with(parts.push(c), sep) == join_with(parts, sep) + seq![sep] + c,
{
    let q = parts.push(c);
    if parts.len() == 0 {
        assert(q.len() == 1);
        assert(q[0] == c);
    } else {
        assert(q.drop_last() =~= parts);
        assert(q.last() == c);
    }
}

/// Split on a separator byte: the unique decomposition of `s` into
/// separator-free parts joined by `sep`.
pub fn split_bytes(s: &Vec<u8>, sep: u8) -> (r: Vec<Vec<u8>>)
    ensures
        r@.len() >= 1,
        forall|i: int| 0 <= i < r@.len() ==> sep_free(#[trigger] r@[i]@, sep),
        join_with(seq_views(r@), sep) == s@,
{
    let n: usize = s.len();
    let mut parts: Vec<Vec<u8>> = Vec::new();
    let mut cur: Vec<u8> = Vec::new();
    let mut i: usize = 0;
    while i < n
        invariant
            n == s@.len(),
            0 <= i <= n,
            forall|j: int| 0 <= j < parts@.len() ==> sep_free(#[trigger] parts@[j]@, sep),
            sep_free(cur@, sep),
            join_with(seq_views(parts@).push(cur@), sep) =~= s@.take(i as int),
        decreases n - i,
    {
        let ghost views0 = seq_views(parts@);
        let ghost cur0 = cur@;
        let b: u8 = s[i];
        if b == sep {
            parts.push(cur);
            cur = Vec::new();
            proof {
                assert(seq_views(parts@) =~= views0.push(cur0));
                lemma_join_push(views0.push(cur0), cur@, sep);
                assert(s@.take(i + 1) =~= s@.take(i as int).push(b));
                assert(join_with(seq_views(parts@).push(cur@), sep) =~= s@.take(i + 1));
            }
        } else {
            cur.push(b);
            proof {
                assert(cur@ =~= cur0.push(b));
                lemma_join_push(views0, cur0, sep);
                lemma_join_push(views0, cur@, sep);
                assert(s@.take(i + 1) =~= s@.take(i as int).push(b));
                if views0.len() == 0 {
                    assert(join_with(views0.push(cur@), sep) =~= s@.take(i + 1));
                } else {
                    assert(join_with(views0.push(cur@), sep) =~= s@.take(i + 1));
                }
            }
        }
        i = i + 1;
    }
    let ghost views1 = seq_views(parts@);
    let ghost cur1 = cur@;
    parts.push(cur);
    proof {
        assert(seq_views(parts@) =~= views1.push(cur1));
        assert(s@.take(n as int) =~= s@);
    }
    parts
}

/// A byte string decomposes into separator-free parts in only one way.
pub proof fn lemma_split_unique(f1: Seq<Seq<u8>>, f2: Seq<Seq<u8>>, sep: u8)
    requires
        f1.len() >= 1,
        f2.len() >= 1,
        forall|i: int| 0 <= i < f1.len() ==> sep_free(#[trigger] f1[i], sep),
        forall|i: int| 0 <= i < f2.len() ==> sep_free(#[trigger] f2[i], sep),
        join_with(f1, sep) == join_with(f2, sep),
    ensures
        f1 =~= f2,
    decreases f1.len() + f2.len(),
{
    let j = join_with(f1, sep);
    if f1.len() == 1 && f2.len() == 1 {
        assert(f1[0] == j);
        assert(f2[0] == j);
    } else if f1.len() == 1 {
        let p2 = join_with(f2.drop_last(), sep);
        assert(j == p2 + seq![sep] + f2.last());
        assert(j[p2.len() as int] == sep);
        assert(f1[0][p2.len() as int] == sep);
        assert(false);
    } else if f2.len() == 1 {
        let p1 = join_with(f1.drop_last(), sep);
        assert(j == p1 + seq![sep] + f1.last());
        assert(j[p1.len() as int] == sep);
        assert(f2[0][p1.len() as int] == sep);
        assert(false);
    } else {
        let p1 = join_with(f1.drop_last(), sep);
        let p2 = join_with(f2.drop_last(), sep);
        let l1 = f1.last();
        let l2 = f2.last();
        assert(j == p1 + seq![sep] + l1);
        assert(j == p2 + seq![sep] + l2);
        assert(j.len() == p1.len() + 1 + l1.len());
        assert(j.len() == p2.len() + 1 + l2.len());
        if l1.len() < l2.len() {
            let q = p1.len() as int;
            assert(j[q] == sep);
            assert(q >= p2.len() + 1);
            assert(l2[q - p2.len() - 1] == sep);
            assert(false);
        }
        if l2.len() < l1.len() {
            let q = p2.len() as int;
            assert(j[q] == sep);
            assert(q >= p1.len() + 1);
            assert(l1[q - p1.len() - 1] == sep);
            assert(false);
        }
        assert(l1.len() == l2.len());
        assert(p1.len() == p2.len());
        assert forall|k: int| 0 <= k < l1.len() implies l1[k] == l2[k] by {
            assert(l1[k] == j[p1.len() + 1 + k]);
            assert(l2[k] == j[p2.len() + 1 + k]);
        }
        assert(l1 =~= l2);
        assert forall|k: int| 0 <= k < p1.len() implies p1[k] == p2[k] by {
            assert(p1[k] == j[k]);
            assert(p2[k] == j[k]);
        }
        assert(p1 =~= p2);
        assert forall|i: int| 0 <= i < f1.drop_last().len() implies sep_free(
            #[trigger] f1.drop_last()[i],
            sep,
        ) by {
            assert(f1.drop_last()[i] == f1[i]);
        }
        assert forall|i: int| 0 <= i < f2.drop_last().len() implies sep_free(
            #[trigger] f2.drop_last()[i],
            sep,
        ) by {
            assert(f2.drop_last()[i] == f2[i]);
        }
        lemma_split_unique(f1.drop_last(), f2.drop_last(), sep);
        assert forall|i: int| 0 <= i < f1.len() implies f1[i] == f2[i] by {
            if i < f1.len() - 1 {
                assert(f1.drop_last()[i] == f2.drop_last()[i]);
            }
        }
    }
}

/// One comparison step of the lexicographic order.
proof fn lemma_lex_step(a: Seq<u8>, b: Seq<u8>, i: int)
    requires
        0 <= i < a.len(),
        i < b.len(),
        a[i] == b[i],
    ensures
        lex_lt(a.skip(i), b.skip(i)) == lex_lt(a.skip(i + 1), b.skip(i + 1)),
{
    assert(a.skip(i)[0] == a[i]);
    assert(b.skip(i)[0] == b[i]);
    assert(a.skip(i).skip(1) =~= a.skip(i + 1));
    assert(b.skip(i).skip(1) =~= b.skip(i + 1));
}

/// Compare two byte strings lexicographically.
pub fn bytes_lt(a: &Vec<u8>, b: &Vec<u8>) -> (r: bool)
    ensures
        r == lex_lt(a@, b@),
{
    let na: usize = a.len();
    let nb: usize = b.len();
    let mut i: usize = 0;
    proof {
        assert(a@.skip(0) =~= a@);
        assert(b@.skip(0) =~= b@);
    }
    while i < na && i < nb
        invariant
            na == a@.len(),
            nb == b@.len(),
            0 <= i <= na,
            i <= nb,
            lex_lt(a@, b@) == lex_lt(a@.skip(i as int), b@.skip(i as int)),
            forall|j: int| 0 <= j < i ==> a@[j] == b@[j],
        decreases na - i,
    {
        if a[i] < b[i] {
            proof {
                assert(a@.skip(i as int)[0] == a@[i as int]);
                assert(b@.skip(i as int)[0] == b@[i as int]);
            }
            return true;
        }
        if a[i] > b[i] {
            proof {
                assert(a@.skip(i as int)[0] == a@[i as int]);
                assert(b@.skip(i as int)[0] == b@[i as int]);
            }
            return false;
        }
        proof {
            lemma_lex_step(a@, b@, i as int);
        }
        i = i + 1;
    }
    proof {
        assert(a@.skip(i as int).len() == na - i);
        assert(b@.skip(i as int).len() == nb - i);
    }
    i >= na && i < nb
}

/// The lexicographic order is transitive.
pub proof fn lemma_lex_trans(a: Seq<u8>, b: Seq<u8>, c: Seq<u8>)
    requires
        lex_lt(a, b),
        lex_lt(b, c),
    ensures
        lex_lt(a, c),
    decreases a.len(),
{
    if c.len() == 0 {
    } else if b.len() == 0 {
    } else if a.len() == 0 {
    } else {
        if a[0] < b[0] {
            if b[0] < c[0] {
            } else {
                assert(b[0] == c[0]);
            }
        } else {
            assert(a[0] == b[0]);
            if b[0] < c[0] {
            } else {
                assert(b[0] == c[0]);
                lemma_lex_trans(a.skip(1), b.skip(1), c.skip(1));
            }
        }
    }
}

} // verus!
